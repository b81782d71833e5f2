//! Drawing rooms onto the world grid and clearing them off it again.
use vstd::prelude::*;
use crate::tiles::TileKind;
use crate::room::Room;
use crate::office::grid_wf;

verus! {

/// Sets the tile at `row`, `col` of a grid.
pub fn set_tile(world: &mut Vec<Vec<TileKind>>, row: usize, col: usize, t: TileKind)
    requires
        row < old(world)@.len(),
        col < old(world)@[row as int]@.len(),
    ensures
        final(world)@.len() == old(world)@.len(),
        forall|i: int| 0 <= i < old(world)@.len() && i != row ==> final(world)@[i] == old(world)@[i],
        final(world)@[row as int]@ == old(world)@[row as int]@.update(col as int, t),
{
    world[row][col] = t;
}

/// Room `r`'s rectangle, by its position and size, holds world cell `row`, `col`.
pub open spec fn covers_area(r: Room, row: int, col: int) -> bool {
    r.y <= row < r.y + r.height && r.x <= col < r.x + r.width
}

/// Some room of `rooms` holds world cell `row`, `col`.
pub open spec fn covered_by(rooms: Seq<Room>, row: int, col: int) -> bool {
    exists|k: int| 0 <= k < rooms.len() && covers_area(#[trigger] rooms[k], row, col)
}

/// Room `r`'s tile grid, placed at its position, holds world cell `row`, `col`.
pub open spec fn covers_grid(r: Room, row: int, col: int) -> bool {
    &&& 0 <= row - r.y < r.tiles@.len()
    &&& 0 <= col - r.x < r.tiles@[row - r.y]@.len()
}

/// The tile of world cell `row`, `col` once `rooms` have been drawn in order over the
/// grid `w`: that of the last room whose grid holds the cell, else the cell's own.
pub open spec fn stamped(w: Seq<Vec<TileKind>>, rooms: Seq<Room>, row: int, col: int) -> TileKind
    decreases rooms.len(),
{
    if rooms.len() == 0 {
        w[row]@[col]
    } else if covers_grid(rooms.last(), row, col) {
        rooms.last().tiles@[row - rooms.last().y]@[col - rooms.last().x]
    } else {
        stamped(w, rooms.drop_last(), row, col)
    }
}

/// Rooms at non-negative positions with non-negative sizes.
pub open spec fn rooms_placed(rooms: Seq<Room>) -> bool {
    forall|k: int| 0 <= k < rooms.len() ==> {
        &&& (#[trigger] rooms[k]).x >= 0
        &&& rooms[k].y >= 0
        &&& rooms[k].width >= 0
        &&& rooms[k].height >= 0
    }
}

/// The rooms' grids, at their positions, stay within the range of `usize` indices.
pub open spec fn grids_fit(rooms: Seq<Room>) -> bool {
    forall|k: int| 0 <= k < rooms.len() ==> {
        &&& (#[trigger] rooms[k]).y + rooms[k].tiles@.len() <= usize::MAX
        &&& forall|ry: int| 0 <= ry < rooms[k].tiles@.len() ==> rooms[k].x + (#[trigger] rooms[k].tiles@[ry])@.len() <= usize::MAX
    }
}

/// Turns every world cell that one of `rooms` covers back into grass.
pub fn clear_rooms(world: &mut Vec<Vec<TileKind>>, rooms: &Vec<Room>)
    requires
        grid_wf(old(world)@),
        rooms_placed(rooms@),
    ensures
        grid_wf(final(world)@),
        forall|r: int, c: int|
            0 <= r < 50 && 0 <= c < 60 ==> #[trigger] final(world)@[r]@[c] == (if covered_by(rooms@, r, c) {
                TileKind::Grass
            } else {
                old(world)@[r]@[c]
            }),
{
    let ghost w0 = world@;
    let mut k: usize = 0;
    while k < rooms.len()
        invariant
            k <= rooms@.len(),
            rooms_placed(rooms@),
            grid_wf(world@),
            forall|r: int, c: int|
                0 <= r < 50 && 0 <= c < 60 ==> #[trigger] world@[r]@[c] == (if covered_by(rooms@.take(k as int), r, c) {
                    TileKind::Grass
                } else {
                    w0[r]@[c]
                }),
        decreases rooms@.len() - k,
    {
        let room = &rooms[k];
        let ghost wk = world@;
        let h = room.height as usize;
        let wd = room.width as usize;
        let mut ry: usize = 0;
        while ry < h
            invariant
                k < rooms@.len(),
                room == rooms@[k as int],
                h == room.height,
                wd == room.width,
                room.x >= 0,
                room.y >= 0,
                ry <= h,
                grid_wf(world@),
                forall|r: int, c: int|
                    0 <= r < 50 && 0 <= c < 60 ==> #[trigger] world@[r]@[c] == (if room.y <= r < room.y + ry && room.x <= c < room.x + room.width {
                        TileKind::Grass
                    } else {
                        wk[r]@[c]
                    }),
            decreases h - ry,
        {
            let ghost wr = world@;
            let mut rx: usize = 0;
            while rx < wd
                invariant
                    room.x >= 0,
                    room.y >= 0,
                    h == room.height,
                    wd == room.width,
                    ry < h,
                    rx <= wd,
                    grid_wf(world@),
                    forall|r: int, c: int|
                        0 <= r < 50 && 0 <= c < 60 ==> #[trigger] world@[r]@[c] == (if r == room.y + ry && room.x <= c < room.x + rx {
                            TileKind::Grass
                        } else {
                            wr[r]@[c]
                        }),
                decreases wd - rx,
            {
                let wx = room.x as usize + rx;
                let wy = room.y as usize + ry;
                if wy < 50 && wx < 60 {
                    set_tile(world, wy, wx, TileKind::Grass);
                }
                rx = rx + 1;
            }
            ry = ry + 1;
        }
        proof {
            assert forall|r: int, c: int|
                0 <= r < 50 && 0 <= c < 60 implies #[trigger] world@[r]@[c] == (if covered_by(rooms@.take(k + 1), r, c) {
                    TileKind::Grass
                } else {
                    w0[r]@[c]
                }) by {
                let t1 = rooms@.take(k + 1);
                let t0 = rooms@.take(k as int);
                if covered_by(t1, r, c) {
                    let j = choose|j: int| 0 <= j < t1.len() && covers_area(#[trigger] t1[j], r, c);
                    if j < k {
                        assert(t0[j] == t1[j]);
                    }
                } else {
                    assert(t1[k as int] == *room);
                    assert(!covers_area(*room, r, c));
                    assert forall|j: int| 0 <= j < t0.len() implies !covers_area(#[trigger] t0[j], r, c) by {
                        assert(t0[j] == t1[j]);
                    }
                }
            }
        }
        k = k + 1;
    }
    proof {
        assert(rooms@.take(rooms@.len() as int) =~= rooms@);
    }
}

/// Draws each room's tiles over the world grid, in order; cells off the grid are skipped.
pub fn stamp_rooms(world: &mut Vec<Vec<TileKind>>, rooms: &Vec<Room>)
    requires
        grid_wf(old(world)@),
        rooms_placed(rooms@),
        grids_fit(rooms@),
    ensures
        grid_wf(final(world)@),
        forall|r: int, c: int|
            0 <= r < 50 && 0 <= c < 60 ==> #[trigger] final(world)@[r]@[c] == stamped(old(world)@, rooms@, r, c),
{
    let ghost w0 = world@;
    let mut k: usize = 0;
    while k < rooms.len()
        invariant
            k <= rooms@.len(),
            rooms_placed(rooms@),
            grids_fit(rooms@),
            grid_wf(world@),
            forall|r: int, c: int|
                0 <= r < 50 && 0 <= c < 60 ==> #[trigger] world@[r]@[c] == stamped(w0, rooms@.take(k as int), r, c),
        decreases rooms@.len() - k,
    {
        let room = &rooms[k];
        let ghost wk = world@;
        let mut ry: usize = 0;
        while ry < room.tiles.len()
            invariant
                k < rooms@.len(),
                room == rooms@[k as int],
                room.x >= 0,
                room.y >= 0,
                grids_fit(rooms@),
                ry <= room.tiles@.len(),
                grid_wf(world@),
                forall|r: int, c: int|
                    0 <= r < 50 && 0 <= c < 60 ==> #[trigger] world@[r]@[c] == (if covers_grid(*room, r, c) && r - room.y < ry {
                        room.tiles@[r - room.y]@[c - room.x]
                    } else {
                        wk[r]@[c]
                    }),
            decreases room.tiles@.len() - ry,
        {
            let ghost wr = world@;
            let row = &room.tiles[ry];
            proof {
                assert(rooms@[k as int].x + rooms@[k as int].tiles@[ry as int]@.len() <= usize::MAX);
            }
            let mut rx: usize = 0;
            while rx < row.len()
                invariant
                    room.x >= 0,
                    room.y >= 0,
                    ry < room.tiles@.len(),
                    row == room.tiles@[ry as int],
                    rx <= row@.len(),
                    room.x + row@.len() <= usize::MAX,
                    room.y + room.tiles@.len() <= usize::MAX,
                    grid_wf(world@),
                    forall|r: int, c: int|
                        0 <= r < 50 && 0 <= c < 60 ==> #[trigger] world@[r]@[c] == (if r == room.y + ry && room.x <= c < room.x + rx {
                            row@[c - room.x]
                        } else {
                            wr[r]@[c]
                        }),
                decreases row@.len() - rx,
            {
                let wx = room.x as usize + rx;
                let wy = room.y as usize + ry;
                if wy < 50 && wx < 60 {
                    set_tile(world, wy, wx, row[rx]);
                }
                rx = rx + 1;
            }
            ry = ry + 1;
        }
        proof {
            assert forall|r: int, c: int|
                0 <= r < 50 && 0 <= c < 60 implies #[trigger] world@[r]@[c] == stamped(w0, rooms@.take(k + 1), r, c) by {
                let t1 = rooms@.take(k + 1);
                assert(t1.last() == *room);
                assert(t1.drop_last() =~= rooms@.take(k as int));
            }
        }
        k = k + 1;
    }
    proof {
        assert(rooms@.take(rooms@.len() as int) =~= rooms@);
    }
}

/// Where no other room's grid holds a cell, drawing the rooms leaves that cell with the
/// tile of the one room that holds it.
pub proof fn lemma_stamped_single(w: Seq<Vec<TileKind>>, rooms: Seq<Room>, k: int, row: int, col: int)
    requires
        0 <= k < rooms.len(),
        covers_grid(rooms[k], row, col),
        forall|j: int| 0 <= j < rooms.len() && j != k ==> !covers_grid(#[trigger] rooms[j], row, col),
    ensures
        stamped(w, rooms, row, col) == rooms[k].tiles@[row - rooms[k].y]@[col - rooms[k].x],
    decreases rooms.len(),
{
    if k < rooms.len() - 1 {
        let d = rooms.drop_last();
        assert(!covers_grid(rooms[rooms.len() - 1], row, col));
        assert forall|j: int| 0 <= j < d.len() && j != k implies !covers_grid(#[trigger] d[j], row, col) by {
            assert(d[j] == rooms[j]);
        }
        lemma_stamped_single(w, d, k, row, col);
    }
}

/// Where no room's grid holds a cell, drawing the rooms leaves the cell as it was.
pub proof fn lemma_stamped_none(w: Seq<Vec<TileKind>>, rooms: Seq<Room>, row: int, col: int)
    requires
        forall|j: int| 0 <= j < rooms.len() ==> !covers_grid(#[trigger] rooms[j], row, col),
    ensures
        stamped(w, rooms, row, col) == w[row]@[col],
    decreases rooms.len(),
{
    if rooms.len() > 0 {
        let d = rooms.drop_last();
        assert(!covers_grid(rooms[rooms.len() - 1], row, col));
        assert forall|j: int| 0 <= j < d.len() implies !covers_grid(#[trigger] d[j], row, col) by {
            assert(d[j] == rooms[j]);
        }
        lemma_stamped_none(w, d, row, col);
    }
}

/// `g` has `rows` rows of `cols` tiles.
pub open spec fn grid_dims(g: Seq<Vec<TileKind>>, rows: int, cols: int) -> bool {
    &&& g.len() == rows
    &&& forall|r: int| 0 <= r < rows ==> (#[trigger] g[r])@.len() == cols
}

/// Sets every tile of rows `r0..r1` and columns `c0..c1` of a grid to `t`.
pub fn fill_rect(g: &mut Vec<Vec<TileKind>>, r0: usize, r1: usize, c0: usize, c1: usize, t: TileKind, Ghost(rows): Ghost<int>, Ghost(cols): Ghost<int>)
    requires
        grid_dims(old(g)@, rows, cols),
        r1 <= rows,
        c1 <= cols,
    ensures
        grid_dims(final(g)@, rows, cols),
        forall|r: int, c: int| 0 <= r < rows && 0 <= c < cols ==> #[trigger] final(g)@[r]@[c] == (if r0 <= r < r1 && c0 <= c < c1 {
            t
        } else {
            old(g)@[r]@[c]
        }),
{
    let ghost g0 = g@;
    let mut r = r0;
    while r < r1
        invariant
            r0 <= r,
            r <= r1 || r == r0,
            r1 <= rows,
            c1 <= cols,
            grid_dims(g@, rows, cols),
            forall|i: int, c: int| 0 <= i < rows && 0 <= c < cols ==> #[trigger] g@[i]@[c] == (if r0 <= i < r && c0 <= c < c1 {
                t
            } else {
                g0[i]@[c]
            }),
        decreases r1 - r,
    {
        let ghost gr = g@;
        let mut c = c0;
        while c < c1
            invariant
                r < r1,
                r1 <= rows,
                c1 <= cols,
                c0 <= c,
                c <= c1 || c == c0,
                grid_dims(g@, rows, cols),
                forall|i: int, j: int| 0 <= i < rows && 0 <= j < cols ==> #[trigger] g@[i]@[j] == (if i == r && c0 <= j < c {
                    t
                } else {
                    gr[i]@[j]
                }),
            decreases c1 - c,
        {
            set_tile(g, r, c, t);
            c = c + 1;
        }
        r = r + 1;
    }
}

/// Seats every other tile of row `row` from column `from` up to `to`: the tiles become
/// chairs, and their `(col, row)` are appended to `desks`.
pub fn seat_row(g: &mut Vec<Vec<TileKind>>, desks: &mut Vec<(i32, i32)>, row: i32, from: i32, to: i32, Ghost(rows): Ghost<int>, Ghost(cols): Ghost<int>)
    requires
        grid_dims(old(g)@, rows, cols),
        0 <= row < rows,
        0 <= from,
        to < cols,
        cols <= 1000,
    ensures
        grid_dims(final(g)@, rows, cols),
        forall|r: int, c: int| 0 <= r < rows && 0 <= c < cols ==> #[trigger] final(g)@[r]@[c] == (if r == row && from <= c <= to && (c - from) % 2 == 0 {
            TileKind::Chair
        } else {
            old(g)@[r]@[c]
        }),
        final(desks)@ == old(desks)@ + every_second(from as int, to as int).map_values(|c: int| (c as i32, row)),
{
    let ghost g0 = g@;
    let ghost d0 = desks@;
    let mut c = from;
    while c <= to
        invariant
            grid_dims(g@, rows, cols),
            0 <= row < rows,
            0 <= from <= c,
            (c - from) % 2 == 0,
            c <= to + 2 || c == from,
            to < cols <= 1000,
            forall|r: int, j: int| 0 <= r < rows && 0 <= j < cols ==> #[trigger] g@[r]@[j] == (if r == row && from <= j < c && (j - from) % 2 == 0 {
                TileKind::Chair
            } else {
                g0[r]@[j]
            }),
            desks@ =~= d0 + every_second(from as int, c - 2).map_values(|j: int| (j as i32, row)),
        decreases to + 2 - c,
    {
        set_tile(g, row as usize, c as usize, TileKind::Chair);
        desks.push((c, row));
        proof {
            assert(every_second(from as int, c as int) =~= every_second(from as int, c - 2).push(c as int));
        }
        c = c + 2;
    }
    proof {
        assert(every_second(from as int, c - 2) =~= every_second(from as int, to as int));
    }
}

/// Seats every other tile of column `col` from row `from` down to `to`: the tiles become
/// chairs, and their `(col, row)` are appended to `desks`.
pub fn seat_col(g: &mut Vec<Vec<TileKind>>, desks: &mut Vec<(i32, i32)>, col: i32, from: i32, to: i32, Ghost(rows): Ghost<int>, Ghost(cols): Ghost<int>)
    requires
        grid_dims(old(g)@, rows, cols),
        0 <= col < cols,
        0 <= from,
        to < rows,
        rows <= 1000,
    ensures
        grid_dims(final(g)@, rows, cols),
        forall|r: int, c: int| 0 <= r < rows && 0 <= c < cols ==> #[trigger] final(g)@[r]@[c] == (if c == col && from <= r <= to && (r - from) % 2 == 0 {
            TileKind::Chair
        } else {
            old(g)@[r]@[c]
        }),
        final(desks)@ == old(desks)@ + every_second(from as int, to as int).map_values(|r: int| (col, r as i32)),
{
    let ghost g0 = g@;
    let ghost d0 = desks@;
    let mut r = from;
    while r <= to
        invariant
            grid_dims(g@, rows, cols),
            0 <= col < cols,
            0 <= from <= r,
            (r - from) % 2 == 0,
            r <= to + 2 || r == from,
            to < rows <= 1000,
            forall|i: int, j: int| 0 <= i < rows && 0 <= j < cols ==> #[trigger] g@[i]@[j] == (if j == col && from <= i < r && (i - from) % 2 == 0 {
                TileKind::Chair
            } else {
                g0[i]@[j]
            }),
            desks@ =~= d0 + every_second(from as int, r - 2).map_values(|i: int| (col, i as i32)),
        decreases to + 2 - r,
    {
        set_tile(g, r as usize, col as usize, TileKind::Chair);
        desks.push((col, r));
        proof {
            assert(every_second(from as int, r as int) =~= every_second(from as int, r - 2).push(r as int));
        }
        r = r + 2;
    }
    proof {
        assert(every_second(from as int, r - 2) =~= every_second(from as int, to as int));
    }
}

/// `from`, `from + 2`, ... up to `to`.
pub open spec fn every_second(from: int, to: int) -> Seq<int> {
    if from <= to {
        Seq::new(((to - from) / 2 + 1) as nat, |i: int| from + 2 * i)
    } else {
        Seq::empty()
    }
}

} // verus!
