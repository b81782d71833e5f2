//! Room layout: one room per session, sized by its number of agents, placed left to right
//! and wrapping downwards, clear of the path cross and inside the mountain border.
use vstd::prelude::*;
use crate::room::Room;
use crate::sessions::counts_view;

verus! {

/// Room size `(width, height)` for a session with `count` agents.
pub open spec fn room_size(count: int) -> (int, int) {
    if count <= 3 {
        (8, 7)
    } else if count <= 6 {
        (10, 8)
    } else if count <= 10 {
        (12, 10)
    } else {
        (14, 12)
    }
}

/// Picks the room dimensions for a session with `count` agents.
pub fn room_size_for_agents(count: usize) -> (r: (i32, i32))
    ensures
        r.0 == room_size(count as int).0,
        r.1 == room_size(count as int).1,
{
    if count <= 3 {
        (8, 7)
    } else if count <= 6 {
        (10, 8)
    } else if count <= 10 {
        (12, 10)
    } else {
        (14, 12)
    }
}

/// A room of width `w` starting at column `x` that would touch the path columns
/// (30 and 31, with one column of margin on the left) moves to column 33.
pub open spec fn clear_of_column(x: int, w: int) -> int {
    if x < 32 && x + w > 29 { 33 } else { x }
}

/// A room from row `y` of height `h` would touch the path rows (20 and 21, with one row
/// of margin above).
pub open spec fn crosses_path_rows(y: int, h: int) -> bool {
    y < 22 && y + h > 19
}

/// One placement step. The cursor `c` is `(x, y, tallest room of the current row)`.
/// Gives the room's top left tile and the next cursor, or nothing once the room no longer
/// fits above the bottom border.
pub open spec fn place(c: (int, int, int), w: int, h: int) -> Option<((int, int), (int, int, int))> {
    let x1 = clear_of_column(c.0, w);
    let wrap1 = x1 + w > 57;
    let x2 = if wrap1 { 3 } else { x1 };
    let y2 = if wrap1 { c.1 + c.2 + 3 } else { c.1 };
    let m2 = if wrap1 { 0 } else { c.2 };
    let jump = crosses_path_rows(y2, h);
    let x3 = if jump { 3 } else { x2 };
    let y3 = if jump { 23 } else { y2 };
    let m3 = if jump { 0 } else { m2 };
    if y3 + h > 47 {
        None
    } else {
        let x4 = clear_of_column(x3, w);
        if x4 + w > 57 {
            let y5 = y3 + m3 + 3;
            let y6 = if crosses_path_rows(y5, h) { 23 } else { y5 };
            if y6 + h > 47 {
                None
            } else {
                Some(((3, y6), (3 + w + 2, y6, h)))
            }
        } else {
            Some(((x4, y3), (x4 + w + 2, y3, if m3 >= h { m3 } else { h })))
        }
    }
}

/// Top left tiles of the rooms of the given sizes, placed in order from cursor `c` until
/// one no longer fits.
pub open spec fn layout(sizes: Seq<(int, int)>, c: (int, int, int)) -> Seq<(int, int)>
    decreases sizes.len(),
{
    if sizes.len() == 0 {
        Seq::empty()
    } else {
        match place(c, sizes[0].0, sizes[0].1) {
            None => Seq::empty(),
            Some((pos, c2)) => seq![pos] + layout(sizes.drop_first(), c2),
        }
    }
}

/// The cursor the layout starts from: column 3, row 3, empty row.
pub open spec fn start_cursor() -> (int, int, int) {
    (3, 3, 0)
}

/// Room sizes for the counted sessions.
pub open spec fn sizes_of(counts: Seq<(Seq<char>, nat)>) -> Seq<(int, int)> {
    counts.map_values(|e: (Seq<char>, nat)| room_size(e.1 as int))
}

/// The sizes are ones that `room_size` hands out.
pub open spec fn sizes_ok(sizes: Seq<(int, int)>) -> bool {
    forall|i: int| 0 <= i < sizes.len() ==> 1 <= (#[trigger] sizes[i]).0 <= 14 && 1 <= sizes[i].1 <= 12
}

/// Rectangle `(x, y, w, h)` of tiles.
pub open spec fn rect_disjoint(a: (int, int, int, int), b: (int, int, int, int)) -> bool {
    a.0 + a.2 <= b.0 || b.0 + b.2 <= a.0 || a.1 + a.3 <= b.1 || b.1 + b.3 <= a.1
}

/// The room of size `w` by `h` at `pos` lies inside the mountain border with a margin,
/// and off the path cross.
pub open spec fn placed_well(pos: (int, int), w: int, h: int) -> bool {
    &&& 3 <= pos.0
    &&& pos.0 + w <= 57
    &&& 3 <= pos.1
    &&& pos.1 + h <= 47
    &&& (pos.0 + w <= 30 || pos.0 >= 32)
    &&& (pos.1 + h <= 20 || pos.1 >= 22)
}

spec fn cursor_ok(c: (int, int, int)) -> bool {
    3 <= c.0 && 3 <= c.1 && 0 <= c.2 <= 12
}

/// Rectangle `r` was placed before the cursor `c`: earlier in the same row, left of the
/// cursor (and above the path rows when the row is), or in an earlier row.
spec fn behind(r: (int, int, int, int), c: (int, int, int)) -> bool {
    ||| (r.1 == c.1 && r.0 + r.2 + 2 <= c.0 && r.3 <= c.2 && (c.1 < 22 ==> r.1 + r.3 <= 19))
    ||| r.1 + r.3 + 3 <= c.1
}

proof fn lemma_place(c: (int, int, int), w: int, h: int)
    requires
        cursor_ok(c),
        1 <= w <= 14,
        1 <= h <= 12,
        place(c, w, h) is Some,
    ensures
        ({
            let (pos, c2) = place(c, w, h)->0;
            &&& placed_well(pos, w, h)
            &&& cursor_ok(c2)
            &&& behind((pos.0, pos.1, w, h), c2)
            &&& c2.0 <= 59
            &&& c2.1 <= 47
            &&& c2.2 <= 12
        }),
{
}

proof fn lemma_place_behind(r: (int, int, int, int), c: (int, int, int), w: int, h: int)
    requires
        cursor_ok(c),
        1 <= w <= 14,
        1 <= h <= 12,
        r.2 >= 1,
        r.3 >= 1,
        behind(r, c),
        place(c, w, h) is Some,
    ensures
        ({
            let (pos, c2) = place(c, w, h)->0;
            &&& rect_disjoint(r, (pos.0, pos.1, w, h))
            &&& behind(r, c2)
        }),
{
}

/// Every rectangle behind the cursor stays clear of all rooms placed from it.
proof fn lemma_layout_behind(sizes: Seq<(int, int)>, c: (int, int, int), r: (int, int, int, int), i: int)
    requires
        sizes_ok(sizes),
        cursor_ok(c),
        r.2 >= 1,
        r.3 >= 1,
        behind(r, c),
        0 <= i < layout(sizes, c).len(),
    ensures
        rect_disjoint(r, (layout(sizes, c)[i].0, layout(sizes, c)[i].1, sizes[i].0, sizes[i].1)),
    decreases sizes.len(),
{
    assert(1 <= sizes[0].0 <= 14 && 1 <= sizes[0].1 <= 12);
    let (pos, c2) = place(c, sizes[0].0, sizes[0].1)->0;
    lemma_place(c, sizes[0].0, sizes[0].1);
    lemma_place_behind(r, c, sizes[0].0, sizes[0].1);
    if i > 0 {
        let rest = sizes.drop_first();
        assert(sizes_ok(rest)) by {
            assert forall|k: int| 0 <= k < rest.len() implies 1 <= (#[trigger] rest[k]).0 <= 14 && 1 <= rest[k].1 <= 12 by {
                assert(rest[k] == sizes[k + 1]);
            }
        }
        lemma_layout_len(rest, c2);
        lemma_layout_behind(rest, c2, r, i - 1);
        assert(layout(sizes, c)[i] == layout(rest, c2)[i - 1]);
        assert(rest[i - 1] == sizes[i]);
    }
}

/// Every room placed from cursor `c` is placed well.
proof fn lemma_layout_well(sizes: Seq<(int, int)>, c: (int, int, int), i: int)
    requires
        sizes_ok(sizes),
        cursor_ok(c),
        0 <= i < layout(sizes, c).len(),
    ensures
        placed_well(layout(sizes, c)[i], sizes[i].0, sizes[i].1),
    decreases sizes.len(),
{
    assert(1 <= sizes[0].0 <= 14 && 1 <= sizes[0].1 <= 12);
    let (pos, c2) = place(c, sizes[0].0, sizes[0].1)->0;
    lemma_place(c, sizes[0].0, sizes[0].1);
    if i > 0 {
        let rest = sizes.drop_first();
        assert(sizes_ok(rest)) by {
            assert forall|k: int| 0 <= k < rest.len() implies 1 <= (#[trigger] rest[k]).0 <= 14 && 1 <= rest[k].1 <= 12 by {
                assert(rest[k] == sizes[k + 1]);
            }
        }
        lemma_layout_len(rest, c2);
        lemma_layout_well(rest, c2, i - 1);
        assert(layout(sizes, c)[i] == layout(rest, c2)[i - 1]);
        assert(rest[i - 1] == sizes[i]);
    }
}

/// Two rooms placed from cursor `c` never overlap.
proof fn lemma_layout_apart(sizes: Seq<(int, int)>, c: (int, int, int), i: int, j: int)
    requires
        sizes_ok(sizes),
        cursor_ok(c),
        0 <= i < j < layout(sizes, c).len(),
    ensures
        rect_disjoint(
            (layout(sizes, c)[i].0, layout(sizes, c)[i].1, sizes[i].0, sizes[i].1),
            (layout(sizes, c)[j].0, layout(sizes, c)[j].1, sizes[j].0, sizes[j].1),
        ),
    decreases sizes.len(),
{
    assert(1 <= sizes[0].0 <= 14 && 1 <= sizes[0].1 <= 12);
    let (pos, c2) = place(c, sizes[0].0, sizes[0].1)->0;
    lemma_place(c, sizes[0].0, sizes[0].1);
    let rest = sizes.drop_first();
    assert(sizes_ok(rest)) by {
        assert forall|k: int| 0 <= k < rest.len() implies 1 <= (#[trigger] rest[k]).0 <= 14 && 1 <= rest[k].1 <= 12 by {
            assert(rest[k] == sizes[k + 1]);
        }
    }
    lemma_layout_len(rest, c2);
    assert(layout(sizes, c)[j] == layout(rest, c2)[j - 1]);
    assert(rest[j - 1] == sizes[j]);
    if i == 0 {
        lemma_layout_behind(rest, c2, (pos.0, pos.1, sizes[0].0, sizes[0].1), j - 1);
    } else {
        lemma_layout_apart(rest, c2, i - 1, j - 1);
        assert(layout(sizes, c)[i] == layout(rest, c2)[i - 1]);
        assert(rest[i - 1] == sizes[i]);
    }
}

/// The layout keeps every room inside the border, two tiles or more away from it, and off
/// the path cross.
pub proof fn lemma_layout_inside(sizes: Seq<(int, int)>, i: int)
    requires
        sizes_ok(sizes),
        0 <= i < layout(sizes, start_cursor()).len(),
    ensures
        placed_well(layout(sizes, start_cursor())[i], sizes[i].0, sizes[i].1),
{
    lemma_layout_well(sizes, start_cursor(), i);
}

/// No two rooms of the layout overlap.
pub proof fn lemma_layout_disjoint(sizes: Seq<(int, int)>, i: int, j: int)
    requires
        sizes_ok(sizes),
        0 <= i < layout(sizes, start_cursor()).len(),
        0 <= j < layout(sizes, start_cursor()).len(),
        i != j,
    ensures
        rect_disjoint(
            (layout(sizes, start_cursor())[i].0, layout(sizes, start_cursor())[i].1, sizes[i].0, sizes[i].1),
            (layout(sizes, start_cursor())[j].0, layout(sizes, start_cursor())[j].1, sizes[j].0, sizes[j].1),
        ),
{
    if i < j {
        lemma_layout_apart(sizes, start_cursor(), i, j);
    } else {
        lemma_layout_apart(sizes, start_cursor(), j, i);
    }
}

/// The layout never holds more rooms than there are sessions.
pub proof fn lemma_layout_len(sizes: Seq<(int, int)>, c: (int, int, int))
    ensures
        layout(sizes, c).len() <= sizes.len(),
    decreases sizes.len(),
{
    if sizes.len() > 0 {
        if let Some((pos, c2)) = place(c, sizes[0].0, sizes[0].1) {
            lemma_layout_len(sizes.drop_first(), c2);
        }
    }
}

/// Every count list gives sizes that `room_size` hands out.
pub proof fn lemma_sizes_ok(counts: Seq<(Seq<char>, nat)>)
    ensures
        sizes_ok(sizes_of(counts)),
{
}

/// One placement step on an exec cursor.
fn place_exec(cx: i32, cy: i32, rm: i32, w: i32, h: i32) -> (r: Option<(i32, i32, i32, i32, i32)>)
    requires
        3 <= cx <= 59,
        3 <= cy <= 47,
        0 <= rm <= 12,
        1 <= w <= 14,
        1 <= h <= 12,
    ensures
        r is Some <==> place((cx as int, cy as int, rm as int), w as int, h as int) is Some,
        r matches Some(t) ==> place((cx as int, cy as int, rm as int), w as int, h as int) == Some(
            ((t.0 as int, t.1 as int), (t.2 as int, t.3 as int, t.4 as int)),
        ),
{
    let mid_x: i32 = 30;
    let mut cursor_x = cx;
    let mut cursor_y = cy;
    let mut row_max = rm;
    // Skip over the vertical path.
    if cursor_x < mid_x + 2 && cursor_x + w > mid_x - 1 {
        cursor_x = mid_x + 3;
    }
    // Wrap to the next row.
    if cursor_x + w > 60 - 3 {
        cursor_x = 3;
        cursor_y = cursor_y + row_max + 3;
        row_max = 0;
    }
    // Skip the horizontal path rows.
    if cursor_y < 22 && cursor_y + h > 19 {
        cursor_y = 23;
        cursor_x = 3;
        row_max = 0;
    }
    if cursor_y + h > 50 - 3 {
        return None;
    }
    // Check the vertical path again after a wrap.
    if cursor_x < mid_x + 2 && cursor_x + w > mid_x - 1 {
        cursor_x = mid_x + 3;
    }
    if cursor_x + w > 60 - 3 {
        cursor_x = 3;
        cursor_y = cursor_y + row_max + 3;
        row_max = 0;
        if cursor_y < 22 && cursor_y + h > 19 {
            cursor_y = 23;
        }
        if cursor_y + h > 50 - 3 {
            return None;
        }
    }
    let new_max = if row_max >= h { row_max } else { h };
    Some((cursor_x, cursor_y, cursor_x + w + 2, cursor_y, new_max))
}

/// Rooms for the counted sessions, in order: each gets the size for its agent count and
/// the next place of the layout; sessions that no longer fit get no room.
pub fn layout_rooms(counts: &Vec<(String, usize)>) -> (rooms: Vec<Room>)
    ensures
        ({
            let sizes = sizes_of(counts_view(counts@));
            let pos = layout(sizes, start_cursor());
            &&& rooms@.len() == pos.len()
            &&& forall|i: int| 0 <= i < rooms@.len() ==> (#[trigger] rooms@[i]).fresh(
                counts@[i].0@,
                pos[i].0 as i32,
                pos[i].1 as i32,
                sizes[i].0 as i32,
                sizes[i].1 as i32,
            )
        }),
{
    let ghost sizes = sizes_of(counts_view(counts@));
    let ghost pos = layout(sizes, start_cursor());
    let mut rooms: Vec<Room> = Vec::new();
    let mut cx: i32 = 3;
    let mut cy: i32 = 3;
    let mut rm: i32 = 0;
    let mut i: usize = 0;
    let n = counts.len();
    proof {
        lemma_sizes_ok(counts_view(counts@));
    }
    let mut done = false;
    proof {
        assert(sizes.skip(0) =~= sizes);
    }
    while i < n && !done
        invariant
            n == counts@.len(),
            sizes == sizes_of(counts_view(counts@)),
            sizes.len() == n,
            pos == layout(sizes, start_cursor()),
            sizes_ok(sizes),
            i <= n,
            i <= pos.len(),
            3 <= cx <= 59,
            3 <= cy <= 47,
            0 <= rm <= 12,
            rooms@.len() == i,
            done ==> pos =~= pos.take(i as int),
            !done ==> pos =~= pos.take(i as int) + layout(sizes.skip(i as int), (cx as int, cy as int, rm as int)),
            forall|k: int| 0 <= k < i ==> (#[trigger] rooms@[k]).fresh(
                counts@[k].0@,
                pos[k].0 as i32,
                pos[k].1 as i32,
                sizes[k].0 as i32,
                sizes[k].1 as i32,
            ),
        decreases n - i + (if done { 0int } else { 1int }),
    {
        let (w, h) = room_size_for_agents(counts[i].1);
        let ghost rest = sizes.skip(i as int);
        proof {
            assert(rest[0] == sizes[i as int]);
            assert(sizes[i as int] == room_size(counts@[i as int].1 as int));
            assert(rest.drop_first() =~= sizes.skip(i + 1));
        }
        match place_exec(cx, cy, rm, w, h) {
            None => {
                proof {
                    assert(layout(rest, (cx as int, cy as int, rm as int)) =~= Seq::<(int, int)>::empty());
                }
                done = true;
            },
            Some((x, y, ncx, ncy, nrm)) => {
                proof {
                    lemma_place((cx as int, cy as int, rm as int), w as int, h as int);
                    assert(layout(rest, (cx as int, cy as int, rm as int)) == seq![(x as int, y as int)]
                        + layout(sizes.skip(i + 1), (ncx as int, ncy as int, nrm as int)));
                    assert(pos[i as int] == (x as int, y as int));
                    assert(pos.take(i + 1) =~= pos.take(i as int).push((x as int, y as int)));
                }
                let room = Room::new(counts[i].0.as_str(), x, y, w, h);
                rooms.push(room);
                cx = ncx;
                cy = ncy;
                rm = nrm;
                i = i + 1;
                proof {
                    assert forall|k: int| 0 <= k < i implies (#[trigger] rooms@[k]).fresh(
                        counts@[k].0@,
                        pos[k].0 as i32,
                        pos[k].1 as i32,
                        sizes[k].0 as i32,
                        sizes[k].1 as i32,
                    ) by {
                        if k == i - 1 {
                            assert(rooms@[k] == room);
                        }
                    }
                }
            },
        }
    }
    proof {
        if !done {
            assert(sizes.skip(n as int) =~= Seq::<(int, int)>::empty());
            assert(layout(sizes.skip(n as int), (cx as int, cy as int, rm as int)) =~= Seq::<(int, int)>::empty());
        }
        assert(pos =~= pos.take(i as int));
    }
    rooms
}

} // verus!
