//! A rectangular room: walls on its outline, a door in the bottom wall, rows of desks with
//! a chair to their right, and two plants in the top corners.
use vstd::prelude::*;
use crate::tiles::{TileKind, WallPos, SCALED_TILE, wall_pos, wall_pos_spec};

verus! {

/// A room of the office, placed at tile `x`, `y` of the world.
#[derive(Debug)]
pub struct Room {
    pub name: String,
    pub x: i32,
    pub y: i32,
    pub width: i32,
    pub height: i32,
    /// `tiles[row][col]`, `height` rows of `width` tiles.
    pub tiles: Vec<Vec<TileKind>>,
    /// Local `(col, row)` of each desk, in the order the desks were laid out.
    pub desks: Vec<(i32, i32)>,
    /// Local `(col, row)` of the door.
    pub door: (i32, i32),
}

/// Whether `col` is one of the desk columns of a room `w` tiles wide: column 2, the middle
/// column when the room is wider than 6, and the fourth from the right when it is wider
/// than 8, each only where it lies strictly inside the side walls.
pub open spec fn is_desk_col(col: int, w: int) -> bool {
    &&& 1 <= col < w - 1
    &&& (col == 2 || (w > 6 && col == w / 2) || (w > 8 && col == w - 3))
}

/// Whether `row` is a desk row of a room `h` tiles high: every other row from row 2,
/// above the bottom wall.
pub open spec fn is_desk_row(row: int, h: int) -> bool {
    2 <= row < h - 1 && row % 2 == 0
}

/// The tile at `row`, `col` of a freshly built room of `w` by `h` tiles.
pub open spec fn room_tile(w: int, h: int, row: int, col: int) -> TileKind {
    if row == 1 && w > 4 && h > 4 && (col == 1 || col == w - 2) {
        TileKind::Plant
    } else if row == h - 1 && col == w / 2 {
        TileKind::Door
    } else if row == 0 || row == h - 1 || col == 0 || col == w - 1 {
        TileKind::Wall
    } else if is_desk_row(row, h) && is_desk_col(col, w) {
        TileKind::Desk
    } else if is_desk_row(row, h) && is_desk_col(col - 1, w) {
        TileKind::Chair
    } else {
        TileKind::Floor
    }
}

/// Number of desk rows in a room `h` tiles high.
pub open spec fn desk_row_count(h: int) -> int {
    if h >= 3 { (h - 2) / 2 } else { 0 }
}

/// The desks of one desk column, top to bottom.
pub open spec fn column_desks(col: int, h: int) -> Seq<(i32, i32)> {
    if desk_row_count(h) > 0 {
        Seq::new(desk_row_count(h) as nat, |i: int| (col as i32, (2 + 2 * i) as i32))
    } else {
        Seq::empty()
    }
}

/// The desks of column `col` if it is a desk column of a room `w` wide, else none.
pub open spec fn desks_if(col: int, w: int, h: int) -> Seq<(i32, i32)> {
    if is_desk_col(col, w) { column_desks(col, h) } else { Seq::empty() }
}

/// All desks of a freshly built room, column by column from the left.
pub open spec fn room_desks(w: int, h: int) -> Seq<(i32, i32)> {
    desks_if(2, w, h) + (if w > 6 { desks_if(w / 2, w, h) } else { Seq::empty() }) + (if w > 8 {
        desks_if(w - 3, w, h)
    } else {
        Seq::empty()
    })
}

impl Clone for Room {
    fn clone(&self) -> (r: Self)
        ensures
            r.name@ == self.name@,
            r.x == self.x,
            r.y == self.y,
            r.width == self.width,
            r.height == self.height,
            r.tiles@.len() == self.tiles@.len(),
            forall|i: int| 0 <= i < self.tiles@.len() ==> (#[trigger] r.tiles@[i])@ == self.tiles@[i]@,
            r.desks@ == self.desks@,
            r.door == self.door,
    {
        let mut desks: Vec<(i32, i32)> = Vec::new();
        let mut k: usize = 0;
        while k < self.desks.len()
            invariant
                k <= self.desks@.len(),
                desks@ == self.desks@.take(k as int),
            decreases self.desks@.len() - k,
        {
            desks.push(self.desks[k]);
            proof {
                assert(self.desks@.take(k + 1) =~= self.desks@.take(k as int).push(self.desks@[k as int]));
            }
            k = k + 1;
        }
        proof {
            assert(self.desks@.take(self.desks@.len() as int) =~= self.desks@);
        }
        let mut tiles: Vec<Vec<TileKind>> = Vec::new();
        let mut i: usize = 0;
        while i < self.tiles.len()
            invariant
                i <= self.tiles@.len(),
                tiles@.len() == i,
                forall|j: int| 0 <= j < i ==> (#[trigger] tiles@[j])@ == self.tiles@[j]@,
            decreases self.tiles@.len() - i,
        {
            let src = &self.tiles[i];
            let mut row: Vec<TileKind> = Vec::new();
            let mut c: usize = 0;
            while c < src.len()
                invariant
                    c <= src@.len(),
                    row@ == src@.take(c as int),
                decreases src@.len() - c,
            {
                row.push(src[c]);
                proof {
                    assert(src@.take(c + 1) =~= src@.take(c as int).push(src@[c as int]));
                }
                c = c + 1;
            }
            proof {
                assert(src@.take(src@.len() as int) =~= src@);
            }
            tiles.push(row);
            i = i + 1;
        }
        Room {
            name: self.name.clone(),
            x: self.x,
            y: self.y,
            width: self.width,
            height: self.height,
            tiles,
            desks,
            door: self.door,
        }
    }
}

impl Room {
    /// `self` is a room just built by `Room::new(name, x, y, w, h)`.
    pub open spec fn fresh(self, name: Seq<char>, x: i32, y: i32, w: i32, h: i32) -> bool {
        &&& self.name@ == name
        &&& self.x == x
        &&& self.y == y
        &&& self.width == w
        &&& self.height == h
        &&& self.tiles_wf()
        &&& forall|r: int, c: int|
            0 <= r < h && 0 <= c < w ==> #[trigger] self.tile(r, c) == room_tile(w as int, h as int, r, c)
        &&& self.desks@ == room_desks(w as int, h as int)
        &&& self.door.0 == w / 2
        &&& self.door.1 == h - 1
    }

    /// The grid has `height` rows of `width` tiles.
    pub open spec fn tiles_wf(self) -> bool {
        &&& self.height >= 1
        &&& self.width >= 1
        &&& self.tiles@.len() == self.height
        &&& forall|r: int| 0 <= r < self.height ==> (#[trigger] self.tiles@[r])@.len() == self.width
    }

    /// The tile at local `row`, `col`.
    pub open spec fn tile(self, row: int, col: int) -> TileKind {
        self.tiles@[row]@[col]
    }

    /// Builds a room of `width` by `height` tiles at world tile `x`, `y`.
    pub fn new(name: &str, x: i32, y: i32, width: i32, height: i32) -> (room: Room)
        requires
            width >= 1,
            height >= 1,
        ensures
            room.fresh(name@, x, y, width, height),
    {
        let mut tiles: Vec<Vec<TileKind>> = Vec::new();
        let mut r: i32 = 0;
        while r < height
            invariant
                0 <= r <= height,
                width >= 1,
                tiles@.len() == r,
                forall|i: int| 0 <= i < r ==> (#[trigger] tiles@[i])@.len() == width,
                forall|i: int, c: int|
                    0 <= i < r && 0 <= c < width ==> #[trigger] tiles@[i]@[c] == room_tile(
                        width as int,
                        height as int,
                        i,
                        c,
                    ),
            decreases height - r,
        {
            let row = Self::build_row(width, height, r);
            tiles.push(row);
            r = r + 1;
        }
        let desks = Self::build_desks(width, height);
        Room {
            name: name.to_owned(),
            x,
            y,
            width,
            height,
            tiles,
            desks,
            door: (width / 2, height - 1),
        }
    }

    /// One row of a freshly built room.
    fn build_row(width: i32, height: i32, r: i32) -> (row: Vec<TileKind>)
        requires
            width >= 1,
            height >= 1,
            0 <= r < height,
        ensures
            row@.len() == width,
            forall|c: int| 0 <= c < width ==> row@[c] == room_tile(width as int, height as int, r as int, c),
    {
        let mut row: Vec<TileKind> = Vec::new();
        let mut c: i32 = 0;
        while c < width
            invariant
                0 <= c <= width,
                width >= 1,
                height >= 1,
                0 <= r < height,
                row@.len() == c,
                forall|j: int| 0 <= j < c ==> row@[j] == room_tile(width as int, height as int, r as int, j),
            decreases width - c,
        {
            let t = Self::tile_at(width, height, r, c);
            row.push(t);
            c = c + 1;
        }
        row
    }

    fn is_desk_col_exec(col: i32, w: i32) -> (b: bool)
        requires
            w >= 1,
        ensures
            b == is_desk_col(col as int, w as int),
    {
        1 <= col && col < w - 1 && (col == 2 || (w > 6 && col == w / 2) || (w > 8 && col == w - 3))
    }

    fn tile_at(w: i32, h: i32, row: i32, col: i32) -> (t: TileKind)
        requires
            w >= 1,
            h >= 1,
            0 <= col < w,
        ensures
            t == room_tile(w as int, h as int, row as int, col as int),
    {
        let desk_row = 2 <= row && row < h - 1 && row % 2 == 0;
        if row == 1 && w > 4 && h > 4 && (col == 1 || col == w - 2) {
            TileKind::Plant
        } else if row == h - 1 && col == w / 2 {
            TileKind::Door
        } else if row == 0 || row == h - 1 || col == 0 || col == w - 1 {
            TileKind::Wall
        } else if desk_row && Self::is_desk_col_exec(col, w) {
            TileKind::Desk
        } else if desk_row && Self::is_desk_col_exec(col - 1, w) {
            TileKind::Chair
        } else {
            TileKind::Floor
        }
    }

    /// Appends the desks of column `col` to `desks` if it is a desk column.
    fn push_column_desks(desks: &mut Vec<(i32, i32)>, col: i32, w: i32, h: i32)
        requires
            w >= 1,
            h >= 1,
        ensures
            final(desks)@ == old(desks)@ + desks_if(col as int, w as int, h as int),
    {
        if !Self::is_desk_col_exec(col, w) {
            assert(old(desks)@ + desks_if(col as int, w as int, h as int) =~= old(desks)@);
            return ;
        }
        let ghost start = desks@;
        let mut row: i32 = 2;
        let mut k: i32 = 0;
        while row < h - 1
            invariant
                row == 2 + 2 * k,
                k >= 0,
                h >= 1,
                row <= h + 1,
                is_desk_col(col as int, w as int),
                k <= desk_row_count(h as int),
                desks@ =~= start + column_desks(col as int, h as int).take(k as int),
            decreases h - row,
        {
            desks.push((col, row));
            proof {
                assert(column_desks(col as int, h as int).take(k + 1) =~= column_desks(
                    col as int,
                    h as int,
                ).take(k as int).push((col, row)));
            }
            row = row + 2;
            k = k + 1;
        }
        assert(k == desk_row_count(h as int));
        assert(column_desks(col as int, h as int).take(k as int) =~= column_desks(col as int, h as int));
    }

    fn build_desks(w: i32, h: i32) -> (desks: Vec<(i32, i32)>)
        requires
            w >= 1,
            h >= 1,
        ensures
            desks@ == room_desks(w as int, h as int),
    {
        let mut desks: Vec<(i32, i32)> = Vec::new();
        Self::push_column_desks(&mut desks, 2, w, h);
        if w > 6 {
            Self::push_column_desks(&mut desks, w / 2, w, h);
        }
        if w > 8 {
            Self::push_column_desks(&mut desks, w - 3, w, h);
        }
        assert(desks@ =~= room_desks(w as int, h as int));
        desks
    }

    /// World pixel position of the room's local tile `local_x`, `local_y`: x grows to the
    /// right, y grows upwards, so rows further down get more negative y.
    pub fn world_pos(&self, local_x: i32, local_y: i32) -> (p: (i64, i64))
        ensures
            p.0 == (self.x + local_x) * SCALED_TILE,
            p.1 == -(self.y + local_y) * SCALED_TILE,
    {
        let wx = self.x as i64 + local_x as i64;
        let wy = self.y as i64 + local_y as i64;
        (wx * SCALED_TILE, -wy * SCALED_TILE)
    }

    /// Outline position of the wall at world cell `col`, `row` of this room.
    pub fn classify_wall(&self, col: i32, row: i32) -> (p: WallPos)
        requires
            i32::MIN <= col - self.x <= i32::MAX,
            i32::MIN <= row - self.y <= i32::MAX,
            self.width > i32::MIN,
            self.height > i32::MIN,
        ensures
            p == wall_pos_spec(
                col - self.x,
                row - self.y,
                self.width as int,
                self.height as int,
            ),
    {
        wall_pos(col - self.x, row - self.y, self.width, self.height)
    }
}

/// Every desk of a freshly built room stands on a desk tile inside the room.
pub proof fn lemma_desks_on_desk_tiles(w: int, h: int, k: int)
    requires
        1 <= w <= i32::MAX,
        1 <= h <= i32::MAX,
        0 <= k < room_desks(w, h).len(),
    ensures
        ({
            let d = room_desks(w, h)[k];
            &&& 0 <= d.0 < w
            &&& 0 <= d.1 < h
            &&& room_tile(w, h, d.1 as int, d.0 as int) == TileKind::Desk
        }),
{
    assert forall|col: int, i: int| is_desk_col(col, w) && 0 <= i < desks_if(col, w, h).len() implies {
        let d = #[trigger] desks_if(col, w, h)[i];
        &&& d.0 == col
        &&& d.1 == 2 + 2 * i
        &&& is_desk_row(2 + 2 * i, h)
    } by {
        assert(desk_row_count(h) > 0);
    }
    let a = desks_if(2, w, h);
    let b = if w > 6 { desks_if(w / 2, w, h) } else { Seq::empty() };
    let c = if w > 8 { desks_if(w - 3, w, h) } else { Seq::empty() };
    assert(room_desks(w, h) == a + b + c);
    if k < a.len() {
        assert(room_desks(w, h)[k] == a[k]);
    } else if k < a.len() + b.len() {
        assert(room_desks(w, h)[k] == b[k - a.len()]);
    } else {
        assert(room_desks(w, h)[k] == c[k - a.len() - b.len()]);
    }
}

/// The door of a freshly built room is a door tile in the middle of its bottom wall.
pub proof fn lemma_door_tile(w: int, h: int)
    requires
        w >= 1,
        h >= 1,
    ensures
        room_tile(w, h, h - 1, w / 2) == TileKind::Door,
        0 <= w / 2 < w,
{
}

/// The first desk row of a freshly built room at least 4 high: column 2 always holds a
/// desk, the middle column does too once the room is wider than 6, and the fourth column
/// from the right once it is wider than 8; each of these desks is in the desk list.
pub proof fn lemma_desk_columns(r: Room, name: Seq<char>, x: i32, y: i32, w: i32, h: i32)
    requires
        r.fresh(name, x, y, w, h),
        w >= 4,
        h >= 4,
    ensures
        r.tile(2, 2) == TileKind::Desk,
        r.desks@.contains((2i32, 2i32)),
        w > 6 ==> r.tile(2, w / 2) == TileKind::Desk && r.desks@.contains(((w / 2) as i32, 2i32)),
        w > 8 ==> r.tile(2, w - 3) == TileKind::Desk && r.desks@.contains(((w - 3) as i32, 2i32)),
{
    let wi = w as int;
    let hi = h as int;
    let a = desks_if(2, wi, hi);
    let b = if wi > 6 { desks_if(wi / 2, wi, hi) } else { Seq::empty() };
    let c = if wi > 8 { desks_if(wi - 3, wi, hi) } else { Seq::empty() };
    assert(r.desks@ == a + b + c);
    assert(desk_row_count(hi) >= 1);
    assert(r.tile(2, 2) == room_tile(wi, hi, 2, 2));
    assert(a.len() >= 1 && a[0] == (2i32, 2i32));
    assert((a + b + c)[0] == a[0]);
    if wi > 6 {
        assert(r.tile(2, wi / 2) == room_tile(wi, hi, 2, wi / 2));
        assert(b.len() >= 1 && b[0] == ((w / 2) as i32, 2i32));
        assert((a + b + c)[a.len() as int] == b[0]);
    }
    if wi > 8 {
        assert(r.tile(2, wi - 3) == room_tile(wi, hi, 2, wi - 3));
        assert(c.len() >= 1 && c[0] == ((w - 3) as i32, 2i32));
        assert((a + b + c)[(a.len() + b.len()) as int] == c[0]);
    }
}

/// A freshly built room at least 4 wide has one column of desks at column 2, one more
/// once wider than 6 and a third once wider than 8, each with a desk on every desk row:
/// its desk count is the number of desk rows, `(h - 2) / 2`, once per desk column.
pub proof fn lemma_desk_count(r: Room, name: Seq<char>, x: i32, y: i32, w: i32, h: i32)
    requires
        r.fresh(name, x, y, w, h),
        w >= 4,
        h >= 3,
    ensures
        ({
            let per_column = (h - 2) / 2;
            r.desks@.len() == per_column + (if w > 6 { per_column } else { 0 }) + (if w > 8 { per_column } else { 0 })
        }),
{
    let wi = w as int;
    let hi = h as int;
    let k = (hi - 2) / 2;
    let a = desks_if(2, wi, hi);
    let b = if wi > 6 { desks_if(wi / 2, wi, hi) } else { Seq::empty() };
    let c = if wi > 8 { desks_if(wi - 3, wi, hi) } else { Seq::empty() };
    assert(r.desks@ == a + b + c);
    assert(desk_row_count(hi) == k);
    assert(a.len() == k);
    assert(b.len() == (if wi > 6 { k } else { 0 }));
    assert(c.len() == (if wi > 8 { k } else { 0 }));
}

} // verus!
