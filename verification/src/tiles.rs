//! Tile kinds, world dimensions and the atlas indices of the dark tileset theme.
use vstd::prelude::*;

verus! {

/// Edge length of one tile in the source images, in pixels.
pub const TILE_SIZE: i64 = 16;

/// Scale factor applied to every tile when drawn.
pub const TILE_SCALE: i64 = 4;

/// Edge length of one drawn tile, in world pixels (`TILE_SIZE * TILE_SCALE`).
pub const SCALED_TILE: i64 = 64;

/// Width of the office world, in tiles.
pub const WORLD_W: i32 = 60;

/// Height of the office world, in tiles.
pub const WORLD_H: i32 = 50;

/// Number of tiles in the world grid.
pub const WORLD_CELLS: usize = 3000;

/// What occupies one cell of a room or of the world grid.
#[derive(Clone, Copy, PartialEq, Eq, Debug, Structural)]
pub enum TileKind {
    Void,
    Grass,
    Path,
    Floor,
    Wall,
    Door,
    Desk,
    Chair,
    Plant,
    Mountain,
    Water,
}

impl TileKind {
    /// The tiles a character may stand on.
    pub open spec fn walkable(self) -> bool {
        match self {
            TileKind::Grass | TileKind::Path | TileKind::Floor | TileKind::Door | TileKind::Chair => true,
            _ => false,
        }
    }

    pub fn is_walkable(&self) -> (b: bool)
        ensures
            b == self.walkable(),
    {
        match self {
            TileKind::Grass | TileKind::Path | TileKind::Floor | TileKind::Door | TileKind::Chair => true,
            _ => false,
        }
    }
}

/// Columns of the tileset atlas (room3.png is 15 tiles wide).
pub const ATLAS_COLS: usize = 15;

/// First column of the dark theme in the tileset atlas.
pub const DARK_COL: usize = 5;

/// Atlas index of the dark-theme tile at `row`, `col`.
pub open spec fn dark_index(row: int, col: int) -> int {
    row * 15 + 5 + col
}

/// Atlas index of the dark-theme tile at `row`, `col` of the theme.
pub fn dark(row: usize, col: usize) -> (r: usize)
    requires
        row * 15 + 5 + col <= usize::MAX,
    ensures
        r == dark_index(row as int, col as int),
{
    row * ATLAS_COLS + DARK_COL + col
}

pub const WALL_TOP_LEFT: usize = 5;
pub const WALL_TOP: usize = 6;
pub const WALL_TOP_RIGHT: usize = 7;
pub const WALL_LEFT: usize = 20;
pub const WALL_RIGHT: usize = 22;
pub const WALL_BOTTOM_LEFT: usize = 35;
pub const WALL_BOTTOM: usize = 36;
pub const WALL_BOTTOM_RIGHT: usize = 37;
pub const FLOOR: usize = 51;
pub const FLOOR_ALT: usize = 52;
pub const DESK: usize = 53;
pub const CHAIR: usize = 50;

/// Every named atlas index is the dark-theme tile at its row and column:
/// walls in rows 0 to 2, furniture and floors in row 3.
pub proof fn lemma_atlas_indices()
    ensures
        WALL_TOP_LEFT == dark_index(0, 0),
        WALL_TOP == dark_index(0, 1),
        WALL_TOP_RIGHT == dark_index(0, 2),
        WALL_LEFT == dark_index(1, 0),
        WALL_RIGHT == dark_index(1, 2),
        WALL_BOTTOM_LEFT == dark_index(2, 0),
        WALL_BOTTOM == dark_index(2, 1),
        WALL_BOTTOM_RIGHT == dark_index(2, 2),
        FLOOR == dark_index(3, 1),
        FLOOR_ALT == dark_index(3, 2),
        DESK == dark_index(3, 3),
        CHAIR == dark_index(3, 0),
{
}

/// Where a wall tile sits on the outline of a rectangular room.
#[derive(Clone, Copy, PartialEq, Eq, Debug, Structural)]
pub enum WallPos {
    TopLeft,
    Top,
    TopRight,
    Left,
    Right,
    BottomLeft,
    Bottom,
    BottomRight,
}

/// The outline position of the cell at offset `lx`, `ly` in a room of `width` by `height`:
/// the top and bottom edges win over the sides, corners are named as such, and a cell
/// that lies on no edge counts as `Top`.
pub open spec fn wall_pos_spec(lx: int, ly: int, width: int, height: int) -> WallPos {
    let top = ly == 0;
    let bottom = ly == height - 1;
    let left = lx == 0;
    let right = lx == width - 1;
    if top && left {
        WallPos::TopLeft
    } else if top && right {
        WallPos::TopRight
    } else if top {
        WallPos::Top
    } else if bottom && left {
        WallPos::BottomLeft
    } else if bottom && right {
        WallPos::BottomRight
    } else if bottom {
        WallPos::Bottom
    } else if left {
        WallPos::Left
    } else if right {
        WallPos::Right
    } else {
        WallPos::Top
    }
}

/// Classifies the wall cell at local offset `lx`, `ly` of a `width` by `height` room.
pub fn wall_pos(lx: i32, ly: i32, width: i32, height: i32) -> (p: WallPos)
    requires
        width > i32::MIN,
        height > i32::MIN,
    ensures
        p == wall_pos_spec(lx as int, ly as int, width as int, height as int),
{
    let top = ly == 0;
    let bottom = ly == height - 1;
    let left = lx == 0;
    let right = lx == width - 1;
    if top && left {
        WallPos::TopLeft
    } else if top && right {
        WallPos::TopRight
    } else if top {
        WallPos::Top
    } else if bottom && left {
        WallPos::BottomLeft
    } else if bottom && right {
        WallPos::BottomRight
    } else if bottom {
        WallPos::Bottom
    } else if left {
        WallPos::Left
    } else if right {
        WallPos::Right
    } else {
        WallPos::Top
    }
}

/// The atlas index drawn for a wall at the given outline position.
pub open spec fn wall_atlas_spec(p: WallPos) -> usize {
    match p {
        WallPos::TopLeft => WALL_TOP_LEFT,
        WallPos::Top => WALL_TOP,
        WallPos::TopRight => WALL_TOP_RIGHT,
        WallPos::Left => WALL_LEFT,
        WallPos::Right => WALL_RIGHT,
        WallPos::BottomLeft => WALL_BOTTOM_LEFT,
        WallPos::Bottom => WALL_BOTTOM,
        WallPos::BottomRight => WALL_BOTTOM_RIGHT,
    }
}

pub fn wall_atlas_index(p: WallPos) -> (r: usize)
    ensures
        r == wall_atlas_spec(p),
{
    match p {
        WallPos::TopLeft => WALL_TOP_LEFT,
        WallPos::Top => WALL_TOP,
        WallPos::TopRight => WALL_TOP_RIGHT,
        WallPos::Left => WALL_LEFT,
        WallPos::Right => WALL_RIGHT,
        WallPos::BottomLeft => WALL_BOTTOM_LEFT,
        WallPos::Bottom => WALL_BOTTOM,
        WallPos::BottomRight => WALL_BOTTOM_RIGHT,
    }
}

/// Atlas index of a floor-like tile at world cell `wx`, `wy`: desks and chairs have their
/// own tile, and plain floor alternates with its variant on every third diagonal.
pub open spec fn floor_atlas_spec(tile: TileKind, wx: int, wy: int) -> usize {
    match tile {
        TileKind::Desk => DESK,
        TileKind::Chair => CHAIR,
        _ => if (wx + wy) % 3 == 0 { FLOOR_ALT } else { FLOOR },
    }
}

pub fn floor_atlas_index(tile: TileKind, wx: usize, wy: usize) -> (r: usize)
    requires
        wx + wy <= usize::MAX,
    ensures
        r == floor_atlas_spec(tile, wx as int, wy as int),
{
    match tile {
        TileKind::Desk => DESK,
        TileKind::Chair => CHAIR,
        _ => if (wx + wy) % 3 == 0 { FLOOR_ALT } else { FLOOR },
    }
}

} // verus!
