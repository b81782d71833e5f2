//! The office world: a grid of `WORLD_W` by `WORLD_H` tiles and the rooms placed on it.
use vstd::prelude::*;
use crate::tiles::{TileKind, WORLD_W, WORLD_H};
use crate::room::Room;

verus! {

/// The world map shared by all game modes.
pub struct OfficeMap {
    pub rooms: Vec<Room>,
    /// Whether the terrain has been drawn.
    pub spawned: bool,
    /// `world[row][col]`, `WORLD_H` rows of `WORLD_W` tiles.
    pub world: Vec<Vec<TileKind>>,
}

/// Whether `p` = `(col, row)` lies on the world grid.
pub open spec fn in_world(p: (i32, i32)) -> bool {
    0 <= p.0 < WORLD_W && 0 <= p.1 < WORLD_H
}

/// Whether the world `w` has `WORLD_H` rows of `WORLD_W` tiles.
pub open spec fn grid_wf(w: Seq<Vec<TileKind>>) -> bool {
    &&& w.len() == WORLD_H
    &&& forall|r: int| 0 <= r < WORLD_H ==> (#[trigger] w[r])@.len() == WORLD_W
}

/// The tile at `p` = `(col, row)` of the world `w`.
pub open spec fn grid_tile(w: Seq<Vec<TileKind>>, p: (i32, i32)) -> TileKind {
    w[p.1 as int]@[p.0 as int]
}

/// Whether a character can stand at `p`: on the grid and on a walkable tile.
pub open spec fn open_tile(w: Seq<Vec<TileKind>>, p: (i32, i32)) -> bool {
    in_world(p) && grid_tile(w, p).walkable()
}

/// The outdoor terrain the world starts with: a two-tile mountain border, a pond in the
/// lower right, and a path cross (columns 30 and 31, rows 20 and 21) inside the border.
pub open spec fn default_world_tile(row: int, col: int) -> TileKind {
    if (row == 20 || row == 21) && 3 <= col < 57 {
        TileKind::Path
    } else if (col == 30 || col == 31) && 3 <= row < 47 {
        TileKind::Path
    } else if 38 <= row < 44 && 46 <= col < 54 {
        TileKind::Water
    } else if row < 2 || row >= 48 || col < 2 || col >= 58 {
        TileKind::Mountain
    } else {
        TileKind::Grass
    }
}

impl OfficeMap {
    pub open spec fn wf(self) -> bool {
        grid_wf(self.world@)
    }

    /// The tile at `p` = `(col, row)`.
    pub open spec fn tile(self, p: (i32, i32)) -> TileKind {
        grid_tile(self.world@, p)
    }

    /// Whether a character may stand on world tile `tx`, `ty`: it lies on the grid and its
    /// tile is walkable.
    pub fn is_walkable_tile(&self, tx: i32, ty: i32) -> (b: bool)
        requires
            self.wf(),
        ensures
            b == open_tile(self.world@, (tx, ty)),
    {
        if tx < 0 || ty < 0 || tx >= WORLD_W || ty >= WORLD_H {
            return false;
        }
        self.world[ty as usize][tx as usize].is_walkable()
    }

    fn default_row(r: usize) -> (row: Vec<TileKind>)
        requires
            r < 50,
        ensures
            row@.len() == WORLD_W,
            forall|c: int| 0 <= c < WORLD_W ==> row@[c] == default_world_tile(r as int, c),
    {
        let mut row: Vec<TileKind> = Vec::new();
        let mut c: usize = 0;
        while c < 60
            invariant
                c <= 60,
                r < 50,
                row@.len() == c,
                forall|j: int| 0 <= j < c ==> row@[j] == default_world_tile(r as int, j),
            decreases 60 - c,
        {
            let t = if (r == 20 || r == 21) && 3 <= c && c < 57 {
                TileKind::Path
            } else if (c == 30 || c == 31) && 3 <= r && r < 47 {
                TileKind::Path
            } else if 38 <= r && r < 44 && 46 <= c && c < 54 {
                TileKind::Water
            } else if r < 2 || r >= 48 || c < 2 || c >= 58 {
                TileKind::Mountain
            } else {
                TileKind::Grass
            };
            row.push(t);
            c = c + 1;
        }
        row
    }

    /// Claims the drawing of the outdoor terrain: it is drawn once, when the tile images
    /// are loaded (`assets_ready`) and nothing has been drawn yet. Returns whether to draw
    /// it now; the map then counts as drawn.
    pub fn begin_outdoor(&mut self, assets_ready: bool) -> (draw: bool)
        ensures
            draw == (!old(self).spawned && assets_ready),
            final(self).spawned == (old(self).spawned || draw),
            final(self).rooms@ == old(self).rooms@,
            final(self).world@ == old(self).world@,
    {
        if self.spawned || !assets_ready {
            return false;
        }
        self.spawned = true;
        true
    }

    /// Trees scattered on the outdoor terrain: each listed spot, `(col, row)`, on the grid
    /// whose tile is grass, in list order.
    pub fn tree_spots(&self) -> (spots: Vec<(usize, usize)>)
        requires
            self.wf(),
        ensures
            spots@ == tree_candidates().filter(|p: (usize, usize)| tree_fits(self.world@, p)),
    {
        let cands: [(usize, usize); 18] = [
            (5, 15), (15, 17), (25, 16), (40, 15), (50, 17),
            (5, 36), (12, 38), (20, 37), (35, 38), (45, 36), (52, 38),
            (8, 43), (18, 45), (38, 44), (50, 43),
            (3, 25), (56, 30), (3, 42),
        ];
        assert(cands@ == tree_candidates());
        let mut spots: Vec<(usize, usize)> = Vec::new();
        let mut i: usize = 0;
        while i < 18
            invariant
                i <= 18,
                self.wf(),
                cands@ == tree_candidates(),
                spots@ == tree_candidates().take(i as int).filter(
                    |p: (usize, usize)| tree_fits(self.world@, p),
                ),
            decreases 18 - i,
        {
            let (tx, ty) = cands[i];
            proof {
                reveal_with_fuel(Seq::filter, 1);
                assert(tree_candidates().take(i + 1).drop_last() =~= tree_candidates().take(
                    i as int,
                ));
            }
            if tx < 60 && ty < 50 {
                if self.world[ty][tx] == TileKind::Grass {
                    spots.push((tx, ty));
                }
            }
            i = i + 1;
        }
        assert(tree_candidates().take(18) =~= tree_candidates());
        spots
    }
}

/// The spots where trees may stand, `(col, row)`.
pub open spec fn tree_candidates() -> Seq<(usize, usize)> {
    seq![
        (5usize, 15usize), (15, 17), (25, 16), (40, 15), (50, 17),
        (5, 36), (12, 38), (20, 37), (35, 38), (45, 36), (52, 38),
        (8, 43), (18, 45), (38, 44), (50, 43),
        (3, 25), (56, 30), (3, 42),
    ]
}

/// A tree stands at `p` when `p` is on the grid and its tile is grass.
pub open spec fn tree_fits(w: Seq<Vec<TileKind>>, p: (usize, usize)) -> bool {
    p.0 < WORLD_W && p.1 < WORLD_H && w[p.1 as int]@[p.0 as int] == TileKind::Grass
}

impl Default for OfficeMap {
    /// An office with no rooms yet, not drawn, over the default outdoor terrain.
    fn default() -> (m: Self)
        ensures
            m.rooms@.len() == 0,
            !m.spawned,
            m.wf(),
            forall|r: int, c: int|
                0 <= r < WORLD_H && 0 <= c < WORLD_W ==> #[trigger] m.world@[r]@[c]
                    == default_world_tile(r, c),
    {
        let mut world: Vec<Vec<TileKind>> = Vec::new();
        let mut r: usize = 0;
        while r < 50
            invariant
                r <= 50,
                world@.len() == r,
                forall|i: int| 0 <= i < r ==> (#[trigger] world@[i])@.len() == WORLD_W,
                forall|i: int, c: int|
                    0 <= i < r && 0 <= c < WORLD_W ==> #[trigger] world@[i]@[c] == default_world_tile(
                        i,
                        c,
                    ),
            decreases 50 - r,
        {
            let row = Self::default_row(r);
            world.push(row);
            r = r + 1;
        }
        OfficeMap { rooms: Vec::new(), spawned: false, world }
    }
}

} // verus!
