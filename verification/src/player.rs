//! The player character: where it appears, which way it faces, how its walking animation
//! steps, and what a blocked step does.
use vstd::prelude::*;
use crate::tiles::{WORLD_W, WORLD_H, SCALED_TILE};
use crate::office::{OfficeMap, open_tile};

verus! {

/// The direction the player faces.
#[derive(Clone, Copy, PartialEq, Eq, Debug, Structural)]
pub enum Facing {
    Down,
    Up,
    Right,
    Left,
}

/// World pixel position of the centre of tile `tx`, `ty` (y grows upwards).
pub fn tile_to_world(tx: i32, ty: i32) -> (p: (i64, i64))
    ensures
        p.0 == tx * SCALED_TILE,
        p.1 == -(ty * SCALED_TILE),
{
    (tx as i64 * SCALED_TILE, -(ty as i64 * SCALED_TILE))
}

/// The spawn search visits rings around the world's centre, radius 0 to 19, each row by
/// row from the top and each row left to right: `(r, dy, dx)` is a valid step of it.
pub open spec fn spawn_step(r: int, dy: int, dx: int) -> bool {
    0 <= r < 20 && -r <= dy <= r && -r <= dx <= r
}

/// `a` comes before `b` in the spawn search.
pub open spec fn spawn_before(a: (int, int, int), b: (int, int, int)) -> bool {
    a.0 < b.0 || (a.0 == b.0 && (a.1 < b.1 || (a.1 == b.1 && a.2 < b.2)))
}

/// The tile the spawn search looks at in step `(r, dy, dx)` can be stood on.
pub open spec fn spawn_hit(w: Seq<Vec<crate::tiles::TileKind>>, s: (int, int, int)) -> bool {
    spawn_step(s.0, s.1, s.2) && open_tile(w, ((30 + s.2) as i32, (25 + s.1) as i32))
}

/// `t` is where the player appears on the world `w`: the first tile of the search around
/// the world's centre that can be stood on, or the centre itself when none can.
pub open spec fn spawn_tile(w: Seq<Vec<crate::tiles::TileKind>>, t: (i32, i32)) -> bool {
    (exists|s: (int, int, int)| {
        &&& #[trigger] spawn_hit(w, s)
        &&& t == ((30 + s.2) as i32, (25 + s.1) as i32)
        &&& forall|e: (int, int, int)| spawn_before(e, s) ==> !#[trigger] spawn_hit(w, e)
    }) || ((forall|e: (int, int, int)| !#[trigger] spawn_hit(w, e)) && t == (30i32, 25i32))
}

/// Where the player appears: the first tile of the search around the world's centre that
/// can be stood on, or the centre itself when none can.
pub fn find_spawn_tile(office: &OfficeMap) -> (t: (i32, i32))
    requires
        office.wf(),
    ensures
        spawn_tile(office.world@, t),
{
    let cx = WORLD_W / 2;
    let cy = WORLD_H / 2;
    let mut radius: i32 = 0;
    while radius < 20
        invariant
            0 <= radius <= 20,
            cx == 30,
            cy == 25,
            office.wf(),
            forall|e: (int, int, int)| e.0 < radius ==> !#[trigger] spawn_hit(office.world@, e),
        decreases 20 - radius,
    {
        let mut dy: i32 = -radius;
        while dy <= radius
            invariant
                0 <= radius < 20,
                -radius <= dy <= radius + 1,
                cx == 30,
                cy == 25,
                office.wf(),
                forall|e: (int, int, int)| spawn_before(e, (radius as int, dy as int, -radius as int)) ==> !#[trigger] spawn_hit(office.world@, e),
            decreases radius + 1 - dy,
        {
            let mut dx: i32 = -radius;
            while dx <= radius
                invariant
                    0 <= radius < 20,
                    -radius <= dy <= radius,
                    -radius <= dx <= radius + 1,
                    cx == 30,
                    cy == 25,
                    office.wf(),
                    forall|e: (int, int, int)| spawn_before(e, (radius as int, dy as int, dx as int)) ==> !#[trigger] spawn_hit(office.world@, e),
                decreases radius + 1 - dx,
            {
                let tx = cx + dx;
                let ty = cy + dy;
                if office.is_walkable_tile(tx, ty) {
                    proof {
                        let s = (radius as int, dy as int, dx as int);
                        assert(spawn_hit(office.world@, s));
                    }
                    return (tx, ty);
                }
                proof {
                    assert forall|e: (int, int, int)| spawn_before(e, (radius as int, dy as int, dx + 1)) implies !#[trigger] spawn_hit(office.world@, e) by {
                        if e != (radius as int, dy as int, dx as int) {
                            assert(spawn_before(e, (radius as int, dy as int, dx as int)));
                        }
                    }
                }
                dx = dx + 1;
            }
            proof {
                assert(dx == radius + 1);
                assert forall|e: (int, int, int)| spawn_before(e, (radius as int, dy + 1, -radius as int)) implies !#[trigger] spawn_hit(office.world@, e) by {
                    if spawn_hit(office.world@, e) {
                        assert(spawn_before(e, (radius as int, dy as int, dx as int)));
                    }
                }
            }
            dy = dy + 1;
        }
        proof {
            assert forall|e: (int, int, int)| e.0 < radius + 1 implies !#[trigger] spawn_hit(office.world@, e) by {
                if spawn_hit(office.world@, e) {
                    assert(spawn_before(e, (radius as int, dy as int, -radius as int)));
                }
            }
        }
        radius = radius + 1;
    }
    proof {
        assert forall|e: (int, int, int)| !#[trigger] spawn_hit(office.world@, e) by {
            if e.0 >= 20 {
                assert(!spawn_step(e.0, e.1, e.2));
            }
        }
    }
    (cx, cy)
}

/// Sprite sheet row of the walking animation for a facing: down, up, and sideways (the
/// sideways row is mirrored for facing left).
pub open spec fn facing_row(f: Facing) -> usize {
    match f {
        Facing::Down => 0,
        Facing::Up => 1,
        Facing::Right | Facing::Left => 2,
    }
}

/// The walk cycle's sheet columns.
pub open spec fn walk_column(frame: int) -> usize {
    if frame == 0 {
        0
    } else if frame == 1 {
        1
    } else if frame == 2 {
        2
    } else {
        1
    }
}

/// The walk cycle steps through the sheet's columns 0, 1, 2, 1: every odd step shows the
/// middle column, the even steps the outer ones, and each step moves one column from the
/// step before it, the cycle wrapping round.
pub proof fn lemma_walk_cycle(f: int)
    requires
        0 <= f < 4,
    ensures
        walk_column(f) == (if f % 2 == 1 { 1 } else { f }),
        walk_column((f + 1) % 4) == walk_column(f) + 1 || walk_column((f + 1) % 4) + 1 == walk_column(f),
{
}

/// Whether and where to spawn the player now: once (`already_spawned` is false), after the
/// character sprites are loaded (`sprites_ready`) and the map has been drawn; then at the
/// spawn tile.
pub fn player_spawn(office: &OfficeMap, already_spawned: bool, sprites_ready: bool) -> (t: Option<(i32, i32)>)
    requires
        office.wf(),
    ensures
        t is Some <==> (!already_spawned && sprites_ready && office.spawned),
        t matches Some(p) ==> spawn_tile(office.world@, p),
{
    if already_spawned || !sprites_ready || !office.spawned {
        return None;
    }
    Some(find_spawn_tile(office))
}

/// What the player's sprite shows.
#[derive(Clone, Copy, PartialEq, Eq, Debug, Structural)]
pub struct AnimationFrame {
    /// Position in the four-step walk cycle.
    pub frame: usize,
    /// Index into the character sprite sheet (7 columns).
    pub atlas_index: usize,
    /// Whether the sprite is mirrored.
    pub flip_x: bool,
}

/// One animation update. While moving the walk cycle advances one step each time its
/// timer runs out (`timer_done`) and the sprite shows that step of the facing's row;
/// standing still resets the cycle and shows the row's first column. Facing left mirrors
/// the sideways row.
pub fn animation_step(facing: Facing, moving: bool, frame: usize, timer_done: bool) -> (a: AnimationFrame)
    requires
        moving ==> (if timer_done { frame < usize::MAX } else { frame < 4 }),
    ensures
        a.flip_x == (facing == Facing::Left),
        moving ==> a.frame == (if timer_done { ((frame + 1) % 4) as usize } else { frame }),
        moving ==> a.atlas_index == facing_row(facing) * 7 + walk_column(a.frame as int),
        moving ==> a.frame < 4,
        moving ==> a.atlas_index == facing_row(facing) * 7 + (if a.frame % 2 == 1 { 1 } else { a.frame }),
        !moving ==> a.frame == 0 && a.atlas_index == facing_row(facing) * 7,
{
    let row: usize = match facing {
        Facing::Down => 0,
        Facing::Up => 1,
        Facing::Right | Facing::Left => 2,
    };
    let flip_x = match facing {
        Facing::Left => true,
        _ => false,
    };
    if moving {
        let walk_frames: [usize; 4] = [0, 1, 2, 1];
        let next = if timer_done { (frame + 1) % 4 } else { frame };
        let col = walk_frames[next];
        AnimationFrame { frame: next, atlas_index: row * 7 + col, flip_x }
    } else {
        AnimationFrame { frame: 0, atlas_index: row * 7, flip_x }
    }
}

/// What the movement keys ask for: a direction of `dx`, `dy` in -1, 0, 1 (y up) and the
/// facing of the last key of up, down, left, right that is held.
#[derive(Clone, Copy, PartialEq, Eq, Debug, Structural)]
pub struct KeyIntent {
    pub dx: i32,
    pub dy: i32,
    /// `None` when no movement key is held.
    pub facing: Option<Facing>,
}

/// Reads the held movement keys: up adds one to `dy`, down subtracts one, left subtracts
/// one from `dx`, right adds one; the facing is that of the last held key in the order
/// up, down, left, right.
pub fn key_intent(up: bool, down: bool, left: bool, right: bool) -> (k: KeyIntent)
    ensures
        k.dy == (if up { 1int } else { 0 }) - (if down { 1int } else { 0 }),
        k.dx == (if right { 1int } else { 0 }) - (if left { 1int } else { 0 }),
        k.facing == (if right {
            Some(Facing::Right)
        } else if left {
            Some(Facing::Left)
        } else if down {
            Some(Facing::Down)
        } else if up {
            Some(Facing::Up)
        } else {
            None
        }),
{
    let mut dx: i32 = 0;
    let mut dy: i32 = 0;
    let mut facing: Option<Facing> = None;
    if up {
        dy = dy + 1;
        facing = Some(Facing::Up);
    }
    if down {
        dy = dy - 1;
        facing = Some(Facing::Down);
    }
    if left {
        dx = dx - 1;
        facing = Some(Facing::Left);
    }
    if right {
        dx = dx + 1;
        facing = Some(Facing::Right);
    }
    KeyIntent { dx, dy, facing }
}

/// What a step of the player does, given where it may stand.
#[derive(Clone, Copy, PartialEq, Eq, Debug, Structural)]
pub enum StepOutcome {
    /// Move on both axes.
    Both,
    /// Slide along the x axis only.
    XOnly,
    /// Slide along the y axis only.
    YOnly,
    /// Stay, and give up any walk in progress.
    Stuck,
}

/// Resolves a blocked step by sliding along a wall: the full step if its target can be
/// stood on, else only its x part, else only its y part, else none.
pub fn resolve_step(both_ok: bool, x_ok: bool, y_ok: bool) -> (o: StepOutcome)
    ensures
        o == (if both_ok {
            StepOutcome::Both
        } else if x_ok {
            StepOutcome::XOnly
        } else if y_ok {
            StepOutcome::YOnly
        } else {
            StepOutcome::Stuck
        }),
{
    if both_ok {
        StepOutcome::Both
    } else if x_ok {
        StepOutcome::XOnly
    } else if y_ok {
        StepOutcome::YOnly
    } else {
        StepOutcome::Stuck
    }
}

} // verus!
