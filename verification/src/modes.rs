//! The game modes other than the office: one big war room, a race track and a space
//! fortress, each built into the world map, and the agents moved into their one room.
use vstd::prelude::*;
use crate::tiles::{TileKind, WORLD_W, WORLD_H, wall_pos, wall_pos_spec, wall_atlas_index, wall_atlas_spec};
use crate::room::Room;
use crate::office::OfficeMap;
use crate::world::{grid_dims, fill_rect, seat_row, seat_col, set_tile, stamp_rooms, covers_grid, lemma_stamped_single, lemma_stamped_none, every_second};
use crate::office::grid_wf;

verus! {

/// Width of the war room, in tiles.
pub const WAR_ROOM_W: i32 = 28;

/// Height of the war room, in tiles.
pub const WAR_ROOM_H: i32 = 20;

/// The tile at `row`, `col` of the war room: walls with a door at the bottom, a plant in
/// each corner, monitoring desks every third row along the side walls, a war table of
/// 17 by 7 desks in the middle, and seats on every other tile around it.
pub open spec fn war_room_tile(row: int, col: int) -> TileKind {
    if (row == 1 || row == 18) && (col == 1 || col == 26) {
        TileKind::Plant
    } else if row == 19 && col == 14 {
        TileKind::Door
    } else if row == 0 || row == 19 || col == 0 || col == 27 {
        TileKind::Wall
    } else if (col == 2 || col == 25) && 3 <= row <= 15 && row % 3 == 0 {
        TileKind::Desk
    } else if 7 <= row <= 13 && 6 <= col <= 22 {
        TileKind::Desk
    } else if row == 6 && 6 <= col <= 22 && col % 2 == 0 {
        TileKind::Chair
    } else if row == 14 && 7 <= col <= 21 && col % 2 == 1 {
        TileKind::Chair
    } else if col == 5 && 7 <= row <= 13 && row % 2 == 1 {
        TileKind::Chair
    } else if col == 23 && 8 <= row <= 12 && row % 2 == 0 {
        TileKind::Chair
    } else {
        TileKind::Floor
    }
}

/// The seats of the war room, `(col, row)`: the top side left to right, the bottom side,
/// the left side top to bottom, then the right side.
pub open spec fn war_room_desks() -> Seq<(i32, i32)> {
    seq![
        (6i32, 6i32), (8, 6), (10, 6), (12, 6), (14, 6), (16, 6), (18, 6), (20, 6), (22, 6),
        (7, 14), (9, 14), (11, 14), (13, 14), (15, 14), (17, 14), (19, 14), (21, 14),
        (5, 7), (5, 9), (5, 11), (5, 13),
        (23, 8), (23, 10), (23, 12),
    ]
}

/// `r` is the war room, centred in the world.
pub open spec fn is_war_room(r: Room) -> bool {
    &&& r.x == 16
    &&& r.y == 15
    &&& r.width == WAR_ROOM_W
    &&& r.height == WAR_ROOM_H
    &&& r.tiles_wf()
    &&& forall|row: int, col: int| 0 <= row < 20 && 0 <= col < 28 ==> #[trigger] r.tile(row, col) == war_room_tile(row, col)
    &&& r.desks@ == war_room_desks()
    &&& r.door == (14i32, 19i32)
}

/// Builds the war room: a room of `WAR_ROOM_W` by `WAR_ROOM_H` in the middle of the world,
/// its interior cleared and refurnished with the war table, seats, desks and plants.
pub fn war_room() -> (room: Room)
    ensures
        is_war_room(room),
        room.name@ == "WAR ROOM"@,
{
    let rx = (WORLD_W - WAR_ROOM_W) / 2;
    let ry = (WORLD_H - WAR_ROOM_H) / 2;
    let mut room = Room::new("WAR ROOM", rx, ry, WAR_ROOM_W, WAR_ROOM_H);
    let ghost g0 = room.tiles@;
    let ghost r0 = room;
    proof {
        assert(grid_dims(room.tiles@, 20, 28));
    }
    // Clear the interior.
    fill_rect(&mut room.tiles, 1, 19, 1, 27, TileKind::Floor, Ghost(20), Ghost(28));
    room.desks = Vec::new();
    // The war table: its edges, then its inside.
    let cx: i32 = WAR_ROOM_W / 2;
    let cy: i32 = WAR_ROOM_H / 2;
    let table_hw: i32 = 8;
    let table_hh: i32 = 3;
    fill_rect(&mut room.tiles, (cy - table_hh) as usize, (cy - table_hh + 1) as usize, (cx - table_hw) as usize, (cx + table_hw + 1) as usize, TileKind::Desk, Ghost(20), Ghost(28));
    fill_rect(&mut room.tiles, (cy + table_hh) as usize, (cy + table_hh + 1) as usize, (cx - table_hw) as usize, (cx + table_hw + 1) as usize, TileKind::Desk, Ghost(20), Ghost(28));
    fill_rect(&mut room.tiles, (cy - table_hh) as usize, (cy + table_hh + 1) as usize, (cx - table_hw) as usize, (cx - table_hw + 1) as usize, TileKind::Desk, Ghost(20), Ghost(28));
    fill_rect(&mut room.tiles, (cy - table_hh) as usize, (cy + table_hh + 1) as usize, (cx + table_hw) as usize, (cx + table_hw + 1) as usize, TileKind::Desk, Ghost(20), Ghost(28));
    fill_rect(&mut room.tiles, (cy - table_hh + 1) as usize, (cy + table_hh) as usize, (cx - table_hw + 1) as usize, (cx + table_hw) as usize, TileKind::Desk, Ghost(20), Ghost(28));
    // Seats on every other tile around the table.
    seat_row(&mut room.tiles, &mut room.desks, cy - table_hh - 1, cx - table_hw, cx + table_hw, Ghost(20), Ghost(28));
    seat_row(&mut room.tiles, &mut room.desks, cy + table_hh + 1, cx - table_hw + 1, cx + table_hw, Ghost(20), Ghost(28));
    seat_col(&mut room.tiles, &mut room.desks, cx - table_hw - 1, cy - table_hh, cy + table_hh, Ghost(20), Ghost(28));
    seat_col(&mut room.tiles, &mut room.desks, cx + table_hw + 1, cy - table_hh + 1, cy + table_hh, Ghost(20), Ghost(28));
    // Monitoring desks along the side walls, every third row.
    let ghost gs = room.tiles@;
    let ghost before = room;
    let mut row: usize = 3;
    while row < (WAR_ROOM_H - 3) as usize
        invariant
            3 <= row <= 18,
            row % 3 == 0,
            room.name == before.name,
            room.x == before.x,
            room.y == before.y,
            room.width == before.width,
            room.height == before.height,
            room.desks == before.desks,
            room.door == before.door,
            grid_dims(room.tiles@, 20, 28),
            forall|r: int, c: int| 0 <= r < 20 && 0 <= c < 28 ==> #[trigger] room.tiles@[r]@[c] == (if (c == 2 || c == 25) && 3 <= r < row && r % 3 == 0 {
                TileKind::Desk
            } else {
                gs[r]@[c]
            }),
        decreases 18 - row,
    {
        set_tile(&mut room.tiles, row, 2, TileKind::Desk);
        set_tile(&mut room.tiles, row, (WAR_ROOM_W - 3) as usize, TileKind::Desk);
        row = row + 3;
    }
    // Plants in the corners.
    set_tile(&mut room.tiles, 1, 1, TileKind::Plant);
    set_tile(&mut room.tiles, 1, (WAR_ROOM_W - 2) as usize, TileKind::Plant);
    set_tile(&mut room.tiles, (WAR_ROOM_H - 2) as usize, 1, TileKind::Plant);
    set_tile(&mut room.tiles, (WAR_ROOM_H - 2) as usize, (WAR_ROOM_W - 2) as usize, TileKind::Plant);
    proof {
        assert forall|r: int, c: int| 0 <= r < 20 && 0 <= c < 28 implies #[trigger] room.tile(r, c) == war_room_tile(r, c) by {
            assert(r0.tile(r, c) == crate::room::room_tile(28, 20, r, c));
        }
        assert(every_second(6, 22).map_values(|c: int| (c as i32, 6i32)) + every_second(7, 22).map_values(|c: int| (c as i32, 14i32))
            + every_second(7, 13).map_values(|r: int| (5i32, r as i32)) + every_second(8, 13).map_values(|r: int| (23i32, r as i32))
            =~= war_room_desks());
        assert(grid_dims(room.tiles@, 20, 28));
    }
    room
}

/// Every seat of the war room is a chair tile.
pub proof fn lemma_war_room_seats_are_chairs(k: int)
    requires
        0 <= k < war_room_desks().len(),
    ensures
        war_room_tile(war_room_desks()[k].1 as int, war_room_desks()[k].0 as int) == TileKind::Chair,
{
}

/// The war room as built: walls on its whole outline but for the door in the middle of the
/// bottom wall, the war table filling rows 7 to 13 between columns 6 and 22, and monitoring
/// desks on columns 2 and 25 on every third row from 3 to 15, with floor between them.
pub proof fn lemma_war_room_layout(r: Room)
    requires
        is_war_room(r),
    ensures
        forall|c: int| 0 <= c < 28 ==> #[trigger] r.tile(0, c) == TileKind::Wall,
        forall|c: int| 0 <= c < 28 ==> #[trigger] r.tile(19, c) == (if c == 14 { TileKind::Door } else { TileKind::Wall }),
        forall|row: int| 0 <= row < 20 ==> #[trigger] r.tile(row, 0) == TileKind::Wall && r.tile(row, 27) == TileKind::Wall,
        forall|row: int, col: int| 7 <= row <= 13 && 6 <= col <= 22 ==> #[trigger] r.tile(row, col) == TileKind::Desk,
        forall|row: int| 1 <= row < 19 ==> #[trigger] r.tile(row, 2) == (if 3 <= row <= 15 && row % 3 == 0 {
            TileKind::Desk
        } else {
            TileKind::Floor
        }),
        forall|row: int| 1 <= row < 19 ==> #[trigger] r.tile(row, 25) == (if 3 <= row <= 15 && row % 3 == 0 {
            TileKind::Desk
        } else {
            TileKind::Floor
        }),
{
}

/// Builds the war room into the world once the tile images are loaded and nothing has
/// been built yet: the room is drawn over the world and added to its rooms, and the map
/// counts as built. Returns whether it was built.
pub fn spawn_war_room_map(office: &mut OfficeMap, assets_ready: bool) -> (built: bool)
    requires
        old(office).wf(),
    ensures
        final(office).wf(),
        built == (!old(office).spawned && assets_ready),
        !built ==> *final(office) == *old(office),
        built ==> {
            &&& final(office).spawned
            &&& final(office).rooms@.len() == old(office).rooms@.len() + 1
            &&& final(office).rooms@.drop_last() == old(office).rooms@
            &&& is_war_room(final(office).rooms@.last())
            &&& final(office).rooms@.last().name@ == "WAR ROOM"@
            &&& forall|r: int, c: int| 0 <= r < 50 && 0 <= c < 60 ==> #[trigger] final(office).world@[r]@[c] == (if 15 <= r < 35 && 16 <= c < 44 {
                war_room_tile(r - 15, c - 16)
            } else {
                old(office).world@[r]@[c]
            })
        },
{
    if office.spawned {
        return false;
    }
    if !assets_ready {
        return false;
    }
    let ghost w0 = office.world@;
    let ghost rooms0 = office.rooms@;
    let room = war_room();
    let ghost wr = room;
    let mut one: Vec<Room> = Vec::new();
    one.push(room);
    proof {
        assert(one@[0] == wr);
        assert(grid_dims(wr.tiles@, 20, 28));
    }
    stamp_rooms(&mut office.world, &one);
    proof {
        assert forall|r: int, c: int| 0 <= r < 50 && 0 <= c < 60 implies #[trigger] office.world@[r]@[c] == (if 15 <= r < 35 && 16 <= c < 44 {
            war_room_tile(r - 15, c - 16)
        } else {
            w0[r]@[c]
        }) by {
            if 15 <= r < 35 && 16 <= c < 44 {
                assert(covers_grid(one@[0], r, c));
                assert(wr.tile(r - 15, c - 16) == war_room_tile(r - 15, c - 16));
                lemma_stamped_single(w0, one@, 0, r, c);
            } else {
                lemma_stamped_none(w0, one@, r, c);
            }
        }
    }
    office.rooms.append(&mut one);
    office.spawned = true;
    proof {
        assert(office.rooms@.drop_last() =~= rooms0);
        assert(office.rooms@.last() == wr);
    }
    true
}

/// Centre column of the race track's oval.
pub const TRACK_CX: i32 = 30;
/// Centre row of the race track's oval.
pub const TRACK_CY: i32 = 25;
/// Horizontal radius of the oval, in tiles.
pub const TRACK_RX: i32 = 20;
/// Vertical radius of the oval, in tiles.
pub const TRACK_RY: i32 = 14;
/// Width of the track, in tiles.
pub const TRACK_WIDTH: i32 = 3;

/// Whether the cell at `row`, `col` lies on the track: its normalised distance from the
/// centre, `sqrt((dc / 20)^2 + (dr / 14)^2)`, lies between `1 - 1.5 / 14` and
/// `1 + 1.5 / 14`. Squared and scaled by 19600 this reads
/// `15625 <= 49 dc^2 + 100 dr^2 <= 24025`.
pub open spec fn on_track(row: int, col: int) -> bool {
    let dc = col - 30;
    let dr = row - 25;
    15625 <= 49 * (dc * dc) + 100 * (dr * dr) <= 24025
}

/// The race track world: grass, the oval track, a start and finish line across the track
/// on its right side, a grandstand of three rows above the track and a pit lane below it.
pub open spec fn race_track_tile(row: int, col: int) -> TileKind {
    if row == 42 && 22 <= col <= 38 {
        TileKind::Desk
    } else if 7 <= row <= 9 && 18 <= col <= 42 {
        TileKind::Wall
    } else if 22 <= row <= 28 && col == 50 {
        TileKind::Door
    } else if on_track(row, col) {
        TileKind::Path
    } else {
        TileKind::Grass
    }
}

/// Paints the race track over the whole world, adds one room spanning the world inside a
/// two-tile margin for the agents, and marks the map built, once the tile images are
/// loaded and nothing has been built yet. Returns whether it was built.
pub fn spawn_race_track_map(office: &mut OfficeMap, assets_ready: bool) -> (built: bool)
    requires
        old(office).wf(),
    ensures
        final(office).wf(),
        built == (!old(office).spawned && assets_ready),
        !built ==> *final(office) == *old(office),
        built ==> {
            &&& final(office).spawned
            &&& final(office).rooms@.len() == old(office).rooms@.len() + 1
            &&& final(office).rooms@.drop_last() == old(office).rooms@
            &&& final(office).rooms@.last().fresh("RACE TRACK"@, 2, 2, 56, 46)
            &&& forall|r: int, c: int| 0 <= r < 50 && 0 <= c < 60 ==> #[trigger] final(office).world@[r]@[c] == race_track_tile(r, c)
        },
{
    if office.spawned {
        return false;
    }
    if !assets_ready {
        return false;
    }
    let ghost rooms0 = office.rooms@;
    fill_rect(&mut office.world, 0, 50, 0, 60, TileKind::Void, Ghost(50), Ghost(60));
    fill_rect(&mut office.world, 0, 50, 0, 60, TileKind::Grass, Ghost(50), Ghost(60));
    // The oval track.
    let mut wy: usize = 0;
    while wy < 50
        invariant
            wy <= 50,
            grid_wf(office.world@),
            office.rooms@ == rooms0,
            !office.spawned,
            forall|r: int, c: int| 0 <= r < 50 && 0 <= c < 60 ==> #[trigger] office.world@[r]@[c] == (if r < wy && on_track(r, c) {
                TileKind::Path
            } else {
                TileKind::Grass
            }),
        decreases 50 - wy,
    {
        let ghost wrow = office.world@;
        let mut wx: usize = 0;
        while wx < 60
            invariant
                wx <= 60,
                wy < 50,
                grid_wf(office.world@),
                office.rooms@ == rooms0,
                !office.spawned,
                forall|r: int, c: int| 0 <= r < 50 && 0 <= c < 60 ==> #[trigger] office.world@[r]@[c] == (if r == wy && c < wx && on_track(r, c) {
                    TileKind::Path
                } else {
                    wrow[r]@[c]
                }),
            decreases 60 - wx,
        {
            let dc = wx as i32 - TRACK_CX;
            let dr = wy as i32 - TRACK_CY;
            proof {
                assert(0 <= dc * dc <= 900) by (nonlinear_arith)
                    requires -30 <= dc <= 30;
                assert(0 <= dr * dr <= 625) by (nonlinear_arith)
                    requires -25 <= dr <= 25;
            }
            let v = 49 * (dc * dc) + 100 * (dr * dr);
            assert(v == 49 * ((wx - 30) * (wx - 30)) + 100 * ((wy - 25) * (wy - 25)));
            if 15625 <= v && v <= 24025 {
                set_tile(&mut office.world, wy, wx, TileKind::Path);
            }
            wx = wx + 1;
        }
        wy = wy + 1;
    }
    // Start and finish line, grandstand, pit lane.
    let finish_x = (TRACK_CX + TRACK_RX) as usize;
    fill_rect(&mut office.world, (TRACK_CY - TRACK_WIDTH) as usize, (TRACK_CY + TRACK_WIDTH + 1) as usize, finish_x, finish_x + 1, TileKind::Door, Ghost(50), Ghost(60));
    let stand_y = (TRACK_CY - TRACK_RY - 4) as usize;
    fill_rect(&mut office.world, stand_y, stand_y + 3, (TRACK_CX - 12) as usize, (TRACK_CX + 13) as usize, TileKind::Wall, Ghost(50), Ghost(60));
    let pit_y = (TRACK_CY + TRACK_RY + 3) as usize;
    fill_rect(&mut office.world, pit_y, pit_y + 1, (TRACK_CX - 8) as usize, (TRACK_CX + 9) as usize, TileKind::Desk, Ghost(50), Ghost(60));
    let room = Room::new("RACE TRACK", 2, 2, WORLD_W - 4, WORLD_H - 4);
    office.rooms.push(room);
    office.spawned = true;
    proof {
        assert(office.rooms@.drop_last() =~= rooms0);
    }
    true
}

/// The universe world: open space with a crystal fortress of 12 by 8 tiles in the middle,
/// walled on its outline.
pub open spec fn universe_tile(row: int, col: int) -> TileKind {
    if (row == 21 || row == 28) && 24 <= col < 36 {
        TileKind::Wall
    } else if (col == 24 || col == 35) && 21 <= row < 29 {
        TileKind::Wall
    } else if 21 <= row < 29 && 24 <= col < 36 {
        TileKind::Floor
    } else {
        TileKind::Grass
    }
}

/// The universe world: the fortress is walled on its whole outline (rows 21 and 28 from
/// column 24 to 35, and columns 24 and 35 from row 21 to 28) and floored inside, and the
/// rest of the world is open space.
pub proof fn lemma_fortress_walled(w: Seq<Vec<TileKind>>)
    requires
        forall|r: int, c: int| 0 <= r < 50 && 0 <= c < 60 ==> #[trigger] w[r]@[c] == universe_tile(r, c),
    ensures
        forall|r: int| 21 <= r < 29 ==> #[trigger] w[r]@[24] == TileKind::Wall && w[r]@[35] == TileKind::Wall,
        forall|c: int| 24 <= c < 36 ==> #[trigger] w[21]@[c] == TileKind::Wall && w[28]@[c] == TileKind::Wall,
        forall|r: int, c: int| 22 <= r < 28 && 25 <= c < 35 ==> #[trigger] w[r]@[c] == TileKind::Floor,
        forall|r: int, c: int|
            0 <= r < 50 && 0 <= c < 60 && !(21 <= r < 29 && 24 <= c < 36) ==> #[trigger] w[r]@[c] == TileKind::Grass,
{
    assert forall|r: int| 21 <= r < 29 implies #[trigger] w[r]@[24] == TileKind::Wall && w[r]@[35] == TileKind::Wall by {
        assert(w[r]@[24] == universe_tile(r, 24));
        assert(w[r]@[35] == universe_tile(r, 35));
    }
    assert forall|c: int| 24 <= c < 36 implies #[trigger] w[21]@[c] == TileKind::Wall && w[28]@[c] == TileKind::Wall by {
        assert(w[21]@[c] == universe_tile(21, c));
        assert(w[28]@[c] == universe_tile(28, c));
    }
}

/// A ring point `(col, row)` gives a desk when it lies strictly inside the world's
/// two-tile margin.
pub open spec fn ring_point_fits(p: (i32, i32)) -> bool {
    2 < p.0 < 58 && 2 < p.1 < 48
}

/// The universe room's desks: the ring points that fit, relative to the room's corner at
/// `(2, 2)`, in ring order.
pub open spec fn ring_desks(ring: Seq<(i32, i32)>) -> Seq<(i32, i32)> {
    ring.filter(|p: (i32, i32)| ring_point_fits(p)).map_values(|p: (i32, i32)| ((p.0 - 2) as i32, (p.1 - 2) as i32))
}

/// Builds the universe into the world unless something was built already: open space with
/// the fortress, and one room spanning the world inside a two-tile margin whose desks are
/// the given `ring` of points around the fortress. Returns whether it was built.
pub fn spawn_universe_map(office: &mut OfficeMap, ring: &Vec<(i32, i32)>) -> (built: bool)
    requires
        old(office).wf(),
    ensures
        final(office).wf(),
        built == !old(office).spawned,
        !built ==> *final(office) == *old(office),
        built ==> {
            let room = final(office).rooms@.last();
            &&& final(office).spawned
            &&& final(office).rooms@.len() == old(office).rooms@.len() + 1
            &&& final(office).rooms@.drop_last() == old(office).rooms@
            &&& room.name@ == "UNIVERSE"@
            &&& room.x == 2 && room.y == 2 && room.width == 56 && room.height == 46
            &&& room.tiles_wf()
            &&& forall|r: int, c: int| 0 <= r < 46 && 0 <= c < 56 ==> #[trigger] room.tile(r, c) == crate::room::room_tile(56, 46, r, c)
            &&& room.desks@ == ring_desks(ring@)
            &&& forall|r: int, c: int| 0 <= r < 50 && 0 <= c < 60 ==> #[trigger] final(office).world@[r]@[c] == universe_tile(r, c)
        },
{
    if office.spawned {
        return false;
    }
    let ghost rooms0 = office.rooms@;
    fill_rect(&mut office.world, 0, 50, 0, 60, TileKind::Grass, Ghost(50), Ghost(60));
    let cx = WORLD_W / 2;
    let cy = WORLD_H / 2;
    let fort_hw: i32 = 6;
    let fort_hh: i32 = 4;
    fill_rect(&mut office.world, (cy - fort_hh) as usize, (cy + fort_hh) as usize, (cx - fort_hw) as usize, (cx + fort_hw) as usize, TileKind::Floor, Ghost(50), Ghost(60));
    // The fortress's outline.
    fill_rect(&mut office.world, (cy - fort_hh) as usize, (cy - fort_hh + 1) as usize, (cx - fort_hw) as usize, (cx + fort_hw) as usize, TileKind::Wall, Ghost(50), Ghost(60));
    fill_rect(&mut office.world, (cy + fort_hh - 1) as usize, (cy + fort_hh) as usize, (cx - fort_hw) as usize, (cx + fort_hw) as usize, TileKind::Wall, Ghost(50), Ghost(60));
    fill_rect(&mut office.world, (cy - fort_hh) as usize, (cy + fort_hh) as usize, (cx - fort_hw) as usize, (cx - fort_hw + 1) as usize, TileKind::Wall, Ghost(50), Ghost(60));
    fill_rect(&mut office.world, (cy - fort_hh) as usize, (cy + fort_hh) as usize, (cx + fort_hw - 1) as usize, (cx + fort_hw) as usize, TileKind::Wall, Ghost(50), Ghost(60));
    let mut room = Room::new("UNIVERSE", 2, 2, WORLD_W - 4, WORLD_H - 4);
    let ghost fresh_room = room;
    room.desks = Vec::new();
    let mut i: usize = 0;
    while i < ring.len()
        invariant
            i <= ring@.len(),
            room.name == fresh_room.name,
            room.x == 2 && room.y == 2 && room.width == 56 && room.height == 46,
            room.tiles == fresh_room.tiles,
            room.desks@ == ring_desks(ring@.take(i as int)),
        decreases ring@.len() - i,
    {
        let (dx, dy) = ring[i];
        proof {
            reveal_with_fuel(Seq::filter, 1);
            assert(ring@.take(i + 1).drop_last() =~= ring@.take(i as int));
        }
        if dx > 2 && dx < WORLD_W - 2 && dy > 2 && dy < WORLD_H - 2 {
            room.desks.push((dx - 2, dy - 2));
        }
        proof {
            let f0 = ring@.take(i as int).filter(|p: (i32, i32)| ring_point_fits(p));
            let f1 = ring@.take(i + 1).filter(|p: (i32, i32)| ring_point_fits(p));
            if ring_point_fits((dx, dy)) {
                assert(f1 =~= f0.push((dx, dy)));
                assert(ring_desks(ring@.take(i + 1)) =~= ring_desks(ring@.take(i as int)).push(((dx - 2) as i32, (dy - 2) as i32)));
            } else {
                assert(f1 =~= f0);
            }
        }
        i = i + 1;
    }
    proof {
        assert(ring@.take(ring@.len() as int) =~= ring@);
        assert forall|r: int, c: int| 0 <= r < 46 && 0 <= c < 56 implies #[trigger] room.tile(r, c) == crate::room::room_tile(56, 46, r, c) by {
            assert(fresh_room.tile(r, c) == crate::room::room_tile(56, 46, r, c));
        }
    }
    office.rooms.push(room);
    office.spawned = true;
    proof {
        assert(office.rooms@.drop_last() =~= rooms0);
    }
    true
}

/// Moves every agent into the mode's one room (the first room of the map) when the agent
/// list has changed (`dirty`) and a room exists; returns whether any agent's session
/// changed, in which case the agents are spawned anew at their desks.
pub fn gather_into_first_room(dirty: bool, rooms: &Vec<Room>, sessions: &mut Vec<String>) -> (changed: bool)
    ensures
        (!dirty || rooms@.len() == 0) ==> !changed && final(sessions)@ == old(sessions)@,
        (dirty && rooms@.len() > 0) ==> {
            &&& final(sessions)@.len() == old(sessions)@.len()
            &&& forall|i: int| 0 <= i < final(sessions)@.len() ==> (#[trigger] final(sessions)@[i])@ == rooms@[0].name@
            &&& changed == exists|i: int| 0 <= i < old(sessions)@.len() && (#[trigger] old(sessions)@[i])@ != rooms@[0].name@
        },
{
    if !dirty || rooms.len() == 0 {
        return false;
    }
    let room_name = &rooms[0].name;
    let ghost s0 = sessions@;
    let mut any_changed = false;
    let mut i: usize = 0;
    while i < sessions.len()
        invariant
            i <= sessions@.len(),
            sessions@.len() == s0.len(),
            *room_name == rooms@[0].name,
            forall|j: int| 0 <= j < i ==> (#[trigger] sessions@[j])@ == room_name@,
            forall|j: int| i <= j < sessions@.len() ==> #[trigger] sessions@[j] == s0[j],
            any_changed == exists|j: int| 0 <= j < i && (#[trigger] s0[j])@ != room_name@,
        decreases sessions@.len() - i,
    {
        if sessions[i] != *room_name {
            sessions.set(i, room_name.clone());
            any_changed = true;
        }
        proof {
            if !any_changed {
                assert forall|j: int| 0 <= j < i + 1 implies !((#[trigger] s0[j])@ != room_name@) by {
                    if j == i {
                        assert(s0[j] == sessions@[j]);
                    }
                }
            } else {
                if s0[i as int]@ != room_name@ {
                    assert(s0[i as int]@ != room_name@);
                }
            }
        }
        i = i + 1;
    }
    any_changed
}

/// Atlas index of the war room wall at world cell `wx`, `wy`, the room's corner being at
/// `rx`, `ry`.
pub fn war_wall_index(wx: i32, wy: i32, rx: i32, ry: i32) -> (i: usize)
    requires
        i32::MIN <= wx - rx <= i32::MAX,
        i32::MIN <= wy - ry <= i32::MAX,
    ensures
        i == wall_atlas_spec(wall_pos_spec(wx - rx, wy - ry, WAR_ROOM_W as int, WAR_ROOM_H as int)),
{
    wall_atlas_index(wall_pos(wx - rx, wy - ry, WAR_ROOM_W, WAR_ROOM_H))
}

/// What an agent is doing, from idle to flat out.
#[derive(Clone, Copy, PartialEq, Eq, Debug, Structural)]
pub enum AgentStatus {
    Idle,
    Ready,
    Busy,
    Saiyan,
}

/// Columns of the flying hero's sprite sheet.
pub const HERO_COLS: u32 = 12;

/// The first `count` frames of row `row` of the hero's sprite sheet, left to right.
pub fn frames_for_row(row: u32, count: u32) -> (f: Vec<usize>)
    requires
        count == 0 || row * 12 + (count - 1) <= u32::MAX,
    ensures
        f@ == Seq::new(count as nat, |c: int| (row * 12 + c) as usize),
{
    let mut f: Vec<usize> = Vec::new();
    let mut c: u32 = 0;
    while c < count
        invariant
            c <= count,
            count == 0 || row * 12 + (count - 1) <= u32::MAX,
            f@ == Seq::new(c as nat, |k: int| (row * 12 + k) as usize),
        decreases count - c,
    {
        f.push((row * HERO_COLS + c) as usize);
        proof {
            assert(f@ =~= Seq::new((c + 1) as nat, |k: int| (row * 12 + k) as usize));
        }
        c = c + 1;
    }
    f
}

/// Sprite sheet row and number of frames of the hero's animation for a status: hovering,
/// gentle flight, fast flight, and action.
pub open spec fn flight_row(status: AgentStatus) -> (u32, u32) {
    match status {
        AgentStatus::Idle => (0, 6),
        AgentStatus::Ready => (1, 8),
        AgentStatus::Busy => (2, 10),
        AgentStatus::Saiyan => (3, 10),
    }
}

/// The animation frames the hero flies with for a status.
pub fn flight_frames(status: AgentStatus) -> (f: Vec<usize>)
    ensures
        f@ == Seq::new(flight_row(status).1 as nat, |c: int| (flight_row(status).0 * 12 + c) as usize),
{
    match status {
        AgentStatus::Idle => frames_for_row(0, 6),
        AgentStatus::Ready => frames_for_row(1, 8),
        AgentStatus::Busy => frames_for_row(2, 10),
        AgentStatus::Saiyan => frames_for_row(3, 10),
    }
}

/// The leaderboard's place label for rank `i` (0 is the leader): the first three places
/// are named, the others left blank.
pub fn leaderboard_medal(i: usize) -> (m: &'static str)
    ensures
        m@ == (if i == 0 {
            "1st"@
        } else if i == 1 {
            "2nd"@
        } else if i == 2 {
            "3rd"@
        } else {
            "   "@
        }),
{
    if i == 0 {
        "1st"
    } else if i == 1 {
        "2nd"
    } else if i == 2 {
        "3rd"
    } else {
        "   "
    }
}

/// Which world the game shows.
#[derive(Clone, Copy, PartialEq, Eq, Debug, Structural)]
pub enum AppMode {
    Office,
    WarRoom,
    RaceTrack,
    Superman,
}

/// The mode named `name`; any unknown name is the office.
pub open spec fn mode_named(name: Seq<char>) -> AppMode {
    if name == "war-room"@ {
        AppMode::WarRoom
    } else if name == "race-track"@ {
        AppMode::RaceTrack
    } else if name == "superman"@ {
        AppMode::Superman
    } else {
        AppMode::Office
    }
}

impl AppMode {
    /// Reads the mode from its name.
    pub fn from_name(name: &str) -> (m: AppMode)
        ensures
            m == mode_named(name@),
    {
        let n = name.to_owned();
        if n == "war-room".to_owned() {
            AppMode::WarRoom
        } else if n == "race-track".to_owned() {
            AppMode::RaceTrack
        } else if n == "superman".to_owned() {
            AppMode::Superman
        } else {
            AppMode::Office
        }
    }

    /// The window title of the mode.
    pub fn title(self) -> (t: &'static str)
        ensures
            t@ == (match self {
                AppMode::WarRoom => "Oracle War Room"@,
                AppMode::RaceTrack => "Oracle Race Track"@,
                AppMode::Superman => "Oracle Universe"@,
                AppMode::Office => "Oracle Office 8-bit"@,
            }),
    {
        match self {
            AppMode::WarRoom => "Oracle War Room",
            AppMode::RaceTrack => "Oracle Race Track",
            AppMode::Superman => "Oracle Universe",
            AppMode::Office => "Oracle Office 8-bit",
        }
    }

    /// Whether clicking walks the player there: in the office and the war room.
    pub fn click_to_walk(self) -> (b: bool)
        ensures
            b == (self == AppMode::Office || self == AppMode::WarRoom),
    {
        match self {
            AppMode::WarRoom | AppMode::Office => true,
            _ => false,
        }
    }
}

} // verus!
