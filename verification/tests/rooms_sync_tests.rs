use office_8bit::dynrooms::DynRoomState;
use office_8bit::office::OfficeMap;
use office_8bit::room::Room;
use office_8bit::tiles::TileKind;
use office_8bit::world::{clear_rooms, set_tile, stamp_rooms};

fn strings(v: &[&str]) -> Vec<String> {
    v.iter().map(|s| s.to_string()).collect()
}

#[test]
fn set_tile_changes_one_cell() {
    let mut m = OfficeMap::default();
    set_tile(&mut m.world, 10, 12, TileKind::Desk);
    assert_eq!(m.world[10][12], TileKind::Desk);
    assert_eq!(m.world[10][11], TileKind::Grass);
    assert_eq!(m.world[11][12], TileKind::Grass);
}

#[test]
fn stamping_draws_room_tiles_and_clearing_leaves_grass() {
    let mut m = OfficeMap::default();
    let rooms = vec![Room::new("a", 3, 3, 8, 7)];
    stamp_rooms(&mut m.world, &rooms);
    assert_eq!(m.world[3][3], TileKind::Wall);
    assert_eq!(m.world[9][7], TileKind::Door);
    assert_eq!(m.world[5][5], TileKind::Desk);
    assert_eq!(m.world[5][6], TileKind::Chair);
    assert_eq!(m.world[2][3], TileKind::Grass);
    clear_rooms(&mut m.world, &rooms);
    for r in 3..10usize {
        for c in 3..11usize {
            assert_eq!(m.world[r][c], TileKind::Grass);
        }
    }
    // Cells beyond the room keep their tiles.
    assert_eq!(m.world[0][0], TileKind::Mountain);
    assert_eq!(m.world[20][10], TileKind::Path);
}

#[test]
fn clearing_a_room_over_the_path_turns_it_to_grass() {
    let mut m = OfficeMap::default();
    let rooms = vec![Room::new("p", 28, 18, 8, 7)];
    clear_rooms(&mut m.world, &rooms);
    assert_eq!(m.world[20][30], TileKind::Grass);
    assert_eq!(m.world[20][27], TileKind::Path);
}

#[test]
fn stamping_clips_at_the_world_edge() {
    let mut m = OfficeMap::default();
    let rooms = vec![Room::new("edge", 56, 46, 8, 7)];
    stamp_rooms(&mut m.world, &rooms);
    assert_eq!(m.world[46][56], TileKind::Wall);
    assert_eq!(m.world[46][59], TileKind::Wall);
    assert_eq!(m.world[49][59], TileKind::Floor);
    assert_eq!(m.world.len(), 50);
    assert!(m.world.iter().all(|r| r.len() == 60));
}

#[test]
fn no_agents_no_rooms() {
    let mut st = DynRoomState::default();
    let mut m = OfficeMap::default();
    assert!(!st.sync_rooms(&mut m, &Vec::new(), true));
    assert!(st.known_sessions.is_empty());
    assert!(m.rooms.is_empty());
}

#[test]
fn sessions_remembered_before_the_tiles_are_loaded() {
    let mut st = DynRoomState::default();
    let mut m = OfficeMap::default();
    let sessions = strings(&["a", "b", "a"]);
    assert!(!st.sync_rooms(&mut m, &sessions, false));
    assert_eq!(st.known_sessions, strings(&["a", "b"]));
    assert!(m.rooms.is_empty());
    assert_eq!(m.world[3][3], TileKind::Grass);
    // The same sessions again are no change, even once the tiles are loaded.
    assert!(!st.sync_rooms(&mut m, &sessions, true));
    assert!(m.rooms.is_empty());
}

#[test]
fn rooms_rebuilt_when_sessions_change() {
    let mut st = DynRoomState::default();
    let mut m = OfficeMap::default();
    let sessions = strings(&["b", "a", "a"]);
    assert!(st.sync_rooms(&mut m, &sessions, true));
    assert_eq!(st.known_sessions, strings(&["a", "b"]));
    assert_eq!(m.rooms.len(), 2);
    assert_eq!(m.rooms[0].name, "a");
    assert_eq!((m.rooms[0].x, m.rooms[0].y), (3, 3));
    assert_eq!(m.rooms[1].name, "b");
    assert_eq!((m.rooms[1].x, m.rooms[1].y), (13, 3));
    assert_eq!(m.world[3][3], TileKind::Wall);
    assert_eq!(m.world[5][5], TileKind::Desk);
    assert_eq!(m.world[3][13], TileKind::Wall);

    // Syncing again with the same agents changes nothing.
    assert!(!st.sync_rooms(&mut m, &strings(&["a", "b", "a"]), true));
    assert_eq!(m.rooms.len(), 2);

    // One session left: its room takes the first place, the other room is cleared.
    assert!(st.sync_rooms(&mut m, &strings(&["c"]), true));
    assert_eq!(st.known_sessions, strings(&["c"]));
    assert_eq!(m.rooms.len(), 1);
    assert_eq!(m.rooms[0].name, "c");
    assert_eq!(m.world[3][3], TileKind::Wall);
    assert_eq!(m.world[3][13], TileKind::Grass);
    assert_eq!(m.world[6][16], TileKind::Grass);
}
