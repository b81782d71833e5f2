use office_8bit::modes::{
    flight_frames, frames_for_row, gather_into_first_room, leaderboard_medal, spawn_race_track_map,
    spawn_universe_map, spawn_war_room_map, war_room, war_wall_index, AgentStatus, AppMode,
    WAR_ROOM_H, WAR_ROOM_W,
};
use office_8bit::office::OfficeMap;
use office_8bit::room::Room;
use office_8bit::tiles::TileKind;

#[test]
fn war_room_layout() {
    let room = war_room();
    assert_eq!(room.name, "WAR ROOM");
    assert_eq!((room.x, room.y, room.width, room.height), (16, 15, WAR_ROOM_W, WAR_ROOM_H));
    assert_eq!(room.desks.len(), 24);
    assert_eq!(room.desks[0], (6, 6));
    assert_eq!(room.desks[9], (7, 14));
    assert_eq!(room.desks[17], (5, 7));
    assert_eq!(room.desks[23], (23, 12));
    for (c, r) in &room.desks {
        assert_eq!(room.tiles[*r as usize][*c as usize], TileKind::Chair);
    }
    assert_eq!(room.door, (14, 19));
    assert_eq!(room.tiles[19][14], TileKind::Door);
    assert_eq!(room.tiles[10][14], TileKind::Desk);
    assert_eq!(room.tiles[7][6], TileKind::Desk);
    assert_eq!(room.tiles[13][22], TileKind::Desk);
    assert_eq!(room.tiles[1][1], TileKind::Plant);
    assert_eq!(room.tiles[18][26], TileKind::Plant);
    assert_eq!(room.tiles[3][2], TileKind::Desk);
    assert_eq!(room.tiles[15][25], TileKind::Desk);
    assert_eq!(room.tiles[4][2], TileKind::Floor);
    assert_eq!(room.tiles[0][5], TileKind::Wall);
    assert_eq!(room.tiles[5][5], TileKind::Floor);
}

#[test]
fn war_room_built_once_assets_are_ready() {
    let mut m = OfficeMap::default();
    assert!(!spawn_war_room_map(&mut m, false));
    assert!(!m.spawned);
    assert!(m.rooms.is_empty());
    assert!(spawn_war_room_map(&mut m, true));
    assert!(m.spawned);
    assert_eq!(m.rooms.len(), 1);
    assert_eq!(m.world[15][16], TileKind::Wall);
    assert_eq!(m.world[34][30], TileKind::Door);
    assert_eq!(m.world[16][17], TileKind::Plant);
    assert_eq!(m.world[21][22], TileKind::Chair);
    assert_eq!(m.world[25][30], TileKind::Desk);
    assert_eq!(m.world[0][0], TileKind::Mountain);
    assert_eq!(m.world[10][10], TileKind::Grass);
    // Built only once.
    assert!(!spawn_war_room_map(&mut m, true));
    assert_eq!(m.rooms.len(), 1);
}

#[test]
fn war_room_walls() {
    assert_eq!(war_wall_index(16, 15, 16, 15), 5);
    assert_eq!(war_wall_index(43, 15, 16, 15), 7);
    assert_eq!(war_wall_index(20, 15, 16, 15), 6);
    assert_eq!(war_wall_index(43, 34, 16, 15), 37);
    assert_eq!(war_wall_index(16, 20, 16, 15), 20);
}

#[test]
fn race_track_world() {
    let mut m = OfficeMap::default();
    assert!(!spawn_race_track_map(&mut m, false));
    assert!(spawn_race_track_map(&mut m, true));
    assert!(m.spawned);
    assert_eq!(m.world[25][50], TileKind::Door);
    assert_eq!(m.world[22][50], TileKind::Door);
    assert_eq!(m.world[25][10], TileKind::Path);
    assert_eq!(m.world[11][30], TileKind::Path);
    assert_eq!(m.world[25][30], TileKind::Grass);
    assert_eq!(m.world[0][0], TileKind::Grass);
    assert_eq!(m.world[8][20], TileKind::Wall);
    assert_eq!(m.world[42][30], TileKind::Desk);
    assert_eq!(m.rooms.len(), 1);
    let r = &m.rooms[0];
    assert_eq!(r.name, "RACE TRACK");
    assert_eq!((r.x, r.y, r.width, r.height), (2, 2, 56, 46));
    assert!(!spawn_race_track_map(&mut m, true));
}

#[test]
fn universe_world_and_ring() {
    let mut m = OfficeMap::default();
    let ring = vec![(30, 5), (1, 1), (57, 47), (3, 3), (58, 10)];
    assert!(spawn_universe_map(&mut m, &ring));
    assert!(m.spawned);
    assert_eq!(m.world[21][24], TileKind::Wall);
    assert_eq!(m.world[28][35], TileKind::Wall);
    assert_eq!(m.world[25][30], TileKind::Floor);
    assert_eq!(m.world[0][0], TileKind::Grass);
    assert_eq!(m.world[20][10], TileKind::Grass);
    assert_eq!(m.rooms.len(), 1);
    let r = &m.rooms[0];
    assert_eq!(r.name, "UNIVERSE");
    assert_eq!((r.x, r.y, r.width, r.height), (2, 2, 56, 46));
    assert_eq!(r.desks, vec![(28, 3), (55, 45), (1, 1)]);
    assert!(!spawn_universe_map(&mut m, &ring));
}

#[test]
fn agents_gathered_into_the_one_room() {
    let rooms = vec![Room::new("ALL", 2, 2, 56, 46)];
    let mut sessions = vec!["a".to_string(), "ALL".to_string()];
    assert!(!gather_into_first_room(false, &rooms, &mut sessions));
    assert_eq!(sessions, vec!["a".to_string(), "ALL".to_string()]);
    assert!(!gather_into_first_room(true, &Vec::new(), &mut sessions));
    assert_eq!(sessions[0], "a");
    assert!(gather_into_first_room(true, &rooms, &mut sessions));
    assert_eq!(sessions, vec!["ALL".to_string(), "ALL".to_string()]);
    assert!(!gather_into_first_room(true, &rooms, &mut sessions));
}

#[test]
fn hero_animation_frames() {
    assert_eq!(frames_for_row(1, 8), (12..20).collect::<Vec<usize>>());
    assert_eq!(frames_for_row(0, 0), Vec::<usize>::new());
    assert_eq!(flight_frames(AgentStatus::Idle), (0..6).collect::<Vec<usize>>());
    assert_eq!(flight_frames(AgentStatus::Ready), (12..20).collect::<Vec<usize>>());
    assert_eq!(flight_frames(AgentStatus::Busy), (24..34).collect::<Vec<usize>>());
    assert_eq!(flight_frames(AgentStatus::Saiyan), (36..46).collect::<Vec<usize>>());
}

#[test]
fn leaderboard_places() {
    assert_eq!(leaderboard_medal(0), "1st");
    assert_eq!(leaderboard_medal(1), "2nd");
    assert_eq!(leaderboard_medal(2), "3rd");
    assert_eq!(leaderboard_medal(3), "   ");
    assert_eq!(leaderboard_medal(7), "   ");
}

#[test]
fn app_modes() {
    assert_eq!(AppMode::from_name("war-room"), AppMode::WarRoom);
    assert_eq!(AppMode::from_name("race-track"), AppMode::RaceTrack);
    assert_eq!(AppMode::from_name("superman"), AppMode::Superman);
    assert_eq!(AppMode::from_name("office"), AppMode::Office);
    assert_eq!(AppMode::from_name("War-Room"), AppMode::Office);
    assert_eq!(AppMode::from_name(""), AppMode::Office);
    assert_eq!(AppMode::WarRoom.title(), "Oracle War Room");
    assert_eq!(AppMode::RaceTrack.title(), "Oracle Race Track");
    assert_eq!(AppMode::Superman.title(), "Oracle Universe");
    assert_eq!(AppMode::Office.title(), "Oracle Office 8-bit");
    assert!(AppMode::Office.click_to_walk());
    assert!(AppMode::WarRoom.click_to_walk());
    assert!(!AppMode::RaceTrack.click_to_walk());
    assert!(!AppMode::Superman.click_to_walk());
}
