use office_8bit::tiles::{
    TileKind, WallPos, dark, wall_pos, wall_atlas_index, floor_atlas_index, WALL_TOP_LEFT,
    WALL_BOTTOM_RIGHT, DESK, CHAIR, FLOOR, FLOOR_ALT,
};
use office_8bit::room::Room;
use office_8bit::office::OfficeMap;

#[test]
fn walkable_tiles() {
    let walkable = [TileKind::Grass, TileKind::Path, TileKind::Floor, TileKind::Door, TileKind::Chair];
    let blocked = [TileKind::Void, TileKind::Wall, TileKind::Desk, TileKind::Plant, TileKind::Mountain, TileKind::Water];
    for t in walkable {
        assert!(t.is_walkable());
    }
    for t in blocked {
        assert!(!t.is_walkable());
    }
}

#[test]
fn dark_theme_indices() {
    assert_eq!(dark(0, 0), 5);
    assert_eq!(dark(0, 0), WALL_TOP_LEFT);
    assert_eq!(dark(2, 2), WALL_BOTTOM_RIGHT);
    assert_eq!(dark(3, 3), DESK);
    assert_eq!(dark(3, 0), CHAIR);
    assert_eq!(dark(3, 1), FLOOR);
}

#[test]
fn wall_positions_of_an_eight_by_seven_room() {
    assert_eq!(wall_pos(0, 0, 8, 7), WallPos::TopLeft);
    assert_eq!(wall_pos(7, 0, 8, 7), WallPos::TopRight);
    assert_eq!(wall_pos(3, 0, 8, 7), WallPos::Top);
    assert_eq!(wall_pos(0, 6, 8, 7), WallPos::BottomLeft);
    assert_eq!(wall_pos(7, 6, 8, 7), WallPos::BottomRight);
    assert_eq!(wall_pos(4, 6, 8, 7), WallPos::Bottom);
    assert_eq!(wall_pos(0, 3, 8, 7), WallPos::Left);
    assert_eq!(wall_pos(7, 3, 8, 7), WallPos::Right);
    assert_eq!(wall_pos(3, 3, 8, 7), WallPos::Top);
    assert_eq!(wall_atlas_index(WallPos::Left), 20);
    assert_eq!(wall_atlas_index(WallPos::Bottom), 36);
}

#[test]
fn floor_tiles_alternate_on_every_third_diagonal() {
    assert_eq!(floor_atlas_index(TileKind::Floor, 1, 2), FLOOR_ALT);
    assert_eq!(floor_atlas_index(TileKind::Floor, 1, 1), FLOOR);
    assert_eq!(floor_atlas_index(TileKind::Desk, 1, 2), DESK);
    assert_eq!(floor_atlas_index(TileKind::Chair, 0, 0), CHAIR);
}

#[test]
fn room_of_eight_by_seven() {
    let room = Room::new("oracles", 3, 4, 8, 7);
    assert_eq!(room.name, "oracles");
    assert_eq!((room.x, room.y, room.width, room.height), (3, 4, 8, 7));
    assert_eq!(room.tiles.len(), 7);
    assert!(room.tiles.iter().all(|r| r.len() == 8));
    assert_eq!(room.tiles[0][0], TileKind::Wall);
    assert_eq!(room.tiles[6][7], TileKind::Wall);
    assert_eq!(room.tiles[6][4], TileKind::Door);
    assert_eq!(room.door, (4, 6));
    assert_eq!(room.tiles[1][1], TileKind::Plant);
    assert_eq!(room.tiles[1][6], TileKind::Plant);
    assert_eq!(room.desks, vec![(2, 2), (2, 4), (4, 2), (4, 4)]);
    assert_eq!(room.tiles[2][2], TileKind::Desk);
    assert_eq!(room.tiles[2][3], TileKind::Chair);
    assert_eq!(room.tiles[4][4], TileKind::Desk);
    assert_eq!(room.tiles[4][5], TileKind::Chair);
    assert_eq!(room.tiles[3][3], TileKind::Floor);
    assert_eq!(room.tiles[5][2], TileKind::Floor);
}

#[test]
fn later_desk_column_replaces_chair() {
    // In a room 7 wide the desk columns are 2 and 3: column 3's desks cover column 2's chairs.
    let room = Room::new("narrow", 0, 0, 7, 6);
    assert_eq!(room.tiles[2][2], TileKind::Desk);
    assert_eq!(room.tiles[2][3], TileKind::Desk);
    assert_eq!(room.tiles[2][4], TileKind::Chair);
    assert_eq!(room.desks, vec![(2, 2), (2, 4), (3, 2), (3, 4)]);
}

#[test]
fn wide_room_has_three_desk_columns() {
    let room = Room::new("wide", 0, 0, 14, 12);
    let cols: Vec<i32> = room.desks.iter().map(|d| d.0).collect();
    assert_eq!(cols, vec![2, 2, 2, 2, 2, 7, 7, 7, 7, 7, 11, 11, 11, 11, 11]);
    assert_eq!(room.tiles[10][11], TileKind::Desk);
    assert_eq!(room.tiles[10][12], TileKind::Chair);
    assert_eq!(room.tiles[11][7], TileKind::Door);
}

#[test]
fn one_tile_room_is_a_door() {
    let room = Room::new("tiny", 5, 5, 1, 1);
    assert_eq!(room.tiles, vec![vec![TileKind::Door]]);
    assert!(room.desks.is_empty());
}

#[test]
fn room_world_position() {
    let room = Room::new("r", 3, 4, 8, 7);
    assert_eq!(room.world_pos(2, 1), (5 * 64, -(5 * 64)));
    assert_eq!(room.world_pos(0, 0), (192, -256));
}

#[test]
fn room_classifies_its_walls() {
    let room = Room::new("r", 3, 4, 8, 7);
    assert_eq!(room.classify_wall(3, 4), WallPos::TopLeft);
    assert_eq!(room.classify_wall(10, 10), WallPos::BottomRight);
    assert_eq!(room.classify_wall(3, 7), WallPos::Left);
}

#[test]
fn default_office_terrain() {
    let m = OfficeMap::default();
    assert!(m.rooms.is_empty());
    assert!(!m.spawned);
    assert_eq!(m.world.len(), 50);
    assert!(m.world.iter().all(|r| r.len() == 60));
    assert_eq!(m.world[0][0], TileKind::Mountain);
    assert_eq!(m.world[1][30], TileKind::Mountain);
    assert_eq!(m.world[48][10], TileKind::Mountain);
    assert_eq!(m.world[10][59], TileKind::Mountain);
    assert_eq!(m.world[20][10], TileKind::Path);
    assert_eq!(m.world[21][56], TileKind::Path);
    assert_eq!(m.world[25][30], TileKind::Path);
    assert_eq!(m.world[3][31], TileKind::Path);
    assert_eq!(m.world[2][30], TileKind::Grass);
    assert_eq!(m.world[40][50], TileKind::Water);
    assert_eq!(m.world[44][50], TileKind::Grass);
    assert_eq!(m.world[10][10], TileKind::Grass);
}

#[test]
fn walkable_tile_lookup() {
    let m = OfficeMap::default();
    assert!(m.is_walkable_tile(10, 10));
    assert!(!m.is_walkable_tile(0, 0));
    assert!(!m.is_walkable_tile(-1, 5));
    assert!(!m.is_walkable_tile(60, 5));
    assert!(!m.is_walkable_tile(50, 40));
}

#[test]
fn trees_stand_on_grass_only() {
    let m = OfficeMap::default();
    let spots = m.tree_spots();
    assert_eq!(spots.len(), 16);
    assert!(!spots.contains(&(52, 38)));
    assert!(!spots.contains(&(50, 43)));
    assert_eq!(spots[0], (5, 15));
    assert_eq!(spots[15], (3, 42));
}

#[test]
fn outdoor_terrain_drawn_once() {
    let mut m = OfficeMap::default();
    assert!(!m.begin_outdoor(false));
    assert!(!m.spawned);
    assert!(m.begin_outdoor(true));
    assert!(m.spawned);
    assert!(!m.begin_outdoor(true));
    assert_eq!(m.world[20][10], TileKind::Path);
}
