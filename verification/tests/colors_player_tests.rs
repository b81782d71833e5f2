use office_8bit::colors::{agent_color, hash_name_bytes, room_color, room_color_of, status_color, StatusTint};
use office_8bit::office::OfficeMap;
use office_8bit::player::{
    animation_step, find_spawn_tile, key_intent, player_spawn, resolve_step, tile_to_world, AnimationFrame, Facing,
    KeyIntent, StepOutcome,
};
use office_8bit::tiles::TileKind;

#[test]
fn agent_colours() {
    assert_eq!(agent_color("neo"), (100, 181, 246));
    assert_eq!(agent_color("nexus"), (129, 199, 132));
    assert_eq!(agent_color("hermes"), (255, 183, 77));
    assert_eq!(agent_color("pulse"), (240, 98, 146));
    assert_eq!(agent_color("mother"), (206, 147, 216));
    assert_eq!(agent_color("odin"), (77, 182, 172));
    assert_eq!(agent_color("smith"), (144, 164, 174));
    assert_eq!(agent_color("Neo"), (144, 164, 174));
}

#[test]
fn status_colours() {
    assert_eq!(status_color("busy"), StatusTint::Solid(253, 216, 53));
    assert_eq!(status_color("ready"), StatusTint::Solid(76, 175, 80));
    assert_eq!(status_color("idle"), StatusTint::DimWhite);
    assert_eq!(status_color(""), StatusTint::DimWhite);
}

#[test]
fn name_hash_of_bytes() {
    assert_eq!(hash_name_bytes(b""), 0);
    assert_eq!(hash_name_bytes(b"x"), 120);
    assert_eq!(hash_name_bytes(b"ab"), 97 * 31 + 98);
}

#[test]
fn known_rooms_in_any_case() {
    assert_eq!(room_color("oracles"), (100, 181, 246));
    assert_eq!(room_color("ORACLES"), (100, 181, 246));
    assert_eq!(room_color("Brewing"), (121, 85, 72));
    assert_eq!(room_color("TOOLS"), (78, 182, 172));
    assert_eq!(room_color("watchers"), (255, 183, 77));
}

#[test]
fn other_rooms_take_a_palette_colour() {
    // "x" hashes to 120, palette entry 0.
    assert_eq!(room_color("x"), (100, 181, 246));
    // "alpha" hashes to 92909918, palette entry 8.
    let h = hash_name_bytes(b"alpha");
    let palette = [
        (100, 181, 246),
        (129, 199, 132),
        (255, 183, 77),
        (240, 98, 146),
        (206, 147, 216),
        (77, 182, 172),
        (255, 138, 101),
        (149, 117, 205),
        (79, 195, 247),
        (220, 231, 117),
    ];
    assert_eq!(room_color("alpha"), palette[h % 10]);
    assert_eq!(room_color("alpha"), (79, 195, 247));
    // The hash is of the name as written, not lower-cased.
    assert_eq!(room_color_of("ALPHA", "alpha"), palette[hash_name_bytes(b"ALPHA") % 10]);
}

#[test]
fn colour_from_a_given_lower_case_name() {
    assert_eq!(room_color_of("Tools", "tools"), (78, 182, 172));
    assert_eq!(room_color_of("x", "x"), (100, 181, 246));
}

#[test]
fn tile_centres_in_world_pixels() {
    assert_eq!(tile_to_world(0, 0), (0, 0));
    assert_eq!(tile_to_world(3, 4), (192, -256));
}

#[test]
fn spawn_at_the_centre_or_nearby() {
    let mut m = OfficeMap::default();
    assert_eq!(find_spawn_tile(&m), (30, 25));
    m.world[25][30] = TileKind::Wall;
    assert_eq!(find_spawn_tile(&m), (29, 24));
}

#[test]
fn spawn_falls_back_to_the_centre() {
    let mut m = OfficeMap::default();
    for row in m.world.iter_mut() {
        for t in row.iter_mut() {
            *t = TileKind::Water;
        }
    }
    assert_eq!(find_spawn_tile(&m), (30, 25));
}

#[test]
fn walk_animation() {
    assert_eq!(
        animation_step(Facing::Left, true, 0, true),
        AnimationFrame { frame: 1, atlas_index: 15, flip_x: true }
    );
    assert_eq!(
        animation_step(Facing::Down, true, 3, true),
        AnimationFrame { frame: 0, atlas_index: 0, flip_x: false }
    );
    assert_eq!(
        animation_step(Facing::Right, true, 2, false),
        AnimationFrame { frame: 2, atlas_index: 16, flip_x: false }
    );
    assert_eq!(
        animation_step(Facing::Up, false, 3, true),
        AnimationFrame { frame: 0, atlas_index: 7, flip_x: false }
    );
}

#[test]
fn movement_keys() {
    assert_eq!(key_intent(false, false, false, false), KeyIntent { dx: 0, dy: 0, facing: None });
    assert_eq!(key_intent(true, false, false, true), KeyIntent { dx: 1, dy: 1, facing: Some(Facing::Right) });
    assert_eq!(key_intent(true, true, false, false), KeyIntent { dx: 0, dy: 0, facing: Some(Facing::Down) });
    assert_eq!(key_intent(false, false, true, false), KeyIntent { dx: -1, dy: 0, facing: Some(Facing::Left) });
}

#[test]
fn blocked_steps_slide() {
    assert_eq!(resolve_step(true, false, false), StepOutcome::Both);
    assert_eq!(resolve_step(false, true, true), StepOutcome::XOnly);
    assert_eq!(resolve_step(false, false, true), StepOutcome::YOnly);
    assert_eq!(resolve_step(false, false, false), StepOutcome::Stuck);
}

#[test]
fn player_spawns_once_after_the_map_is_drawn() {
    let mut m = OfficeMap::default();
    assert_eq!(player_spawn(&m, false, true), None);
    m.spawned = true;
    assert_eq!(player_spawn(&m, false, false), None);
    assert_eq!(player_spawn(&m, true, true), None);
    assert_eq!(player_spawn(&m, false, true), Some((30, 25)));
}
