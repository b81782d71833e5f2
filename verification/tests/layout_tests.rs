use office_8bit::layout::{layout_rooms, room_size_for_agents};
use office_8bit::sessions::count_sessions;
use office_8bit::tiles::TileKind;

fn strings(v: &[&str]) -> Vec<String> {
    v.iter().map(|s| s.to_string()).collect()
}

fn counted(v: &[(&str, usize)]) -> Vec<(String, usize)> {
    v.iter().map(|(s, n)| (s.to_string(), *n)).collect()
}

#[test]
fn sessions_counted_busiest_first() {
    let r = count_sessions(&strings(&["a", "b", "a", "c", "b", "a"]));
    assert_eq!(r, counted(&[("a", 3), ("b", 2), ("c", 1)]));
}

#[test]
fn equal_counts_keep_first_appearance() {
    let r = count_sessions(&strings(&["x", "y", "y", "x", "z"]));
    assert_eq!(r, counted(&[("x", 2), ("y", 2), ("z", 1)]));
    let r = count_sessions(&strings(&["q", "p", "p"]));
    assert_eq!(r, counted(&[("p", 2), ("q", 1)]));
}

#[test]
fn no_sessions_no_counts() {
    assert!(count_sessions(&Vec::new()).is_empty());
}

#[test]
fn room_sizes_grow_with_agents() {
    assert_eq!(room_size_for_agents(0), (8, 7));
    assert_eq!(room_size_for_agents(3), (8, 7));
    assert_eq!(room_size_for_agents(4), (10, 8));
    assert_eq!(room_size_for_agents(6), (10, 8));
    assert_eq!(room_size_for_agents(7), (12, 10));
    assert_eq!(room_size_for_agents(10), (12, 10));
    assert_eq!(room_size_for_agents(11), (14, 12));
    assert_eq!(room_size_for_agents(100), (14, 12));
}

fn rects(counts: &[(String, usize)]) -> Vec<(i32, i32, i32, i32)> {
    layout_rooms(&counts.to_vec()).iter().map(|r| (r.x, r.y, r.width, r.height)).collect()
}

#[test]
fn small_rooms_skip_the_path_cross() {
    let counts = counted(&[("a", 1), ("b", 1), ("c", 1), ("d", 1), ("e", 1)]);
    assert_eq!(
        rects(&counts),
        vec![(3, 3, 8, 7), (13, 3, 8, 7), (33, 3, 8, 7), (43, 3, 8, 7), (3, 23, 8, 7)]
    );
    let rooms = layout_rooms(&counts);
    let names: Vec<&str> = rooms.iter().map(|r| r.name.as_str()).collect();
    assert_eq!(names, vec!["a", "b", "c", "d", "e"]);
}

#[test]
fn rooms_that_do_not_fit_are_left_out() {
    let mut counts = counted(&[("big", 12), ("mid", 8), ("small", 5), ("two", 2)]);
    for i in 0..10 {
        counts.push((format!("s{}", i), 1));
    }
    assert_eq!(
        rects(&counts),
        vec![
            (3, 3, 14, 12),
            (33, 3, 12, 10),
            (47, 3, 10, 8),
            (3, 23, 8, 7),
            (13, 23, 8, 7),
            (33, 23, 8, 7),
            (43, 23, 8, 7),
            (3, 33, 8, 7),
            (13, 33, 8, 7),
            (33, 33, 8, 7),
            (43, 33, 8, 7),
        ]
    );
}

#[test]
fn laid_out_rooms_are_inside_and_apart() {
    let mut counts = Vec::new();
    for i in 0..20usize {
        counts.push((format!("s{}", i), (i * 7) % 13));
    }
    let rooms = layout_rooms(&counts);
    assert!(!rooms.is_empty());
    for r in &rooms {
        assert!(r.x >= 3 && r.y >= 3 && r.x + r.width <= 57 && r.y + r.height <= 47);
        // Clear of the path cross.
        assert!(r.x + r.width <= 29 || r.x >= 32);
        assert!(r.y + r.height <= 19 || r.y >= 22);
    }
    for i in 0..rooms.len() {
        for j in (i + 1)..rooms.len() {
            let (a, b) = (&rooms[i], &rooms[j]);
            let apart = a.x + a.width <= b.x
                || b.x + b.width <= a.x
                || a.y + a.height <= b.y
                || b.y + b.height <= a.y;
            assert!(apart);
        }
    }
}

#[test]
fn laid_out_rooms_are_furnished() {
    let rooms = layout_rooms(&counted(&[("a", 4)]));
    assert_eq!(rooms.len(), 1);
    let r = &rooms[0];
    assert_eq!((r.width, r.height), (10, 8));
    assert_eq!(r.tiles[0][0], TileKind::Wall);
    assert_eq!(r.tiles[7][5], TileKind::Door);
    assert_eq!(r.door, (5, 7));
}
