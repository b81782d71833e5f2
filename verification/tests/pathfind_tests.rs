use office_8bit::office::OfficeMap;
use office_8bit::pathfind::astar_path;
use office_8bit::tiles::TileKind;

fn open(m: &OfficeMap, p: (i32, i32)) -> bool {
    m.is_walkable_tile(p.0, p.1)
}

/// Every kept tile is open and lies within two moves of the one before it.
fn plausible(m: &OfficeMap, r: &[(i32, i32)], start: (i32, i32)) -> bool {
    if r.is_empty() || r[0] != start {
        return false;
    }
    r.iter().all(|p| open(m, *p))
        && r.windows(2).all(|w| (w[1].0 - w[0].0).abs() <= 2 && (w[1].1 - w[0].1).abs() <= 2)
}

#[test]
fn goal_off_the_map_has_no_route() {
    let m = OfficeMap::default();
    assert_eq!(astar_path(&m, (10, 10), (-1, 10)), None);
    assert_eq!(astar_path(&m, (10, 10), (60, 10)), None);
    assert_eq!(astar_path(&m, (10, 10), (10, 50)), None);
}

#[test]
fn blocked_goal_has_no_route() {
    let m = OfficeMap::default();
    // Mountains and water cannot be stood on.
    assert_eq!(astar_path(&m, (10, 10), (0, 0)), None);
    assert_eq!(astar_path(&m, (10, 10), (50, 40)), None);
}

#[test]
fn start_on_goal_is_a_route_of_one_tile() {
    let m = OfficeMap::default();
    assert_eq!(astar_path(&m, (10, 10), (10, 10)), Some(vec![(10, 10)]));
}

#[test]
fn straight_walk_keeps_every_other_tile() {
    let m = OfficeMap::default();
    assert_eq!(
        astar_path(&m, (10, 10), (14, 10)),
        Some(vec![(10, 10), (12, 10), (14, 10)])
    );
    assert_eq!(astar_path(&m, (5, 5), (7, 5)), Some(vec![(5, 5), (7, 5)]));
}

#[test]
fn route_always_ends_on_the_goal() {
    let m = OfficeMap::default();
    // Four tiles: the start, the third tile, and the goal.
    assert_eq!(
        astar_path(&m, (10, 10), (10, 13)),
        Some(vec![(10, 10), (10, 12), (10, 13)])
    );
    // Two tiles: both are kept.
    assert_eq!(astar_path(&m, (10, 10), (11, 10)), Some(vec![(10, 10), (11, 10)]));
}

#[test]
fn only_two_open_tiles() {
    let mut m = OfficeMap::default();
    for row in m.world.iter_mut() {
        for t in row.iter_mut() {
            *t = TileKind::Wall;
        }
    }
    m.world[10][10] = TileKind::Floor;
    m.world[10][11] = TileKind::Floor;
    assert_eq!(astar_path(&m, (10, 10), (11, 10)), Some(vec![(10, 10), (11, 10)]));
}

#[test]
fn no_tile_repeats_on_a_long_route() {
    let mut m = OfficeMap::default();
    for r in 3..=40usize {
        m.world[r][20] = TileKind::Wall;
    }
    let r = astar_path(&m, (10, 20), (30, 20)).expect("a route around the wall");
    for i in 0..r.len() {
        for j in (i + 1)..r.len() {
            assert_ne!(r[i], r[j]);
        }
    }
    assert_eq!(*r.last().unwrap(), (30, 20));
}

#[test]
fn enclosed_goal_has_no_route() {
    let mut m = OfficeMap::default();
    for r in 9..=11usize {
        for c in 39..=41usize {
            if !(r == 10 && c == 40) {
                m.world[r][c] = TileKind::Wall;
            }
        }
    }
    assert_eq!(astar_path(&m, (10, 10), (40, 10)), None);
    // The start is enclosed instead.
    assert_eq!(astar_path(&m, (40, 10), (10, 10)), None);
}

#[test]
fn route_leads_around_a_wall() {
    let mut m = OfficeMap::default();
    for r in 5..=15usize {
        m.world[r][12] = TileKind::Wall;
    }
    let start = (10, 10);
    let goal = (14, 10);
    let r = astar_path(&m, start, goal).expect("a route around the wall");
    assert!(plausible(&m, &r, start));
    // Going round the wall takes at least 12 moves, so at least 7 tiles are kept.
    assert!(r.len() >= 7);
    assert_eq!(*r.last().unwrap(), goal);
}

#[test]
fn no_diagonal_past_a_blocked_corner() {
    let mut m = OfficeMap::default();
    m.world[10][11] = TileKind::Wall;
    m.world[11][10] = TileKind::Wall;
    let r = astar_path(&m, (10, 10), (11, 11)).expect("a route around the corner");
    assert!(plausible(&m, &r, (10, 10)));
    // The direct diagonal would have kept only the start.
    assert!(r.len() >= 2);
}

#[test]
fn route_across_the_office() {
    let m = OfficeMap::default();
    let start = (5, 5);
    let goal = (55, 45);
    let r = astar_path(&m, start, goal).expect("the office is open");
    assert!(plausible(&m, &r, start));
    assert_eq!(*r.last().unwrap(), goal);
}

#[test]
fn estimate_overshooting_on_diagonals_can_miss_the_cheapest_route() {
    // The search's estimate counts a diagonal move as 20 where it costs 14; this route
    // (waypoints of a route costing 266) is found where a route of cost 264 exists.
    let m = OfficeMap::default();
    assert_eq!(
        astar_path(&m, (51, 47), (46, 25)),
        Some(vec![
            (51, 47), (49, 45), (47, 44), (45, 44), (45, 42), (45, 40), (45, 38),
            (46, 36), (46, 34), (46, 32), (46, 30), (46, 28), (46, 26), (46, 25),
        ])
    );
}
