use ground_control::types::{MapPosition, OccupancyGrid};

#[test]
fn world_origin_maps_to_center_cell() {
    let p = MapPosition::from_world(0, 0);
    assert_eq!(p, MapPosition::new(256, 128));
}

#[test]
fn transform_clamps_into_range() {
    // Far out of range on every side, the transform still yields a cell
    // inside [0, 512) x [0, 256).
    let candidates = [
        (i64::MIN, i64::MIN),
        (i64::MAX, i64::MAX),
        (-1_000_000, 1_000_000),
        (17_000, -9_000),
        (-16_384, -8_192),
        (16_383, 8_191),
        (0, 0),
    ];
    for (wx, wy) in candidates {
        let p = MapPosition::from_world(wx, wy);
        assert!(p.x >= 0 && p.x < 512, "x out of range for ({wx},{wy})");
        assert!(p.y >= 0 && p.y < 256, "y out of range for ({wx},{wy})");
    }
    assert_eq!(MapPosition::from_world(i64::MIN, i64::MIN), MapPosition::new(0, 0));
    assert_eq!(MapPosition::from_world(i64::MAX, i64::MAX), MapPosition::new(511, 255));
}

#[test]
fn cell_center_round_trip() {
    let p = MapPosition::new(256, 128);
    let (wx, wy) = p.to_world();
    assert_eq!((wx, wy), (32, 32));
    assert_eq!(MapPosition::from_world(wx, wy), p);
}

#[test]
fn manhattan_distance() {
    let a = MapPosition::new(3, 4);
    let b = MapPosition::new(-1, 10);
    assert_eq!(a.distance(b), 10);
    assert_eq!(b.distance(a), 10);
    assert_eq!(a.distance(a), 0);
}

#[test]
fn occupancy_checks_bounds_and_terrain() {
    let mut grid = OccupancyGrid::new(5, 5);
    grid.block(2, 1);
    assert!(MapPosition::new(-1, 0).is_occupied(&grid));
    assert!(MapPosition::new(0, -1).is_occupied(&grid));
    assert!(MapPosition::new(5, 0).is_occupied(&grid));
    assert!(MapPosition::new(0, 5).is_occupied(&grid));
    assert!(MapPosition::new(2, 1).is_occupied(&grid));
    assert!(!MapPosition::new(2, 2).is_occupied(&grid));
}

#[test]
fn adjacent_positions_scan_order() {
    let grid = OccupancyGrid::new(5, 5);
    let free = MapPosition::new(1, 1).adjacent_positions(&grid);
    assert_eq!(
        free,
        vec![
            MapPosition::new(0, 0),
            MapPosition::new(1, 0),
            MapPosition::new(2, 0),
            MapPosition::new(0, 1),
            MapPosition::new(2, 1),
            MapPosition::new(0, 2),
            MapPosition::new(1, 2),
            MapPosition::new(2, 2),
        ]
    );
}

#[test]
fn adjacent_positions_skip_occupied_and_out_of_range() {
    let mut grid = OccupancyGrid::new(5, 5);
    grid.block(1, 0);
    let free = MapPosition::new(0, 0).adjacent_positions(&grid);
    assert_eq!(free, vec![MapPosition::new(0, 1), MapPosition::new(1, 1)]);
}
