use ground_control::types::{MapPosition, OccupancyGrid};

fn assert_valid_path(path: &[MapPosition], start: MapPosition, goal: MapPosition) {
    assert!(!path.is_empty());
    assert_eq!(path[0], start);
    assert_eq!(*path.last().unwrap(), goal);
    for w in path.windows(2) {
        let (a, b) = (w[0], w[1]);
        assert_ne!(a, b);
        assert!((a.x - b.x).abs() <= 1 && (a.y - b.y).abs() <= 1);
    }
}

#[test]
fn clear_line_has_no_obstacle() {
    let grid = OccupancyGrid::new(8, 8);
    let a = MapPosition::new(0, 0);
    let b = MapPosition::new(7, 3);
    assert_eq!(a.obstacle_between(b, &grid), None);
    assert_eq!(b.obstacle_between(a, &grid), None);
}

#[test]
fn obstacle_on_line_is_reported_from_both_ends() {
    let mut grid = OccupancyGrid::new(8, 8);
    grid.block(3, 0);
    let a = MapPosition::new(0, 0);
    let b = MapPosition::new(7, 0);
    // Both directions see the same blocked line; the only wall cell on it
    // is the one reported, whichever end the walk starts from.
    assert_eq!(a.obstacle_between(b, &grid), Some(MapPosition::new(3, 0)));
    assert_eq!(b.obstacle_between(a, &grid), Some(MapPosition::new(3, 0)));
}

#[test]
fn nearest_obstacle_is_reported_first() {
    let mut grid = OccupancyGrid::new(8, 8);
    grid.block(2, 0);
    grid.block(5, 0);
    let a = MapPosition::new(0, 0);
    let b = MapPosition::new(7, 0);
    assert_eq!(a.obstacle_between(b, &grid), Some(MapPosition::new(2, 0)));
    assert_eq!(b.obstacle_between(a, &grid), Some(MapPosition::new(5, 0)));
}

#[test]
fn straight_path_on_open_grid() {
    let grid = OccupancyGrid::new(8, 8);
    let start = MapPosition::new(1, 1);
    let goal = MapPosition::new(5, 5);
    let path = start.find_path(goal, &grid).expect("open grid is reachable");
    assert_valid_path(&path, start, goal);
    // Diagonal steps cost one each: the shortest route takes 4 steps.
    assert_eq!(path.len(), 5);
}

#[test]
fn path_to_self_is_the_single_cell() {
    let grid = OccupancyGrid::new(8, 8);
    let start = MapPosition::new(3, 3);
    let path = start.find_path(start, &grid).expect("trivially reachable");
    assert_eq!(path, vec![start]);
}

#[test]
fn walled_off_goal_is_unreachable() {
    let mut grid = OccupancyGrid::new(5, 5);
    // A full vertical wall separates the two halves.
    for y in 0..5 {
        grid.block(2, y);
    }
    let start = MapPosition::new(0, 2);
    let goal = MapPosition::new(4, 2);
    assert_eq!(start.find_path(goal, &grid), None);
}

#[test]
fn wall_segment_forces_a_detour() {
    // A wall with a single gap at its bottom separates start and goal.
    let mut grid = OccupancyGrid::new(5, 5);
    grid.block(2, 0);
    grid.block(2, 1);
    grid.block(2, 2);
    grid.block(2, 3);
    let start = MapPosition::new(0, 0);
    let goal = MapPosition::new(4, 0);

    let path = start.find_path(goal, &grid).expect("the gap keeps it reachable");
    assert_valid_path(&path, start, goal);
    for p in &path[1..] {
        assert!(!p.is_occupied(&grid));
    }
    // The detour is strictly longer than the unobstructed Manhattan
    // distance between the endpoints.
    let steps = (path.len() - 1) as isize;
    assert!(steps > start.distance(goal));

    // The straight line between the same endpoints reports the wall cell.
    assert_eq!(start.obstacle_between(goal, &grid), Some(MapPosition::new(2, 0)));
}

#[test]
fn path_around_a_corner() {
    let mut grid = OccupancyGrid::new(6, 6);
    grid.block(1, 1);
    grid.block(2, 1);
    grid.block(3, 1);
    let start = MapPosition::new(2, 0);
    let goal = MapPosition::new(2, 3);
    let path = start.find_path(goal, &grid).expect("reachable around the block");
    assert_valid_path(&path, start, goal);
    for p in &path[1..] {
        assert!(!p.is_occupied(&grid));
    }
}
