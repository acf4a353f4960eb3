use tilenav::GridCell;
use tilenav::convert::{WorldPos, WorldSize};
use tilenav::mesher::WallSet;
use tilenav::pathfind::{check_path, grid_dimensions, plan_agent_path, plan_path, LevelNav, ObstacleGrid};

fn wall_set(width: i32, height: i32, cells: &[(i32, i32)]) -> WallSet {
    let mut s = WallSet::new(width, height);
    for &(x, y) in cells {
        s.insert(GridCell::new(x, y));
    }
    s
}

fn adjacent8(a: GridCell, b: GridCell) -> bool {
    let dx = (b.x - a.x).abs();
    let dy = (b.y - a.y).abs();
    dx <= 1 && dy <= 1 && !(dx == 0 && dy == 0)
}

#[test]
fn grid_dimensions_truncate_pixel_sizes() {
    assert_eq!(grid_dimensions(32, 32, 16), (2, 2));
    assert_eq!(grid_dimensions(47, 33, 16), (2, 2));
    assert_eq!(grid_dimensions(0, 160, 16), (0, 10));
}

#[test]
fn obstacle_grid_mirrors_the_wall_set() {
    let walls = wall_set(4, 3, &[(1, 0), (2, 2)]);
    let grid = ObstacleGrid::from_walls(&walls);
    assert_eq!(grid.width(), 4);
    assert_eq!(grid.height(), 3);
    assert!(grid.is_obstacle(GridCell::new(1, 0)));
    assert!(grid.is_obstacle(GridCell::new(2, 2)));
    assert!(!grid.is_obstacle(GridCell::new(0, 0)));
    assert!(!grid.is_obstacle(GridCell::new(3, 2)));
}

#[test]
fn straight_path_on_an_open_map() {
    let walls = wall_set(10, 10, &[]);
    let grid = ObstacleGrid::from_walls(&walls);
    let path = plan_path(&grid, GridCell::new(0, 0), GridCell::new(5, 0));
    assert_eq!(path.len(), 6);
    assert_eq!(path[0], GridCell::new(0, 0));
    assert_eq!(path[5], GridCell::new(5, 0));
    for w in path.windows(2) {
        assert!(adjacent8(w[0], w[1]));
    }
}

#[test]
fn path_routes_around_a_wall() {
    // a vertical wall with no opening between the two columns it separates
    let walls = wall_set(10, 3, &[(3, 0), (3, 1), (3, 2)]);
    let grid = ObstacleGrid::from_walls(&walls);
    let path = plan_path(&grid, GridCell::new(0, 1), GridCell::new(6, 1));
    // the wall spans the full height, so the goal is unreachable: fallback
    assert_eq!(path.len(), 1);
    assert_eq!(path[0], GridCell::new(0, 0));
}

#[test]
fn path_threads_through_an_opening() {
    // the wall leaves an opening at (3, 0)
    let walls = wall_set(10, 3, &[(3, 1), (3, 2)]);
    let grid = ObstacleGrid::from_walls(&walls);
    let path = plan_path(&grid, GridCell::new(0, 1), GridCell::new(6, 1));
    assert!(path.len() > 1);
    assert_eq!(path[0], GridCell::new(0, 1));
    assert_eq!(*path.last().unwrap(), GridCell::new(6, 1));
    for w in path.windows(2) {
        assert!(adjacent8(w[0], w[1]));
    }
    for c in path.iter().skip(1) {
        assert!(!grid.is_obstacle(*c));
    }
}

#[test]
fn surrounded_goal_falls_back_to_the_origin() {
    let ring = [(1, 1), (2, 1), (3, 1), (1, 2), (3, 2), (1, 3), (2, 3), (3, 3)];
    let walls = wall_set(8, 8, &ring);
    let grid = ObstacleGrid::from_walls(&walls);
    let path = plan_path(&grid, GridCell::new(6, 6), GridCell::new(2, 2));
    assert_eq!(path.len(), 1);
    assert_eq!(path[0], GridCell::new(0, 0));
}

#[test]
fn identical_start_and_goal_fall_back_to_the_origin() {
    let walls = wall_set(5, 5, &[]);
    let grid = ObstacleGrid::from_walls(&walls);
    let path = plan_path(&grid, GridCell::new(3, 3), GridCell::new(3, 3));
    assert_eq!(path.len(), 1);
    assert_eq!(path[0], GridCell::new(0, 0));
}

#[test]
fn planning_cycle_converts_world_positions() {
    let walls = wall_set(10, 10, &[]);
    let grid = ObstacleGrid::from_walls(&walls);
    let origin = WorldPos { x: 0, y: 0 };
    let size = WorldSize { w: 160, h: 160 };
    // agent in cell (1, 1), target in cell (5, 1)
    let path = plan_agent_path(
        &grid,
        origin,
        size,
        16,
        WorldPos { x: 24, y: 24 },
        WorldPos { x: 88, y: 24 },
    );
    assert_eq!(path[0], GridCell::new(1, 1));
    assert_eq!(*path.last().unwrap(), GridCell::new(5, 1));
    for w in path.windows(2) {
        assert!(adjacent8(w[0], w[1]));
    }
}

#[test]
fn out_of_bounds_agent_position_degrades_to_the_fallback() {
    let walls = wall_set(10, 10, &[]);
    let grid = ObstacleGrid::from_walls(&walls);
    let origin = WorldPos { x: 0, y: 0 };
    let size = WorldSize { w: 160, h: 160 };
    // the agent stands outside the level, so its position converts to the
    // sentinel cell (0, 0); the target converts to (0, 0) as well, and an
    // identical start and goal yield the fallback
    let path = plan_agent_path(
        &grid,
        origin,
        size,
        16,
        WorldPos { x: -5, y: 24 },
        WorldPos { x: 200, y: 24 },
    );
    assert_eq!(path.len(), 1);
    assert_eq!(path[0], GridCell::new(0, 0));
}

#[test]
fn level_nav_builds_the_grid_once_and_replans_identically() {
    let walls = wall_set(10, 3, &[(3, 1), (3, 2)]);
    let mut nav = LevelNav::new(walls);
    let first = nav.plan(GridCell::new(0, 1), GridCell::new(6, 1));
    let second = nav.plan(GridCell::new(0, 1), GridCell::new(6, 1));
    assert_eq!(first, second);
    assert!(first.len() > 1);
    assert_eq!(first[0], GridCell::new(0, 1));
    assert_eq!(*first.last().unwrap(), GridCell::new(6, 1));
    // the wall set is still available for meshing
    let rects = tilenav::mesher::mesh(nav.walls());
    assert_eq!(rects.len(), 1);
}

#[test]
fn check_path_judges_candidates_exactly() {
    let walls = wall_set(5, 5, &[(2, 2)]);
    let grid = ObstacleGrid::from_walls(&walls);
    let a = GridCell::new(0, 0);
    let b = GridCell::new(2, 1);
    let good = vec![GridCell::new(0, 0), GridCell::new(1, 1), GridCell::new(2, 1)];
    assert!(check_path(&grid, &good, a, b));
    // endpoints must match the request
    assert!(!check_path(&grid, &good, GridCell::new(1, 1), b));
    assert!(!check_path(&grid, &good, a, GridCell::new(1, 1)));
    // a step of two columns is no king move
    let jump = vec![GridCell::new(0, 0), GridCell::new(2, 0)];
    assert!(!check_path(&grid, &jump, a, GridCell::new(2, 0)));
    // a path through the wall cell is rejected
    let through = vec![GridCell::new(1, 1), GridCell::new(2, 2), GridCell::new(3, 3)];
    assert!(!check_path(&grid, &through, GridCell::new(1, 1), GridCell::new(3, 3)));
    // a path leaving the grid is rejected
    let outside = vec![GridCell::new(0, 0), GridCell::new(-1, 0)];
    assert!(!check_path(&grid, &outside, a, GridCell::new(-1, 0)));
}
