use tilenav::GridCell;
use tilenav::convert::{grid_to_world, world_to_grid, WorldPos, WorldSize};

#[test]
fn points_inside_the_level_map_to_their_cell() {
    let origin = WorldPos { x: 32, y: -16 };
    let size = WorldSize { w: 160, h: 160 };
    let c = world_to_grid(origin, size, 16, WorldPos { x: 50, y: 1 });
    assert_eq!(c, GridCell::new(1, 1));
    let c2 = world_to_grid(origin, size, 16, WorldPos { x: 33, y: -15 });
    assert_eq!(c2, GridCell::new(0, 0));
}

#[test]
fn boundary_and_outside_points_map_to_the_sentinel() {
    let origin = WorldPos { x: 0, y: 0 };
    let size = WorldSize { w: 160, h: 160 };
    // boundary-touching points count as outside
    assert_eq!(world_to_grid(origin, size, 16, WorldPos { x: 0, y: 50 }), GridCell::new(0, 0));
    assert_eq!(world_to_grid(origin, size, 16, WorldPos { x: 160, y: 50 }), GridCell::new(0, 0));
    assert_eq!(world_to_grid(origin, size, 16, WorldPos { x: 50, y: -3 }), GridCell::new(0, 0));
    assert_eq!(world_to_grid(origin, size, 16, WorldPos { x: 999, y: 999 }), GridCell::new(0, 0));
}

#[test]
fn cell_centres_round_trip() {
    let origin = WorldPos { x: 64, y: -128 };
    let size = WorldSize { w: 160, h: 96 };
    for x in 0..10 {
        for y in 0..6 {
            let cell = GridCell::new(x, y);
            let p = grid_to_world(origin, 16, cell);
            assert_eq!(world_to_grid(origin, size, 16, p), cell);
        }
    }
}

#[test]
fn cell_centre_lies_at_the_documented_position() {
    let p = grid_to_world(WorldPos { x: 0, y: 0 }, 16, GridCell::new(2, 3));
    assert_eq!(p, WorldPos { x: 40, y: 56 });
}
