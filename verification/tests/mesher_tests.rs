use tilenav::GridCell;
use tilenav::mesher::{build_row_plates, collect_level_walls, mesh, rect_collider, Plate, Rect, WallSet};

fn wall_set(width: i32, height: i32, cells: &[(i32, i32)]) -> WallSet {
    let mut s = WallSet::new(width, height);
    for &(x, y) in cells {
        s.insert(GridCell::new(x, y));
    }
    s
}

#[test]
fn single_row_merges_into_one_rectangle() {
    let s = wall_set(5, 1, &[(0, 0), (1, 0), (2, 0), (3, 0), (4, 0)]);
    let rects = mesh(&s);
    assert_eq!(rects.len(), 1);
    assert_eq!(rects[0], Rect { left: 0, right: 4, bottom: 0, top: 0 });
}

#[test]
fn rows_split_by_a_gap_stay_separate() {
    let s = wall_set(2, 3, &[(0, 0), (1, 0), (0, 2), (1, 2)]);
    let rects = mesh(&s);
    assert_eq!(rects.len(), 2);
    assert_eq!(rects[0], Rect { left: 0, right: 1, bottom: 0, top: 0 });
    assert_eq!(rects[1], Rect { left: 0, right: 1, bottom: 2, top: 2 });
}

#[test]
fn identical_plates_merge_vertically() {
    let s = wall_set(4, 3, &[(1, 0), (2, 0), (1, 1), (2, 1), (1, 2), (2, 2)]);
    let rects = mesh(&s);
    assert_eq!(rects.len(), 1);
    assert_eq!(rects[0], Rect { left: 1, right: 2, bottom: 0, top: 2 });
}

#[test]
fn differing_widths_do_not_merge() {
    // an L shape: a two-cell base row and a single cell above its left end
    let s = wall_set(3, 2, &[(0, 0), (1, 0), (0, 1)]);
    let rects = mesh(&s);
    assert_eq!(rects.len(), 2);
    assert_eq!(rects[0], Rect { left: 0, right: 1, bottom: 0, top: 0 });
    assert_eq!(rects[1], Rect { left: 0, right: 0, bottom: 1, top: 1 });
}

#[test]
fn empty_wall_set_meshes_to_nothing() {
    let s = wall_set(8, 8, &[]);
    let rects = mesh(&s);
    assert_eq!(rects.len(), 0);
}

#[test]
fn meshing_twice_gives_an_identical_list() {
    let s = wall_set(
        6,
        4,
        &[(0, 0), (1, 0), (2, 0), (0, 1), (1, 1), (2, 1), (4, 0), (4, 1), (4, 2), (2, 3)],
    );
    let first = mesh(&s);
    let second = mesh(&s);
    assert_eq!(first, second);
}

#[test]
fn mesh_covers_exactly_the_walls() {
    let cells = [(0, 0), (1, 0), (2, 0), (1, 1), (2, 1), (4, 3), (5, 3), (4, 4), (5, 4)];
    let s = wall_set(6, 5, &cells);
    let rects = mesh(&s);
    let mut covered = 0usize;
    for y in 0..5 {
        for x in 0..6 {
            let n = rects
                .iter()
                .filter(|r| r.left <= x && x <= r.right && r.bottom <= y && y <= r.top)
                .count();
            let is_wall = cells.contains(&(x, y));
            // coverage: a wall cell lies in exactly one rectangle, a free
            // cell in none — this also checks non-overlap
            assert_eq!(n, if is_wall { 1 } else { 0 });
        }
    }
    for r in &rects {
        covered += ((r.right - r.left + 1) * (r.top - r.bottom + 1)) as usize;
    }
    assert_eq!(covered, cells.len());
}

#[test]
fn insert_rejects_cells_outside_the_grid() {
    let mut s = WallSet::new(4, 4);
    assert!(!s.insert(GridCell::new(-1, 0)));
    assert!(!s.insert(GridCell::new(0, 4)));
    assert!(!s.insert(GridCell::new(4, 0)));
    assert!(!s.contains(GridCell::new(-1, 0)));
    assert!(s.insert(GridCell::new(3, 3)));
    assert!(s.contains(GridCell::new(3, 3)));
    // a second insertion of the same cell reports no change
    assert!(!s.insert(GridCell::new(3, 3)));
}

#[test]
fn collect_splits_walls_along_level_boundaries() {
    let pairs: Vec<(u64, GridCell)> = vec![
        (1, GridCell::new(0, 0)),
        (2, GridCell::new(1, 1)),
        (1, GridCell::new(1, 0)),
        (1, GridCell::new(9, 9)), // outside the 3x3 level grid: rejected
        (1, GridCell::new(0, 0)), // duplicate: collapses
    ];
    let walls = collect_level_walls(1, &pairs, 3, 3);
    assert!(walls.contains(GridCell::new(0, 0)));
    assert!(walls.contains(GridCell::new(1, 0)));
    assert!(!walls.contains(GridCell::new(1, 1)));
    assert!(!walls.contains(GridCell::new(9, 9)));
    assert_eq!(walls.cell_count(), 2);
}

#[test]
fn collider_descriptor_matches_the_documented_formula() {
    let r = Rect { left: 0, right: 4, bottom: 0, top: 0 };
    let (w_px, h_px, cx2, cy2) = rect_collider(&r, 16);
    assert_eq!(w_px, 80);
    assert_eq!(h_px, 16);
    // the centre is half of the doubled coordinates: (40.0, 8.0)
    assert_eq!(cx2, 80);
    assert_eq!(cy2, 16);
    let r2 = Rect { left: 2, right: 3, bottom: 1, top: 4 };
    let (w2, h2, cx2b, cy2b) = rect_collider(&r2, 16);
    assert_eq!(w2, 32);
    assert_eq!(h2, 64);
    assert_eq!(cx2b, 96);
    assert_eq!(cy2b, 96);
}

#[test]
fn row_plates_are_the_maximal_runs_of_a_row() {
    let s = wall_set(8, 2, &[(0, 0), (1, 0), (3, 0), (6, 0), (7, 0), (2, 1)]);
    let plates = build_row_plates(&s, 0);
    assert_eq!(
        plates,
        vec![
            Plate { left: 0, right: 1 },
            Plate { left: 3, right: 3 },
            Plate { left: 6, right: 7 },
        ]
    );
    let empty = build_row_plates(&s, 5);
    assert!(empty.is_empty());
}
