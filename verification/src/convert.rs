//! Conversion between continuous world-space positions (in pixels) and
//! discrete grid cells.
//!
//! A point strictly inside a level's bounds maps to the cell it falls in;
//! a point on or outside the boundary maps to the sentinel cell `(0, 0)`,
//! which callers must treat as "no reliable position" rather than a real
//! location.

use vstd::prelude::*;
use vstd::arithmetic::div_mod::lemma_fundamental_div_mod_converse;
use crate::GridCell;

verus! {

/// A world-space position in pixel units.
#[derive(Clone, Copy, PartialEq, Eq, Structural, Debug)]
pub struct WorldPos {
    pub x: i64,
    pub y: i64,
}

/// A level's world-space extent in pixel units.
#[derive(Clone, Copy, PartialEq, Eq, Structural, Debug)]
pub struct WorldSize {
    pub w: i64,
    pub h: i64,
}

/// Whether `p` lies strictly inside the level whose origin is `origin` and
/// whose extent is `size`. Boundary-touching points count as outside.
pub open spec fn inside_level(origin: WorldPos, size: WorldSize, p: WorldPos) -> bool {
    &&& origin.x < p.x < origin.x + size.w
    &&& origin.y < p.y < origin.y + size.h
}

/// The cell coordinates that `world_to_grid` returns, as integers:
/// the containing cell for a point strictly inside the level, and the
/// sentinel `(0, 0)` otherwise.
pub open spec fn spec_world_to_grid(
    origin: WorldPos,
    size: WorldSize,
    cell_size: i64,
    p: WorldPos,
) -> (int, int) {
    if inside_level(origin, size, p) {
        ((p.x - origin.x) / (cell_size as int), (p.y - origin.y) / (cell_size as int))
    } else {
        (0, 0)
    }
}

/// The world-space centre of a cell, as integers.
pub open spec fn spec_grid_to_world(origin: WorldPos, cell_size: i64, cell: GridCell) -> (
    int,
    int,
) {
    (
        origin.x + cell.x * cell_size + cell_size / 2,
        origin.y + cell.y * cell_size + cell_size / 2,
    )
}

/// Maps a world position to the grid cell containing it, or to the sentinel
/// cell `(0, 0)` when the position does not lie strictly inside the level.
pub fn world_to_grid(origin: WorldPos, size: WorldSize, cell_size: i64, p: WorldPos) -> (c:
    GridCell)
    requires
        1 <= cell_size,
        0 <= size.w <= 0x7fff_ffff,
        0 <= size.h <= 0x7fff_ffff,
        origin.x + size.w <= i64::MAX,
        origin.y + size.h <= i64::MAX,
    ensures
        c.loc() == spec_world_to_grid(origin, size, cell_size, p),
{
    if p.x > origin.x && p.x < origin.x + size.w && p.y > origin.y && p.y < origin.y + size.h {
        let dx = (p.x - origin.x) as u64;
        let dy = (p.y - origin.y) as u64;
        let cx = dx / (cell_size as u64);
        let cy = dy / (cell_size as u64);
        GridCell { x: cx as i32, y: cy as i32 }
    } else {
        GridCell { x: 0, y: 0 }
    }
}

/// Maps a grid cell to the world position of its centre.
pub fn grid_to_world(origin: WorldPos, cell_size: i64, cell: GridCell) -> (p: WorldPos)
    requires
        1 <= cell_size,
        0 <= cell.x,
        0 <= cell.y,
        (cell.x + 1) * cell_size <= i64::MAX,
        (cell.y + 1) * cell_size <= i64::MAX,
        origin.x + (cell.x + 1) * cell_size <= i64::MAX,
        origin.y + (cell.y + 1) * cell_size <= i64::MAX,
    ensures
        p.x == spec_grid_to_world(origin, cell_size, cell).0,
        p.y == spec_grid_to_world(origin, cell_size, cell).1,
{
    proof {
        let cs = cell_size as int;
        assert(cell.x * cs + cs / 2 < (cell.x + 1) * cs) by (nonlinear_arith)
            requires
                1 <= cs,
                0 <= cell.x,
        ;
        assert(cell.y * cs + cs / 2 < (cell.y + 1) * cs) by (nonlinear_arith)
            requires
                1 <= cs,
                0 <= cell.y,
        ;
        assert(0 <= cell.x * cs) by (nonlinear_arith)
            requires
                1 <= cs,
                0 <= cell.x,
        ;
        assert(0 <= cell.y * cs) by (nonlinear_arith)
            requires
                1 <= cs,
                0 <= cell.y,
        ;
    }
    let half = cell_size / 2;
    WorldPos {
        x: origin.x + (cell.x as i64) * cell_size + half,
        y: origin.y + (cell.y as i64) * cell_size + half,
    }
}

/// Round trip: converting a cell that lies strictly inside the level bounds
/// to its world-space centre and back yields the same cell.
pub proof fn lemma_conversion_round_trip(
    origin: WorldPos,
    size: WorldSize,
    cell_size: i64,
    cell: GridCell,
)
    requires
        2 <= cell_size,
        0 <= cell.x,
        0 <= cell.y,
        (cell.x + 1) * cell_size <= size.w,
        (cell.y + 1) * cell_size <= size.h,
        size.w <= 0x7fff_ffff,
        size.h <= 0x7fff_ffff,
        origin.x + size.w <= i64::MAX,
        origin.y + size.h <= i64::MAX,
    ensures
        ({
            let p = spec_grid_to_world(origin, cell_size, cell);
            spec_world_to_grid(origin, size, cell_size, (WorldPos { x: p.0 as i64, y: p.1 as i64 }))
                == cell.loc()
        }),
{
    let cs = cell_size as int;
    let px = origin.x + cell.x * cs + cs / 2;
    let py = origin.y + cell.y * cs + cs / 2;
    assert(0 < cell.x * cs + cs / 2 < (cell.x + 1) * cs) by (nonlinear_arith)
        requires
            2 <= cs,
            0 <= cell.x,
    ;
    assert(0 < cell.y * cs + cs / 2 < (cell.y + 1) * cs) by (nonlinear_arith)
        requires
            2 <= cs,
            0 <= cell.y,
    ;
    assert((cell.x + 1) * cs <= size.w && (cell.y + 1) * cs <= size.h);
    assert(origin.x < px < origin.x + size.w);
    assert(origin.y < py < origin.y + size.h);
    assert(i64::MIN <= px <= i64::MAX);
    assert(i64::MIN <= py <= i64::MAX);
    let q = WorldPos { x: px as i64, y: py as i64 };
    assert(q.x == px && q.y == py);
    assert(inside_level(origin, size, q));
    lemma_fundamental_div_mod_converse(cell.x * cs + cs / 2, cs, cell.x as int, cs / 2);
    lemma_fundamental_div_mod_converse(cell.y * cs + cs / 2, cs, cell.y as int, cs / 2);
    assert((q.x - origin.x) / cs == cell.x);
    assert((q.y - origin.y) / cs == cell.y);
}

} // verus!
