//! Tile-grid spatial runtime: a wall-collision mesher that merges wall tiles
//! into a minimal list of rectangles, and a grid path planner that builds an
//! obstacle grid from the same walls and answers path requests over it.

use vstd::prelude::*;

pub mod convert;
pub mod mesher;
pub mod pathfind;

verus! {

/// A discrete tile coordinate, distinct from a continuous world position.
#[derive(Clone, Copy, PartialEq, Eq, Structural, Debug)]
pub struct GridCell {
    pub x: i32,
    pub y: i32,
}

impl GridCell {
    /// The coordinate pair as mathematical integers.
    pub open spec fn loc(self) -> (int, int) {
        (self.x as int, self.y as int)
    }

    /// The cell at column `x`, row `y`.
    pub fn new(x: i32, y: i32) -> (c: GridCell)
        ensures
            c.loc() == (x as int, y as int),
    {
        GridCell { x, y }
    }
}

} // verus!
