//! Obstacle grid and path planner.
//!
//! The obstacle grid mirrors a level's wall set as a passability field and is
//! the search space handed to the pathfinder. Planning runs an outside A*
//! search and then checks the candidate in verified code: the planner's
//! result is either a checked path — adjacent steps, every cell after the
//! start inside the grid and passable — or the single-cell fallback path to
//! the origin, which is also what an unreachable or identical goal yields.
//! A goal reachable from a distinct start always yields a real path; the
//! fallback is never returned in its place.

use vstd::prelude::*;
use sark_pathfinding::AStar;
use sark_pathfinding::PathMap2d;
use crate::GridCell;
use crate::mesher::WallSet;

verus! {

#[verifier::external_type_specification]
#[verifier::external_body]
pub struct ExPathMap2d(PathMap2d);

#[verifier::external_type_specification]
#[verifier::external_body]
#[verifier::reject_recursive_types(T)]
pub struct ExAStar<T: Eq + core::hash::Hash + Copy>(AStar<T>);

/// The width and height the outside obstacle map was created with.
pub uninterp spec fn pm_size(m: PathMap2d) -> (int, int);

/// The set of tile indices (row-major: `y * width + x`) that the outside
/// obstacle map currently marks impassable.
pub uninterp spec fn pm_blocked(m: PathMap2d) -> Set<int>;

/// The outside pathfinder holds no state from an earlier search.
pub uninterp spec fn astar_fresh(a: AStar<[i32; 2]>) -> bool;

/// The outside obstacle map's impassable cells, as coordinates.
pub open spec fn pm_blocked_cells(m: PathMap2d) -> Set<(int, int)> {
    Set::new(
        |p: (int, int)|
            0 <= p.0 < pm_size(m).0 && 0 <= p.1 < pm_size(m).1 && pm_blocked(m).contains(
                cell_index(pm_size(m).0, p),
            ),
    )
}

/// Relies on sark_pathfinding::PathMap2d::new: allocates a width-by-height
/// map with every tile initially passable.
#[verifier::external_body]
fn pm_new(width: u32, height: u32) -> (m: PathMap2d)
    requires
        width <= 0x8000,
        height <= 0x8000,
    ensures
        pm_size(m) == (width as int, height as int),
        pm_blocked(m) == Set::<int>::empty(),
{
    PathMap2d::new([width, height])
}

/// Relies on sark_pathfinding::PathMap2d::toggle_obstacle_index: flips the
/// passability of the tile at one row-major index.
#[verifier::external_body]
fn pm_toggle_index(m: &mut PathMap2d, i: usize)
    requires
        i < pm_size(*old(m)).0 * pm_size(*old(m)).1,
    ensures
        pm_size(*final(m)) == pm_size(*old(m)),
        pm_blocked(*final(m)) == if pm_blocked(*old(m)).contains(i as int) {
            pm_blocked(*old(m)).remove(i as int)
        } else {
            pm_blocked(*old(m)).insert(i as int)
        },
{
    m.toggle_obstacle_index(i)
}

/// Relies on sark_pathfinding::PathMap2d::is_obstacle_index: reads the tile
/// at one row-major index.
#[verifier::external_body]
fn pm_is_obstacle_index(m: &PathMap2d, i: usize) -> (r: bool)
    requires
        i < pm_size(*m).0 * pm_size(*m).1,
    ensures
        r == pm_blocked(*m).contains(i as int),
{
    m.is_obstacle_index(i)
}

/// Relies on sark_pathfinding::AStar::from_size: a pathfinder whose internal
/// containers start empty.
#[verifier::external_body]
fn astar_new(width: u32, height: u32) -> (a: AStar<[i32; 2]>)
    requires
        width <= 0x8000,
        height <= 0x8000,
    ensures
        astar_fresh(a),
{
    AStar::from_size([width, height])
}

/// Relies on sark_pathfinding::AStar::find_path: searches the map for a path
/// from `start` to `goal` and hands back a copy of the cells, or `None` only
/// when no path exists. A returned path steps through the map's exits — the
/// in-bounds, passable eight-way neighbours — from `start` to `goal`; and
/// whenever such a path exists at all (and the endpoints differ), the search
/// finds one, since it exhausts every reachable cell before giving up.
#[verifier::external_body]
fn astar_find_path(
    a: &mut AStar<[i32; 2]>,
    m: &PathMap2d,
    start: GridCell,
    goal: GridCell,
) -> (r: Option<Vec<GridCell>>)
    requires
        astar_fresh(*old(a)),
        pm_size(*m).0 <= 0x8000,
        pm_size(*m).1 <= 0x8000,
        -0x10_0000 <= start.x <= 0x10_0000,
        -0x10_0000 <= start.y <= 0x10_0000,
        -0x10_0000 <= goal.x <= 0x10_0000,
        -0x10_0000 <= goal.y <= 0x10_0000,
    ensures
        match r {
            Some(p) => valid_path(
                pm_blocked_cells(*m),
                pm_size(*m).0,
                pm_size(*m).1,
                p@,
                start,
                goal,
            ),
            None => true,
        },
        (start != goal && exists|q: Seq<GridCell>|
            valid_path(pm_blocked_cells(*m), pm_size(*m).0, pm_size(*m).1, q, start, goal))
            ==> r is Some,
{
    a.find_path(m, [start.x, start.y], [goal.x, goal.y]).map(
        |p: &Vec<[i32; 2]>| p.iter().map(|q: &[i32; 2]| GridCell { x: q[0], y: q[1] }).collect(),
    )
}

/// Row-major tile index of a cell in a grid `w` cells wide.
pub open spec fn cell_index(w: int, p: (int, int)) -> int {
    p.1 * w + p.0
}

proof fn lemma_cell_index_inj(w: int, p1: (int, int), p2: (int, int))
    requires
        0 <= p1.0 < w,
        0 <= p2.0 < w,
        cell_index(w, p1) == cell_index(w, p2),
    ensures
        p1 == p2,
{
    if p1.1 != p2.1 {
        assert(false) by (nonlinear_arith)
            requires
                0 <= p1.0 < w,
                0 <= p2.0 < w,
                p1.1 * w + p1.0 == p2.1 * w + p2.0,
                p1.1 != p2.1,
        ;
    }
}

proof fn lemma_cell_index_bounds(w: int, h: int, p: (int, int))
    requires
        0 <= p.0 < w,
        0 <= p.1 < h,
    ensures
        0 <= cell_index(w, p) < w * h,
{
    assert(0 <= p.1 * w + p.0 < w * h) by (nonlinear_arith)
        requires
            0 <= p.0 < w,
            0 <= p.1 < h,
    ;
}

/// A cell an agent may stand on: inside the `w` by `h` grid and not one of
/// the blocked cells.
pub open spec fn cell_open(blocked: Set<(int, int)>, w: int, h: int, p: (int, int)) -> bool {
    &&& 0 <= p.0 < w
    &&& 0 <= p.1 < h
    &&& !blocked.contains(p)
}

/// A level's passability field: one boolean per grid cell, `true` marking an
/// impassable cell, built once from the level's wall set.
pub struct ObstacleGrid {
    map: PathMap2d,
    width: i32,
    height: i32,
}

impl ObstacleGrid {
    /// Grid width in cells.
    pub closed spec fn grid_width(self) -> int {
        self.width as int
    }

    /// Grid height in cells.
    pub closed spec fn grid_height(self) -> int {
        self.height as int
    }

    /// Dimensions are in range and match the underlying map.
    pub closed spec fn wf(self) -> bool {
        &&& 0 <= self.width <= 0x8000
        &&& 0 <= self.height <= 0x8000
        &&& pm_size(self.map) == (self.width as int, self.height as int)
    }

    /// The set of impassable cells, as coordinates.
    pub closed spec fn blocked(self) -> Set<(int, int)> {
        Set::new(
            |p: (int, int)|
                0 <= p.0 < self.grid_width() && 0 <= p.1 < self.grid_height() && pm_blocked(
                    self.map,
                ).contains(cell_index(self.grid_width(), p)),
        )
    }

    /// A cell an agent may stand on: inside the grid and not impassable.
    pub open spec fn passable(self, p: (int, int)) -> bool {
        cell_open(self.blocked(), self.grid_width(), self.grid_height(), p)
    }

    /// Grid width in cells.
    pub fn width(&self) -> (w: i32)
        ensures
            w as int == self.grid_width(),
    {
        self.width
    }

    /// Grid height in cells.
    pub fn height(&self) -> (h: i32)
        ensures
            h as int == self.grid_height(),
    {
        self.height
    }

    /// Builds the obstacle grid that mirrors a level's wall set: the grid has
    /// the wall set's dimensions and blocks exactly the wall cells.
    pub fn from_walls(walls: &WallSet) -> (g: ObstacleGrid)
        requires
            walls.wf(),
        ensures
            g.wf(),
            g.grid_width() == walls.grid_width(),
            g.grid_height() == walls.grid_height(),
            g.blocked() == walls@,
    {
        proof {
            walls.lemma_wf_bounded();
            walls.lemma_cell_list();
        }
        let w = walls.width();
        let h = walls.height();
        let mut map = pm_new(w as u32, h as u32);
        let n = walls.cell_count();
        let mut i: usize = 0;
        while i < n
            invariant
                walls.wf(),
                w as int == walls.grid_width(),
                h as int == walls.grid_height(),
                0 <= w <= 0x8000,
                0 <= h <= 0x8000,
                n == walls.cell_list().len(),
                0 <= i <= n,
                pm_size(map) == (w as int, h as int),
                forall|t: int|
                    pm_blocked(map).contains(t) <==> exists|k: int|
                        0 <= k < i && cell_index(w as int, #[trigger] walls.cell_list()[k]) == t,
                forall|k: int|
                    0 <= k < walls.cell_list().len() ==> {
                        let p = #[trigger] walls.cell_list()[k];
                        0 <= p.0 < w && 0 <= p.1 < h
                    },
                forall|k1: int, k2: int|
                    0 <= k1 < k2 < walls.cell_list().len() ==> walls.cell_list()[k1]
                        != walls.cell_list()[k2],
            decreases n - i,
        {
            let c = walls.cell_at(i);
            proof {
                let p = walls.cell_list()[i as int];
                lemma_cell_index_bounds(w as int, h as int, p);
                assert(0 <= (c.y as int) * (w as int) + (c.x as int) < (w as int) * (h as int));
                assert(w as int * h as int <= 0x8000 * 0x8000) by (nonlinear_arith)
                    requires
                        0 <= w <= 0x8000,
                        0 <= h <= 0x8000,
                ;
                if pm_blocked(map).contains(cell_index(w as int, p)) {
                    let k = choose|k: int|
                        0 <= k < i && cell_index(w as int, #[trigger] walls.cell_list()[k])
                            == cell_index(w as int, p);
                    lemma_cell_index_inj(w as int, walls.cell_list()[k], p);
                    assert(false);
                }
            }
            let idx: usize = (c.y as usize) * (w as usize) + (c.x as usize);
            pm_toggle_index(&mut map, idx);
            proof {
                let p = walls.cell_list()[i as int];
                assert(idx as int == cell_index(w as int, p));
                assert forall|t: int| pm_blocked(map).contains(t) implies exists|k: int|
                    0 <= k < i + 1 && cell_index(w as int, #[trigger] walls.cell_list()[k])
                        == t by {
                    if t != cell_index(w as int, p) {
                        let k = choose|k: int|
                            0 <= k < i && cell_index(w as int, #[trigger] walls.cell_list()[k])
                                == t;
                        assert(0 <= k < i + 1 && cell_index(w as int, walls.cell_list()[k]) == t);
                    } else {
                        assert(cell_index(w as int, walls.cell_list()[i as int]) == t);
                    }
                }
            }
            i += 1;
        }
        let g = ObstacleGrid { map, width: w, height: h };
        proof {
            assert forall|p: (int, int)| g.blocked().contains(p) implies walls@.contains(p) by {
                let t = cell_index(w as int, p);
                let k = choose|k: int|
                    0 <= k < n && cell_index(w as int, #[trigger] walls.cell_list()[k]) == t;
                lemma_cell_index_inj(w as int, walls.cell_list()[k], p);
                assert(walls.cell_list().contains(p));
            }
            assert forall|p: (int, int)| walls@.contains(p) implies g.blocked().contains(p) by {
                assert(walls.cell_list().contains(p));
                let k = choose|k: int| 0 <= k < n && walls.cell_list()[k] == p;
                assert(cell_index(w as int, walls.cell_list()[k]) == cell_index(w as int, p));
            }
            assert(g.blocked() =~= walls@);
        }
        g
    }

    /// Whether the cell is marked impassable.
    pub fn is_obstacle(&self, c: GridCell) -> (r: bool)
        requires
            self.wf(),
            0 <= c.x < self.grid_width(),
            0 <= c.y < self.grid_height(),
        ensures
            r == self.blocked().contains(c.loc()),
    {
        proof {
            lemma_cell_index_bounds(self.grid_width(), self.grid_height(), c.loc());
            assert(self.grid_width() * self.grid_height() <= 0x8000 * 0x8000) by (nonlinear_arith)
                requires
                    0 <= self.grid_width() <= 0x8000,
                    0 <= self.grid_height() <= 0x8000,
            ;
        }
        let idx: usize = (c.y as usize) * (self.width as usize) + (c.x as usize);
        pm_is_obstacle_index(&self.map, idx)
    }
}

/// Grid dimensions of a level: its pixel dimensions divided by the cell
/// size, truncating — pixels past the last whole cell are not part of the
/// grid.
pub fn grid_dimensions(px_width: i32, px_height: i32, cell_size: i32) -> (dims: (i32, i32))
    requires
        1 <= cell_size,
        0 <= px_width,
        0 <= px_height,
    ensures
        dims.0 == px_width as int / cell_size as int,
        dims.1 == px_height as int / cell_size as int,
{
    let w = (px_width as u32) / (cell_size as u32);
    let h = (px_height as u32) / (cell_size as u32);
    (w as i32, h as i32)
}

/// Two cells one king-move apart: distinct, and each coordinate differs by
/// at most one.
pub open spec fn adjacent8(a: (int, int), b: (int, int)) -> bool {
    &&& -1 <= b.0 - a.0 <= 1
    &&& -1 <= b.1 - a.1 <= 1
    &&& !(b.0 == a.0 && b.1 == a.1)
}

/// A usable agent path over a `w` by `h` grid whose blocked cells are
/// `blocked`: it starts at `start`, ends at `goal`, each step moves to an
/// adjacent cell, and every cell after the start lies inside the grid and
/// off the blocked cells.
pub open spec fn valid_path(
    blocked: Set<(int, int)>,
    w: int,
    h: int,
    path: Seq<GridCell>,
    start: GridCell,
    goal: GridCell,
) -> bool {
    &&& path.len() >= 1
    &&& path[0] == start
    &&& path[path.len() - 1] == goal
    &&& forall|i: int|
        0 <= i < path.len() - 1 ==> adjacent8(#[trigger] path[i].loc(), path[i + 1].loc())
    &&& forall|i: int| 1 <= i < path.len() ==> cell_open(blocked, w, h, #[trigger] path[i].loc())
}

/// The planner's fallback: the single-cell path to the origin.
pub open spec fn fallback_path() -> Seq<GridCell> {
    seq![GridCell { x: 0, y: 0 }]
}

/// Checks a candidate path against the grid: step adjacency, endpoints, and
/// passability of every cell after the start. This is the judgement the
/// planner applies to whatever the outside search hands back.
pub fn check_path(grid: &ObstacleGrid, path: &Vec<GridCell>, start: GridCell, goal: GridCell) -> (ok:
    bool)
    requires
        grid.wf(),
    ensures
        ok == valid_path(grid.blocked(), grid.grid_width(), grid.grid_height(), path@, start, goal),
{
    let n = path.len();
    if n == 0 {
        return false;
    }
    if !(path[0].x == start.x && path[0].y == start.y) {
        return false;
    }
    if !(path[n - 1].x == goal.x && path[n - 1].y == goal.y) {
        return false;
    }
    let mut i: usize = 0;
    while i + 1 < n
        invariant
            n == path@.len(),
            0 <= i < n,
            forall|k: int| 0 <= k < i ==> adjacent8(#[trigger] path@[k].loc(), path@[k + 1].loc()),
        decreases n - i,
    {
        let dx = (path[i + 1].x as i64) - (path[i].x as i64);
        let dy = (path[i + 1].y as i64) - (path[i].y as i64);
        if !(-1 <= dx && dx <= 1 && -1 <= dy && dy <= 1 && !(dx == 0 && dy == 0)) {
            proof {
                assert(!adjacent8(path@[i as int].loc(), path@[i as int + 1].loc()));
            }
            return false;
        }
        i += 1;
    }
    let mut j: usize = 1;
    while j < n
        invariant
            grid.wf(),
            n == path@.len(),
            1 <= j <= n,
            forall|k: int| 1 <= k < j ==> grid.passable(#[trigger] path@[k].loc()),
        decreases n - j,
    {
        let c = path[j];
        if !(c.x >= 0 && c.y >= 0) {
            proof {
                assert(!grid.passable(path@[j as int].loc()));
            }
            return false;
        }
        if !(c.x < grid.width() && c.y < grid.height()) {
            proof {
                assert(!grid.passable(path@[j as int].loc()));
            }
            return false;
        }
        if grid.is_obstacle(c) {
            proof {
                assert(!grid.passable(path@[j as int].loc()));
            }
            return false;
        }
        j += 1;
    }
    true
}

/// Answers one path request over the obstacle grid.
///
/// The result is either a checked path from `start` to `goal` — adjacent
/// steps, every cell after the start passable — or the single-cell fallback
/// path to the origin, which is what an unreachable goal or an identical
/// start and goal yield; whenever the goal is reachable at all from a
/// distinct start, a real path comes back. The search favours short paths
/// but its heuristic does not guarantee minimal length under the eight-way
/// movement model, so the contract states reachability and validity, not
/// minimality. The previous path, if any, is simply replaced: planning owns
/// no state across cycles.
pub fn plan_path(grid: &ObstacleGrid, start: GridCell, goal: GridCell) -> (path: Vec<GridCell>)
    requires
        grid.wf(),
        -0x10_0000 <= start.x <= 0x10_0000,
        -0x10_0000 <= start.y <= 0x10_0000,
        -0x10_0000 <= goal.x <= 0x10_0000,
        -0x10_0000 <= goal.y <= 0x10_0000,
    ensures
        path@ == fallback_path() || valid_path(
            grid.blocked(),
            grid.grid_width(),
            grid.grid_height(),
            path@,
            start,
            goal,
        ),
        start == goal ==> path@ == fallback_path(),
        forall|i: int|
            0 <= i < path@.len() - 1 ==> adjacent8(#[trigger] path@[i].loc(), path@[i + 1].loc()),
        forall|i: int|
            1 <= i < path@.len() - 1 ==> cell_open(
                grid.blocked(),
                grid.grid_width(),
                grid.grid_height(),
                #[trigger] path@[i].loc(),
            ),
        (start != goal && exists|q: Seq<GridCell>|
            valid_path(grid.blocked(), grid.grid_width(), grid.grid_height(), q, start, goal))
            ==> valid_path(grid.blocked(), grid.grid_width(), grid.grid_height(), path@, start, goal),
{
    if start.x == goal.x && start.y == goal.y {
        let mut fb: Vec<GridCell> = Vec::new();
        fb.push(GridCell { x: 0, y: 0 });
        proof {
            assert(fb@ =~= fallback_path());
        }
        return fb;
    }
    let mut astar = astar_new(grid.width() as u32, grid.height() as u32);
    let found = astar_find_path(&mut astar, &grid.map, start, goal);
    proof {
        assert(grid.blocked() =~= pm_blocked_cells(grid.map));
    }
    match found {
        Some(p) => {
            if check_path(grid, &p, start, goal) {
                return p;
            }
        },
        None => {},
    }
    proof {
        if exists|q: Seq<GridCell>|
            valid_path(grid.blocked(), grid.grid_width(), grid.grid_height(), q, start, goal) {
            let q = choose|q: Seq<GridCell>|
                valid_path(grid.blocked(), grid.grid_width(), grid.grid_height(), q, start, goal);
            assert(valid_path(
                pm_blocked_cells(grid.map),
                pm_size(grid.map).0,
                pm_size(grid.map).1,
                q,
                start,
                goal,
            ));
            assert(false);
        }
    }
    let mut fb: Vec<GridCell> = Vec::new();
    fb.push(GridCell { x: 0, y: 0 });
    proof {
        assert(fb@ =~= fallback_path());
    }
    fb
}

/// One full planning cycle for an autonomous agent: converts the agent's and
/// the target's world positions to grid cells and answers the path request.
/// A position outside the level converts to the origin sentinel, so the
/// result degrades to the fallback rather than failing.
pub fn plan_agent_path(
    grid: &ObstacleGrid,
    origin: crate::convert::WorldPos,
    size: crate::convert::WorldSize,
    cell_size: i64,
    agent: crate::convert::WorldPos,
    target: crate::convert::WorldPos,
) -> (path: Vec<GridCell>)
    requires
        grid.wf(),
        1 <= cell_size,
        0 <= size.w <= 0x10_0000,
        0 <= size.h <= 0x10_0000,
        origin.x + size.w <= i64::MAX,
        origin.y + size.h <= i64::MAX,
    ensures
        ({
            let s = crate::convert::spec_world_to_grid(origin, size, cell_size, agent);
            let g2 = crate::convert::spec_world_to_grid(origin, size, cell_size, target);
            &&& (path@ == fallback_path() || valid_path(
                grid.blocked(),
                grid.grid_width(),
                grid.grid_height(),
                path@,
                (GridCell { x: s.0 as i32, y: s.1 as i32 }),
                (GridCell { x: g2.0 as i32, y: g2.1 as i32 }),
            ))
            &&& (s == g2 ==> path@ == fallback_path())
            &&& ((s != g2 && exists|q: Seq<GridCell>|
                #[trigger] valid_path(
                    grid.blocked(),
                    grid.grid_width(),
                    grid.grid_height(),
                    q,
                    (GridCell { x: s.0 as i32, y: s.1 as i32 }),
                    (GridCell { x: g2.0 as i32, y: g2.1 as i32 }),
                )) ==> valid_path(
                grid.blocked(),
                grid.grid_width(),
                grid.grid_height(),
                path@,
                (GridCell { x: s.0 as i32, y: s.1 as i32 }),
                (GridCell { x: g2.0 as i32, y: g2.1 as i32 }),
            ))
        }),
{
    let start = crate::convert::world_to_grid(origin, size, cell_size, agent);
    let goal = crate::convert::world_to_grid(origin, size, cell_size, target);
    proof {
        if crate::convert::inside_level(origin, size, agent) {
            vstd::arithmetic::div_mod::lemma_div_pos_is_pos(agent.x - origin.x, cell_size as int);
            vstd::arithmetic::div_mod::lemma_div_nonincreasing(agent.x - origin.x, cell_size as int);
            vstd::arithmetic::div_mod::lemma_div_pos_is_pos(agent.y - origin.y, cell_size as int);
            vstd::arithmetic::div_mod::lemma_div_nonincreasing(agent.y - origin.y, cell_size as int);
        }
        if crate::convert::inside_level(origin, size, target) {
            vstd::arithmetic::div_mod::lemma_div_pos_is_pos(target.x - origin.x, cell_size as int);
            vstd::arithmetic::div_mod::lemma_div_nonincreasing(target.x - origin.x, cell_size as int);
            vstd::arithmetic::div_mod::lemma_div_pos_is_pos(target.y - origin.y, cell_size as int);
            vstd::arithmetic::div_mod::lemma_div_nonincreasing(target.y - origin.y, cell_size as int);
        }
        assert(-0x10_0000 <= start.x <= 0x10_0000);
        assert(-0x10_0000 <= start.y <= 0x10_0000);
        assert(-0x10_0000 <= goal.x <= 0x10_0000);
        assert(-0x10_0000 <= goal.y <= 0x10_0000);
    }
    plan_path(grid, start, goal)
}

/// Fallback guarantee: when every cell adjacent to the goal is blocked or
/// outside the grid, and the start is neither the goal nor adjacent to it,
/// no usable path exists, so the planner's contract forces the fallback.
pub proof fn lemma_unreachable_goal_falls_back(
    blocked: Set<(int, int)>,
    w: int,
    h: int,
    path: Seq<GridCell>,
    start: GridCell,
    goal: GridCell,
)
    requires
        forall|p: (int, int)| adjacent8(p, goal.loc()) ==> !cell_open(blocked, w, h, p),
        !adjacent8(start.loc(), goal.loc()),
        start != goal,
        path == fallback_path() || valid_path(blocked, w, h, path, start, goal),
    ensures
        path == fallback_path(),
{
    if path != fallback_path() {
        let n = path.len() as int;
        assert(path[0] == start && path[n - 1] == goal);
        assert(n >= 2) by {
            if n == 1 {
                assert(start == goal);
            }
        }
        assert(adjacent8(path[n - 2].loc(), path[n - 1].loc()));
        if n == 2 {
            assert(adjacent8(start.loc(), goal.loc()));
        } else {
            assert(cell_open(blocked, w, h, path[n - 2].loc()));
            assert(!cell_open(blocked, w, h, path[n - 2].loc()));
        }
    }
}

/// A level's navigation state: the wall set it was loaded with and, once
/// pathfinding has first been needed, the obstacle grid derived from it.
/// The grid is built lazily and exactly once per level; levels are static,
/// so it is never rebuilt.
pub struct LevelNav {
    walls: WallSet,
    grid: Option<ObstacleGrid>,
}

impl LevelNav {
    /// The level's wall cells.
    pub closed spec fn walls_view(self) -> Set<(int, int)> {
        self.walls@
    }

    /// Grid width in cells.
    pub closed spec fn nav_width(self) -> int {
        self.walls.grid_width()
    }

    /// Grid height in cells.
    pub closed spec fn nav_height(self) -> int {
        self.walls.grid_height()
    }

    /// Whether the obstacle grid has been built yet.
    pub closed spec fn grid_built(self) -> bool {
        self.grid is Some
    }

    /// The wall set is well-formed and the grid, once built, mirrors it.
    pub closed spec fn wf(self) -> bool {
        &&& self.walls.wf()
        &&& match self.grid {
            Some(g) => {
                &&& g.wf()
                &&& g.blocked() == self.walls@
                &&& g.grid_width() == self.walls.grid_width()
                &&& g.grid_height() == self.walls.grid_height()
            },
            None => true,
        }
    }

    /// Takes ownership of a level's wall set; no obstacle grid exists yet.
    pub fn new(walls: WallSet) -> (nav: LevelNav)
        requires
            walls.wf(),
        ensures
            nav.wf(),
            nav.walls_view() == walls@,
            nav.nav_width() == walls.grid_width(),
            nav.nav_height() == walls.grid_height(),
            !nav.grid_built(),
    {
        LevelNav { walls, grid: None }
    }

    /// The level's wall set, for meshing.
    pub fn walls(&self) -> (walls: &WallSet)
        requires
            self.wf(),
        ensures
            walls.wf(),
            walls@ == self.walls_view(),
            walls.grid_width() == self.nav_width(),
            walls.grid_height() == self.nav_height(),
    {
        &self.walls
    }

    /// Answers one path request for this level, building the obstacle grid
    /// the first time it is needed and reusing it afterwards. The result is
    /// either a checked path whose cells after the start all avoid the
    /// level's walls, or the single-cell fallback path to the origin; when
    /// the goal is reachable at all from a distinct start, a real path comes
    /// back.
    pub fn plan(&mut self, start: GridCell, goal: GridCell) -> (path: Vec<GridCell>)
        requires
            old(self).wf(),
            -0x10_0000 <= start.x <= 0x10_0000,
            -0x10_0000 <= start.y <= 0x10_0000,
            -0x10_0000 <= goal.x <= 0x10_0000,
            -0x10_0000 <= goal.y <= 0x10_0000,
        ensures
            final(self).wf(),
            final(self).walls_view() == old(self).walls_view(),
            final(self).nav_width() == old(self).nav_width(),
            final(self).nav_height() == old(self).nav_height(),
            final(self).grid_built(),
            old(self).grid_built() ==> *final(self) == *old(self),
            path@ == fallback_path() || valid_path(
                old(self).walls_view(),
                old(self).nav_width(),
                old(self).nav_height(),
                path@,
                start,
                goal,
            ),
            start == goal ==> path@ == fallback_path(),
            (start != goal && exists|q: Seq<GridCell>|
                valid_path(
                    old(self).walls_view(),
                    old(self).nav_width(),
                    old(self).nav_height(),
                    q,
                    start,
                    goal,
                )) ==> valid_path(
                old(self).walls_view(),
                old(self).nav_width(),
                old(self).nav_height(),
                path@,
                start,
                goal,
            ),
    {
        if self.grid.is_none() {
            let g = ObstacleGrid::from_walls(&self.walls);
            self.grid = Some(g);
        }
        match &self.grid {
            Some(g) => {
                let path = plan_path(g, start, goal);
                proof {
                    assert(g.blocked() == self.walls@);
                }
                path
            },
            None => {
                proof {
                    assert(false);
                }
                Vec::new()
            },
        }
    }
}

} // verus!
