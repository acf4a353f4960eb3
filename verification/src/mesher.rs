//! Wall collision mesher: merges a level's wall cells into a minimal list of
//! axis-aligned rectangles.
//!
//! The mesher works in two phases. Each grid row is first compacted into
//! plates, the maximal horizontal runs of contiguous wall cells. Plates are
//! then merged vertically: a rectangle grows upward while consecutive rows
//! hold a plate with exactly the same left and right bounds, and is closed as
//! soon as the run disappears or changes shape. The output covers the wall
//! set exactly, no two rectangles overlap, and the list is deterministic:
//! it is the set of all maximal plate stacks, ordered by top row, then left
//! column.

use vstd::prelude::*;
use crate::GridCell;

verus! {

/// A maximal horizontal run of wall cells within a single grid row:
/// columns `left ..= right`.
#[derive(Clone, Copy, PartialEq, Eq, Structural, Debug)]
pub struct Plate {
    pub left: i32,
    pub right: i32,
}

/// An axis-aligned block of wall cells, all bounds inclusive.
/// Invariant of mesher output: `left <= right` and `bottom <= top`.
#[derive(Clone, Copy, PartialEq, Eq, Structural, Debug)]
pub struct Rect {
    pub left: i32,
    pub right: i32,
    pub bottom: i32,
    pub top: i32,
}

/// Every cell of `walls` lies inside the `w` by `h` grid.
pub open spec fn bounded_cells(walls: Set<(int, int)>, w: int, h: int) -> bool {
    forall|p: (int, int)| walls.contains(p) ==> 0 <= p.0 < w && 0 <= p.1 < h
}

/// Columns `left ..= right` of row `y` form a maximal run of wall cells:
/// every column in the range is a wall and the columns on either side are not.
pub open spec fn run_at(walls: Set<(int, int)>, left: int, right: int, y: int) -> bool {
    &&& left <= right
    &&& forall|x: int| left <= x <= right ==> walls.contains((x, y))
    &&& !walls.contains((left - 1, y))
    &&& !walls.contains((right + 1, y))
}

/// The plate `p` is a maximal run of row `y`.
pub open spec fn plate_run(walls: Set<(int, int)>, p: Plate, y: int) -> bool {
    run_at(walls, p.left as int, p.right as int, y)
}

/// Plates in strictly increasing column order.
pub open spec fn plates_sorted(s: Seq<Plate>) -> bool {
    forall|i: int, j: int| 0 <= i < j < s.len() ==> s[i].left < s[j].left
}

/// Two maximal runs of one row that share a column are the same run.
proof fn lemma_runs_agree(
    walls: Set<(int, int)>,
    l1: int,
    r1: int,
    l2: int,
    r2: int,
    y: int,
    x: int,
)
    requires
        run_at(walls, l1, r1, y),
        run_at(walls, l2, r2, y),
        l1 <= x <= r1,
        l2 <= x <= r2,
    ensures
        l1 == l2,
        r1 == r2,
{
    if l1 < l2 {
        assert(walls.contains((l2 - 1, y)));
    }
    if l2 < l1 {
        assert(walls.contains((l1 - 1, y)));
    }
    if r1 < r2 {
        assert(walls.contains((r1 + 1, y)));
    }
    if r2 < r1 {
        assert(walls.contains((r2 + 1, y)));
    }
}

/// Two distinct maximal runs of one row are separated by at least one
/// empty column.
proof fn lemma_runs_separated(
    walls: Set<(int, int)>,
    l1: int,
    r1: int,
    l2: int,
    r2: int,
    y: int,
)
    requires
        run_at(walls, l1, r1, y),
        run_at(walls, l2, r2, y),
        !(l1 == l2 && r1 == r2),
    ensures
        r1 + 1 < l2 || r2 + 1 < l1,
{
    if l2 <= r1 && l1 <= r2 {
        let x = if l1 <= l2 {
            l2
        } else {
            l1
        };
        lemma_runs_agree(walls, l1, r1, l2, r2, y, x);
    } else if l2 == r1 + 1 {
        assert(walls.contains((r1 + 1, y)));
    } else if l1 == r2 + 1 {
        assert(walls.contains((r2 + 1, y)));
    }
}

/// A level's set of wall cells, together with the level's grid dimensions.
/// Cells outside the grid are rejected at insertion, so every stored cell
/// lies inside the `width` by `height` grid and no cell is stored twice.
pub struct WallSet {
    width: i32,
    height: i32,
    cells: Vec<GridCell>,
}

impl View for WallSet {
    type V = Set<(int, int)>;

    closed spec fn view(&self) -> Set<(int, int)> {
        Set::new(
            |p: (int, int)|
                exists|i: int| 0 <= i < self.cells@.len() && self.cells@[i].loc() == p,
        )
    }
}

impl WallSet {
    /// The grid width this set was created with.
    pub closed spec fn grid_width(self) -> int {
        self.width as int
    }

    /// The grid height this set was created with.
    pub closed spec fn grid_height(self) -> int {
        self.height as int
    }

    /// Dimensions are in range and every stored cell is in bounds and unique.
    pub closed spec fn wf(self) -> bool {
        &&& 0 <= self.width <= 0x8000
        &&& 0 <= self.height <= 0x8000
        &&& forall|i: int|
            0 <= i < self.cells@.len() ==> 0 <= #[trigger] self.cells@[i].x < self.width && 0
                <= self.cells@[i].y < self.height
        &&& forall|i: int, j: int|
            0 <= i < j < self.cells@.len() ==> self.cells@[i].loc() != self.cells@[j].loc()
    }

    /// A well-formed wall set only holds cells inside its grid.
    pub proof fn lemma_wf_bounded(self)
        requires
            self.wf(),
        ensures
            bounded_cells(self@, self.grid_width(), self.grid_height()),
            0 <= self.grid_width() <= 0x8000,
            0 <= self.grid_height() <= 0x8000,
    {
    }

    /// An empty wall set for a level of the given grid dimensions.
    pub fn new(width: i32, height: i32) -> (s: WallSet)
        requires
            0 <= width <= 0x8000,
            0 <= height <= 0x8000,
        ensures
            s.wf(),
            s@ == Set::<(int, int)>::empty(),
            s.grid_width() == width,
            s.grid_height() == height,
    {
        let s = WallSet { width, height, cells: Vec::new() };
        proof {
            assert(s@ =~= Set::<(int, int)>::empty());
        }
        s
    }

    /// The grid width this set was created with.
    pub fn width(&self) -> (w: i32)
        ensures
            w as int == self.grid_width(),
    {
        self.width
    }

    /// The grid height this set was created with.
    pub fn height(&self) -> (h: i32)
        ensures
            h as int == self.grid_height(),
    {
        self.height
    }

    /// Whether `c` is a wall cell of this set.
    pub fn contains(&self, c: GridCell) -> (r: bool)
        ensures
            r == self@.contains(c.loc()),
    {
        let mut i: usize = 0;
        while i < self.cells.len()
            invariant
                0 <= i <= self.cells@.len(),
                forall|k: int| 0 <= k < i ==> self.cells@[k].loc() != c.loc(),
            decreases self.cells@.len() - i,
        {
            if self.cells[i].x == c.x && self.cells[i].y == c.y {
                proof {
                    assert(self.cells@[i as int].loc() == c.loc());
                }
                return true;
            }
            i += 1;
        }
        proof {
            assert(!self@.contains(c.loc()));
        }
        false
    }

    /// The stored cells as a list of coordinates, in insertion order.
    pub closed spec fn cell_list(self) -> Seq<(int, int)> {
        self.cells@.map_values(|c: GridCell| c.loc())
    }

    /// The cell list holds exactly the set's cells, each once, all in bounds.
    pub proof fn lemma_cell_list(self)
        requires
            self.wf(),
        ensures
            forall|p: (int, int)| self@.contains(p) <==> self.cell_list().contains(p),
            forall|k: int|
                0 <= k < self.cell_list().len() ==> {
                    let p = #[trigger] self.cell_list()[k];
                    0 <= p.0 < self.grid_width() && 0 <= p.1 < self.grid_height()
                },
            forall|k1: int, k2: int|
                0 <= k1 < k2 < self.cell_list().len() ==> self.cell_list()[k1]
                    != self.cell_list()[k2],
    {
        assert forall|p: (int, int)| self@.contains(p) implies self.cell_list().contains(p) by {
            let i = choose|i: int| 0 <= i < self.cells@.len() && self.cells@[i].loc() == p;
            assert(self.cell_list()[i] == p);
        }
        assert forall|p: (int, int)| self.cell_list().contains(p) implies self@.contains(p) by {
            let i = choose|i: int| 0 <= i < self.cell_list().len() && self.cell_list()[i] == p;
            assert(self.cells@[i].loc() == p);
        }
    }

    /// How many cells the set holds.
    pub fn cell_count(&self) -> (n: usize)
        ensures
            n == self.cell_list().len(),
    {
        self.cells.len()
    }

    /// The cell at one position of the insertion order.
    pub fn cell_at(&self, i: usize) -> (c: GridCell)
        requires
            i < self.cell_list().len(),
        ensures
            c.loc() == self.cell_list()[i as int],
    {
        self.cells[i]
    }

    /// Records a wall cell. A cell outside the grid is rejected and a cell
    /// already present is left alone; the set changes exactly when the cell
    /// is in bounds and new, and `added` reports that.
    pub fn insert(&mut self, c: GridCell) -> (added: bool)
        requires
            old(self).wf(),
        ensures
            final(self).wf(),
            final(self).grid_width() == old(self).grid_width(),
            final(self).grid_height() == old(self).grid_height(),
            added == (0 <= c.x < old(self).grid_width() && 0 <= c.y < old(self).grid_height()
                && !old(self)@.contains(c.loc())),
            added ==> final(self)@ == old(self)@.insert(c.loc()),
            !added ==> final(self)@ == old(self)@,
    {
        if !(c.x >= 0 && c.x < self.width && c.y >= 0 && c.y < self.height) {
            return false;
        }
        if self.contains(c) {
            return false;
        }
        self.cells.push(c);
        proof {
            let oldc = old(self).cells@;
            assert(self.cells@ == oldc.push(c));
            assert forall|p: (int, int)| #[trigger] self@.contains(p) implies (old(
                self,
            )@.contains(p) || p == c.loc()) by {
                let i = choose|i: int|
                    0 <= i < self.cells@.len() && self.cells@[i].loc() == p;
                if i < oldc.len() {
                    assert(oldc[i].loc() == p);
                }
            }
            assert forall|p: (int, int)|
                old(self)@.contains(p) || p == c.loc() implies #[trigger] self@.contains(p) by {
                if old(self)@.contains(p) {
                    let i = choose|i: int| 0 <= i < oldc.len() && oldc[i].loc() == p;
                    assert(self.cells@[i].loc() == p);
                } else {
                    assert(self.cells@[oldc.len() as int].loc() == p);
                }
            }
            assert(self@ =~= old(self)@.insert(c.loc()));
        }
        true
    }
}

/// Collects the wall cells reported for one level out of a stream of
/// (level id, cell) pairs: walls are split along level boundaries by their
/// level id. Cells outside the level's grid are rejected and duplicates
/// collapse, so the result is well-formed whatever the stream holds.
pub fn collect_level_walls(
    level_id: u64,
    pairs: &Vec<(u64, GridCell)>,
    width: i32,
    height: i32,
) -> (s: WallSet)
    requires
        0 <= width <= 0x8000,
        0 <= height <= 0x8000,
    ensures
        s.wf(),
        s.grid_width() == width,
        s.grid_height() == height,
        forall|p: (int, int)|
            s@.contains(p) <==> exists|k: int|
                0 <= k < pairs@.len() && (#[trigger] pairs@[k]).0 == level_id && pairs@[k].1.loc()
                    == p && 0 <= p.0 < width && 0 <= p.1 < height,
{
    let mut s = WallSet::new(width, height);
    let mut k: usize = 0;
    while k < pairs.len()
        invariant
            s.wf(),
            s.grid_width() == width,
            s.grid_height() == height,
            0 <= width <= 0x8000,
            0 <= height <= 0x8000,
            0 <= k <= pairs@.len(),
            forall|p: (int, int)|
                s@.contains(p) <==> exists|t: int|
                    0 <= t < k && (#[trigger] pairs@[t]).0 == level_id && pairs@[t].1.loc() == p
                        && 0 <= p.0 < width && 0 <= p.1 < height,
        decreases pairs@.len() - k,
    {
        let (id, c) = pairs[k];
        let ghost sv = s@;
        if id == level_id {
            s.insert(c);
        }
        proof {
            assert forall|p: (int, int)| s@.contains(p) implies exists|t: int|
                0 <= t < k + 1 && (#[trigger] pairs@[t]).0 == level_id && pairs@[t].1.loc() == p
                    && 0 <= p.0 < width && 0 <= p.1 < height by {
                if sv.contains(p) {
                    let t = choose|t: int|
                        0 <= t < k && (#[trigger] pairs@[t]).0 == level_id && pairs@[t].1.loc()
                            == p && 0 <= p.0 < width && 0 <= p.1 < height;
                    assert(0 <= t < k + 1 && pairs@[t].0 == level_id && pairs@[t].1.loc() == p);
                } else {
                    assert(pairs@[k as int].0 == level_id && pairs@[k as int].1.loc() == p);
                }
            }
            assert forall|p: (int, int)|
                (exists|t: int|
                    0 <= t < k + 1 && (#[trigger] pairs@[t]).0 == level_id && pairs@[t].1.loc()
                        == p && 0 <= p.0 < width && 0 <= p.1 < height) implies s@.contains(p) by {
                let t = choose|t: int|
                    0 <= t < k + 1 && (#[trigger] pairs@[t]).0 == level_id && pairs@[t].1.loc()
                        == p && 0 <= p.0 < width && 0 <= p.1 < height;
                if t < k {
                    assert(sv.contains(p));
                }
            }
        }
        k += 1;
    }
    s
}

/// Computes the plates of row `y`: the maximal horizontal runs of wall
/// cells in that row, in increasing column order.
pub fn build_row_plates(walls: &WallSet, y: i32) -> (plates: Vec<Plate>)
    requires
        walls.wf(),
        0 <= y,
    ensures
        forall|p: Plate| plates@.contains(p) <==> plate_run(walls@, p, y as int),
        plates_sorted(plates@),
{
    proof {
        walls.lemma_wf_bounded();
        assert forall|p: Plate| !(plate_run(walls@, p, y as int) && p.right < -1) by {
            if plate_run(walls@, p, y as int) {
                assert(walls@.contains((p.right as int, y as int)));
            }
        }
    }
    let w = walls.width();
    let mut plates: Vec<Plate> = Vec::new();
    let mut open_run: bool = false;
    let mut run_start: i32 = 0;
    let mut x: i32 = 0;
    while x <= w
        invariant
            walls.wf(),
            w as int == walls.grid_width(),
            0 <= x <= w + 1,
            open_run ==> 0 <= run_start < x && !walls@.contains((run_start - 1, y as int))
                && forall|t: int| run_start <= t < x ==> walls@.contains((t, y as int)),
            !open_run ==> (x == 0 || !walls@.contains((x - 1, y as int))),
            forall|p: Plate|
                plates@.contains(p) <==> (plate_run(walls@, p, y as int) && p.right < x - 1),
            open_run ==> forall|p: Plate| plates@.contains(p) ==> p.right < run_start,
            plates_sorted(plates@),
        decreases w + 1 - x,
    {
        let is_wall = walls.contains(GridCell { x, y });
        if open_run {
            if !is_wall {
                let p = Plate { left: run_start, right: x - 1 };
                let ghost oldp = plates@;
                proof {
                    assert(plate_run(walls@, p, y as int));
                    assert forall|q: Plate| oldp.contains(q) implies q.left < p.left by {
                        lemma_runs_separated(
                            walls@,
                            q.left as int,
                            q.right as int,
                            p.left as int,
                            p.right as int,
                            y as int,
                        );
                    }
                }
                plates.push(p);
                open_run = false;
                proof {
                    assert(plates@ == oldp.push(p));
                    assert(plates@[plates@.len() - 1] == p);
                    assert forall|q: Plate|
                        plate_run(walls@, q, y as int) && q.right < x implies plates@.contains(
                        q,
                    ) by {
                        if q.right < x - 1 {
                            assert(oldp.contains(q));
                            let i = choose|i: int| 0 <= i < oldp.len() && oldp[i] == q;
                            assert(plates@[i] == q);
                        } else {
                            lemma_runs_agree(
                                walls@,
                                q.left as int,
                                q.right as int,
                                p.left as int,
                                p.right as int,
                                y as int,
                                x - 1,
                            );
                            assert(q == p);
                        }
                    }
                    assert forall|q: Plate| plates@.contains(q) implies (plate_run(
                        walls@,
                        q,
                        y as int,
                    ) && q.right < x) by {
                        let i = choose|i: int| 0 <= i < plates@.len() && plates@[i] == q;
                        if i < oldp.len() {
                            assert(oldp[i] == q);
                            assert(oldp.contains(q));
                        } else {
                            assert(q == p);
                        }
                    }
                    assert forall|i: int, j: int|
                        0 <= i < j < plates@.len() implies plates@[i].left < plates@[j].left by {
                        if j < plates@.len() - 1 {
                            assert(oldp[i].left < oldp[j].left);
                        } else {
                            assert(oldp.contains(oldp[i]));
                        }
                    }
                }
            } else {
                proof {
                    assert forall|q: Plate|
                        plate_run(walls@, q, y as int) && q.right < x implies plates@.contains(
                        q,
                    ) by {
                        assert(walls@.contains((x as int, y as int)));
                    }
                }
            }
        } else {
            if is_wall {
                run_start = x;
                open_run = true;
                proof {
                    assert forall|q: Plate|
                        plate_run(walls@, q, y as int) && q.right < x implies plates@.contains(
                        q,
                    ) by {
                        assert(walls@.contains((x as int, y as int)));
                    }
                }
            } else {
                proof {
                    assert forall|q: Plate|
                        plate_run(walls@, q, y as int) && q.right < x implies plates@.contains(
                        q,
                    ) by {
                        if q.right == x - 1 {
                            assert(walls@.contains((q.right as int, y as int)));
                        }
                    }
                }
            }
        }
        x += 1;
    }
    proof {
        assert forall|p: Plate| plate_run(walls@, p, y as int) implies plates@.contains(p) by {
            assert(walls@.contains((p.right as int, y as int)));
            assert(p.right < walls.grid_width());
        }
    }
    plates
}

/// The world-space collider descriptor of a rectangle, in pixel units:
/// full width, full height, and twice the centre coordinates relative to the
/// level origin (the centre itself may lie on a half-pixel boundary, so it
/// is returned doubled and exact). The physics collaborator turns each
/// rectangle into one solid body of this size at this centre.
pub fn rect_collider(r: &Rect, cell_size: i32) -> (d: (i64, i64, i64, i64))
    requires
        1 <= cell_size <= 0x8000,
        0 <= r.left <= r.right <= 0x8000,
        0 <= r.bottom <= r.top <= 0x8000,
    ensures
        d.0 == (r.right - r.left + 1) * cell_size,
        d.1 == (r.top - r.bottom + 1) * cell_size,
        d.2 == (r.left + r.right + 1) * cell_size,
        d.3 == (r.bottom + r.top + 1) * cell_size,
{
    proof {
        assert forall|a: int, b: int|
            0 <= a <= 0x10001 && 1 <= b <= 0x8000 implies 0 <= #[trigger] (a * b)
            <= 0x10001 * 0x8000 by {
            assert(0 <= a * b <= 0x10001 * 0x8000) by (nonlinear_arith)
                requires
                    0 <= a <= 0x10001,
                    1 <= b <= 0x8000,
            ;
        }
    }
    let cs = cell_size as i64;
    let width_px = ((r.right as i64) - (r.left as i64) + 1) * cs;
    let height_px = ((r.top as i64) - (r.bottom as i64) + 1) * cs;
    let centre2_x = ((r.left as i64) + (r.right as i64) + 1) * cs;
    let centre2_y = ((r.bottom as i64) + (r.top as i64) + 1) * cs;
    (width_px, height_px, centre2_x, centre2_y)
}

/// The cells covered by rectangle `r`: an inclusive range in both axes.
pub open spec fn rect_covers(r: Rect, p: (int, int)) -> bool {
    &&& r.left <= p.0 <= r.right
    &&& r.bottom <= p.1 <= r.top
}

/// `r` is a rectangle the mesher emits: its column range is a maximal run in
/// every row from `bottom` to `top`, and that run extends neither one row
/// below nor one row above. These rectangles are exactly the maximal vertical
/// stacks of identical plates.
pub open spec fn is_mesh_rect(walls: Set<(int, int)>, r: Rect) -> bool {
    &&& r.bottom <= r.top
    &&& forall|yy: int|
        r.bottom <= yy <= r.top ==> run_at(walls, r.left as int, r.right as int, yy)
    &&& !run_at(walls, r.left as int, r.right as int, r.bottom - 1)
    &&& !run_at(walls, r.left as int, r.right as int, r.top + 1)
}

/// The mesher's output order: by top row, then by left column.
pub open spec fn rect_before(a: Rect, b: Rect) -> bool {
    a.top < b.top || (a.top == b.top && a.left < b.left)
}

/// Rectangles in strictly increasing output order.
pub open spec fn rects_ordered(s: Seq<Rect>) -> bool {
    forall|i: int, j: int| 0 <= i < j < s.len() ==> rect_before(s[i], s[j])
}

/// Columns `l ..= r` are a maximal run in every row from `b` up to `y`, and
/// not in row `b - 1`: a rectangle still growing at row `y`.
pub open spec fn open_block(walls: Set<(int, int)>, l: int, r: int, b: int, y: int) -> bool {
    &&& b <= y
    &&& forall|yy: int| b <= yy <= y ==> run_at(walls, l, r, yy)
    &&& !run_at(walls, l, r, b - 1)
}

/// A growing rectangle's bottom row is determined by its column range.
proof fn lemma_block_bottom_unique(
    walls: Set<(int, int)>,
    l: int,
    r: int,
    b1: int,
    b2: int,
    y: int,
)
    requires
        open_block(walls, l, r, b1, y),
        open_block(walls, l, r, b2, y),
    ensures
        b1 == b2,
{
    if b1 < b2 {
        assert(run_at(walls, l, r, b2 - 1));
    }
    if b2 < b1 {
        assert(run_at(walls, l, r, b1 - 1));
    }
}

/// Two distinct mesh rectangles never cover a common cell.
pub proof fn lemma_mesh_rects_disjoint(walls: Set<(int, int)>, r1: Rect, r2: Rect, p: (int, int))
    requires
        is_mesh_rect(walls, r1),
        is_mesh_rect(walls, r2),
        r1 != r2,
    ensures
        !(rect_covers(r1, p) && rect_covers(r2, p)),
{
    if rect_covers(r1, p) && rect_covers(r2, p) {
        let y = p.1;
        assert(run_at(walls, r1.left as int, r1.right as int, y));
        assert(run_at(walls, r2.left as int, r2.right as int, y));
        lemma_runs_agree(
            walls,
            r1.left as int,
            r1.right as int,
            r2.left as int,
            r2.right as int,
            y,
            p.0,
        );
        if r1.bottom < r2.bottom {
            assert(run_at(walls, r1.left as int, r1.right as int, r2.bottom - 1));
        }
        if r2.bottom < r1.bottom {
            assert(run_at(walls, r2.left as int, r2.right as int, r1.bottom - 1));
        }
        if r1.top < r2.top {
            assert(run_at(walls, r2.left as int, r2.right as int, r1.top + 1));
        }
        if r2.top < r1.top {
            assert(run_at(walls, r1.left as int, r1.right as int, r2.top + 1));
        }
        assert(r1 == r2);
    }
}

/// A wall cell extends leftward to the start of its run.
proof fn lemma_extend_left(walls: Set<(int, int)>, w: int, h: int, x: int, y: int)
    requires
        bounded_cells(walls, w, h),
        walls.contains((x, y)),
    ensures
        exists|l: int|
            l <= x && !walls.contains((#[trigger] (l - 1), y)) && forall|t: int|
                l <= t <= x ==> walls.contains((t, y)),
    decreases x,
{
    if walls.contains((x - 1, y)) {
        lemma_extend_left(walls, w, h, x - 1, y);
        let l = choose|l: int|
            l <= x - 1 && !walls.contains((#[trigger] (l - 1), y)) && forall|t: int|
                l <= t <= x - 1 ==> walls.contains((t, y));
        assert(forall|t: int| l <= t <= x ==> walls.contains((t, y)));
    } else {
        assert(forall|t: int| x <= t <= x ==> walls.contains((t, y)));
    }
}

/// A wall cell extends rightward to the end of its run.
proof fn lemma_extend_right(walls: Set<(int, int)>, w: int, h: int, x: int, y: int)
    requires
        bounded_cells(walls, w, h),
        walls.contains((x, y)),
    ensures
        exists|r: int|
            x <= r && !walls.contains((#[trigger] (r + 1), y)) && forall|t: int|
                x <= t <= r ==> walls.contains((t, y)),
    decreases w - x,
{
    if walls.contains((x + 1, y)) {
        lemma_extend_right(walls, w, h, x + 1, y);
        let r = choose|r: int|
            x + 1 <= r && !walls.contains((#[trigger] (r + 1), y)) && forall|t: int|
                x + 1 <= t <= r ==> walls.contains((t, y));
        assert(forall|t: int| x <= t <= r ==> walls.contains((t, y)));
    } else {
        assert(forall|t: int| x <= t <= x ==> walls.contains((t, y)));
    }
}

/// A run extends downward to the bottom of its maximal stack.
proof fn lemma_extend_down(walls: Set<(int, int)>, w: int, h: int, l: int, r: int, y: int)
    requires
        bounded_cells(walls, w, h),
        run_at(walls, l, r, y),
    ensures
        exists|b: int| #[trigger] open_block(walls, l, r, b, y),
    decreases y,
{
    assert(walls.contains((l, y)));
    if run_at(walls, l, r, y - 1) {
        assert(walls.contains((l, y - 1)));
        lemma_extend_down(walls, w, h, l, r, y - 1);
        let b = choose|b: int| #[trigger] open_block(walls, l, r, b, y - 1);
        assert(open_block(walls, l, r, b, y));
    } else {
        assert(open_block(walls, l, r, y, y));
    }
}

/// A run extends upward to the top of its maximal stack.
proof fn lemma_extend_up(walls: Set<(int, int)>, w: int, h: int, l: int, r: int, y: int)
    requires
        bounded_cells(walls, w, h),
        run_at(walls, l, r, y),
    ensures
        exists|t: int|
            y <= t && !run_at(walls, l, r, #[trigger] (t + 1)) && forall|yy: int|
                y <= yy <= t ==> run_at(walls, l, r, yy),
    decreases h - y,
{
    assert(walls.contains((l, y)));
    if run_at(walls, l, r, y + 1) {
        lemma_extend_up(walls, w, h, l, r, y + 1);
        let t = choose|t: int|
            y + 1 <= t && !run_at(walls, l, r, #[trigger] (t + 1)) && forall|yy: int|
                y + 1 <= yy <= t ==> run_at(walls, l, r, yy);
        assert(forall|yy: int| y <= yy <= t ==> run_at(walls, l, r, yy));
    } else {
        assert(forall|yy: int| y <= yy <= y ==> run_at(walls, l, r, yy));
    }
}

/// Every wall cell lies inside some mesh rectangle.
pub proof fn lemma_wall_covered(walls: Set<(int, int)>, w: int, h: int, p: (int, int))
    requires
        bounded_cells(walls, w, h),
        w <= 0x8000,
        h <= 0x8000,
        walls.contains(p),
    ensures
        exists|r: Rect| is_mesh_rect(walls, r) && rect_covers(r, p),
{
    let (x, y) = p;
    lemma_extend_left(walls, w, h, x, y);
    let l = choose|l: int|
        l <= x && !walls.contains((#[trigger] (l - 1), y)) && forall|t: int|
            l <= t <= x ==> walls.contains((t, y));
    lemma_extend_right(walls, w, h, x, y);
    let r = choose|r: int|
        x <= r && !walls.contains((#[trigger] (r + 1), y)) && forall|t: int|
            x <= t <= r ==> walls.contains((t, y));
    assert(walls.contains((l, y)));
    assert(walls.contains((r, y)));
    assert(0 <= l && r < w);
    assert(run_at(walls, l, r, y));
    lemma_extend_down(walls, w, h, l, r, y);
    let b = choose|b: int| #[trigger] open_block(walls, l, r, b, y);
    lemma_extend_up(walls, w, h, l, r, y);
    let t = choose|t: int|
        y <= t && !run_at(walls, l, r, #[trigger] (t + 1)) && forall|yy: int|
            y <= yy <= t ==> run_at(walls, l, r, yy);
    assert(run_at(walls, l, r, b));
    assert(run_at(walls, l, r, t));
    assert(walls.contains((l, b)));
    assert(walls.contains((l, t)));
    let rect = Rect { left: l as i32, right: r as i32, bottom: b as i32, top: t as i32 };
    assert(rect.left as int == l && rect.right as int == r && rect.bottom as int == b
        && rect.top as int == t);
    assert(forall|yy: int| b <= yy <= t ==> run_at(walls, l, r, yy));
    assert(is_mesh_rect(walls, rect));
    assert(rect_covers(rect, p));
}

/// The mesher is deterministic: any two membership-equal, output-ordered
/// rectangle lists are the same list. Together with the mesher's contract
/// this says that meshing the same wall set twice yields an identical list.
pub proof fn lemma_mesh_deterministic(rects1: Seq<Rect>, rects2: Seq<Rect>)
    requires
        forall|r: Rect| rects1.contains(r) <==> rects2.contains(r),
        rects_ordered(rects1),
        rects_ordered(rects2),
    ensures
        rects1 == rects2,
    decreases rects1.len(),
{
    if rects1.len() == 0 {
        if rects2.len() > 0 {
            assert(rects2.contains(rects2[0]));
            assert(rects1.contains(rects2[0]));
        }
        assert(rects1 =~= rects2);
    } else {
        assert(rects1.contains(rects1[0]));
        assert(rects2.contains(rects1[0]));
        let a = choose|a: int| 0 <= a < rects2.len() && rects2[a] == rects1[0];
        assert(rects2.contains(rects2[0]));
        assert(rects1.contains(rects2[0]));
        let c = choose|c: int| 0 <= c < rects1.len() && rects1[c] == rects2[0];
        if a > 0 && c > 0 {
            assert(rect_before(rects2[0], rects2[a]));
            assert(rect_before(rects1[0], rects1[c]));
            assert(false);
        }
        if a > 0 && c == 0 {
            assert(rect_before(rects2[0], rects2[a]));
            assert(false);
        }
        assert(rects1[0] == rects2[0]);
        let t1 = rects1.subrange(1, rects1.len() as int);
        let t2 = rects2.subrange(1, rects2.len() as int);
        assert forall|r: Rect| t1.contains(r) implies t2.contains(r) by {
            let i = choose|i: int| 0 <= i < t1.len() && t1[i] == r;
            assert(rects1[i + 1] == r);
            assert(rects1.contains(r));
            assert(rect_before(rects1[0], rects1[i + 1]));
            assert(rects2.contains(r));
            let j = choose|j: int| 0 <= j < rects2.len() && rects2[j] == r;
            assert(j > 0);
            assert(t2[j - 1] == r);
        }
        assert forall|r: Rect| t2.contains(r) implies t1.contains(r) by {
            let i = choose|i: int| 0 <= i < t2.len() && t2[i] == r;
            assert(rects2[i + 1] == r);
            assert(rects2.contains(r));
            assert(rect_before(rects2[0], rects2[i + 1]));
            assert(rects1.contains(r));
            let j = choose|j: int| 0 <= j < rects1.len() && rects1[j] == r;
            assert(j > 0);
            assert(t1[j - 1] == r);
        }
        lemma_mesh_deterministic(t1, t2);
        assert(rects1.len() == rects2.len());
        assert forall|i: int| 0 <= i < rects1.len() implies rects1[i] == rects2[i] by {
            if i > 0 {
                assert(t1[i - 1] == t2[i - 1]);
            }
        }
        assert(rects1 =~= rects2);
    }
}

/// Whether the plate list contains a plate with exactly these bounds.
fn plates_contain(plates: &Vec<Plate>, left: i32, right: i32) -> (res: bool)
    ensures
        res == plates@.contains((Plate { left, right })),
{
    let mut k: usize = 0;
    while k < plates.len()
        invariant
            0 <= k <= plates@.len(),
            forall|i: int| 0 <= i < k ==> plates@[i] != (Plate { left, right }),
        decreases plates@.len() - k,
    {
        if plates[k].left == left && plates[k].right == right {
            proof {
                assert(plates@[k as int] == (Plate { left, right }));
            }
            return true;
        }
        k += 1;
    }
    false
}

/// Looks up the growing rectangle with the given column range and returns
/// its bottom row, if one exists.
fn find_open_bottom(open: &Vec<Rect>, left: i32, right: i32) -> (res: Option<i32>)
    ensures
        match res {
            Some(b) => exists|k: int|
                0 <= k < open@.len() && open@[k].left == left && open@[k].right == right
                    && open@[k].bottom == b,
            None => forall|k: int|
                0 <= k < open@.len() ==> !(open@[k].left == left && open@[k].right == right),
        },
{
    let mut k: usize = 0;
    while k < open.len()
        invariant
            0 <= k <= open@.len(),
            forall|i: int| 0 <= i < k ==> !(open@[i].left == left && open@[i].right == right),
        decreases open@.len() - k,
    {
        if open[k].left == left && open[k].right == right {
            return Some(open[k].bottom);
        }
        k += 1;
    }
    None
}

/// Meshes a level's wall set into rectangles.
///
/// The output is exactly the set of maximal plate stacks of the wall set
/// (`is_mesh_rect`), listed in output order; it covers the wall set exactly,
/// and no two output rectangles overlap.
pub fn mesh(walls: &WallSet) -> (rects: Vec<Rect>)
    requires
        walls.wf(),
    ensures
        forall|r: Rect| rects@.contains(r) <==> is_mesh_rect(walls@, r),
        rects_ordered(rects@),
        forall|i: int|
            0 <= i < rects@.len() ==> {
                let r = #[trigger] rects@[i];
                &&& 0 <= r.left <= r.right < walls.grid_width()
                &&& 0 <= r.bottom <= r.top < walls.grid_height()
            },
        forall|p: (int, int)|
            walls@.contains(p) <==> exists|i: int|
                0 <= i < rects@.len() && rect_covers(#[trigger] rects@[i], p),
        forall|i: int, j: int, p: (int, int)|
            0 <= i < j < rects@.len() && #[trigger] rect_covers(rects@[i], p) ==> !(#[trigger]
            rect_covers(rects@[j], p)),
{
    proof {
        walls.lemma_wf_bounded();
    }
    let h = walls.height();
    let mut done: Vec<Rect> = Vec::new();
    let mut open: Vec<Rect> = Vec::new();
    let mut y: i32 = 0;
    proof {
        assert forall|r: Rect| !(#[trigger] is_mesh_rect(walls@, r) && r.top <= -2) by {
            if is_mesh_rect(walls@, r) {
                assert(run_at(walls@, r.left as int, r.right as int, r.bottom as int));
                assert(walls@.contains((r.left as int, r.bottom as int)));
            }
        }
        assert forall|p: Plate| !(#[trigger] plate_run(walls@, p, -1)) by {
            if plate_run(walls@, p, -1) {
                assert(walls@.contains((p.left as int, -1)));
            }
        }
    }
    while y <= h
        invariant
            walls.wf(),
            h as int == walls.grid_height(),
            0 <= y <= h + 1,
            forall|k: int|
                0 <= k < open@.len() ==> (#[trigger] open@[k]).top == y - 1 && open_block(
                    walls@,
                    open@[k].left as int,
                    open@[k].right as int,
                    open@[k].bottom as int,
                    y - 1,
                ),
            forall|p: Plate|
                #[trigger] plate_run(walls@, p, y - 1) ==> exists|k: int|
                    0 <= k < open@.len() && (#[trigger] open@[k]).left == p.left && open@[k].right
                        == p.right,
            forall|k1: int, k2: int|
                0 <= k1 < k2 < open@.len() ==> open@[k1].left < open@[k2].left,
            forall|r: Rect| done@.contains(r) <==> (is_mesh_rect(walls@, r) && r.top <= y - 2),
            rects_ordered(done@),
        decreases h + 1 - y,
    {
        let plates = build_row_plates(walls, y);
        let ghost open0 = open@;
        let ghost done0 = done@;
        // close every growing rectangle whose run is absent from this row
        let mut k: usize = 0;
        while k < open.len()
            invariant
                walls.wf(),
                h as int == walls.grid_height(),
                0 <= y <= h + 1,
                0 <= k <= open@.len(),
                open@ == open0,
                forall|p: Plate| plates@.contains(p) <==> plate_run(walls@, p, y as int),
                plates_sorted(plates@),
                forall|kk: int|
                    0 <= kk < open@.len() ==> (#[trigger] open@[kk]).top == y - 1 && open_block(
                        walls@,
                        open@[kk].left as int,
                        open@[kk].right as int,
                        open@[kk].bottom as int,
                        y - 1,
                    ),
                forall|p: Plate|
                    #[trigger] plate_run(walls@, p, y - 1) ==> exists|kk: int|
                        0 <= kk < open@.len() && (#[trigger] open@[kk]).left == p.left
                            && open@[kk].right == p.right,
                forall|k1: int, k2: int|
                    0 <= k1 < k2 < open@.len() ==> open@[k1].left < open@[k2].left,
                forall|r: Rect|
                    done@.contains(r) <==> ((is_mesh_rect(walls@, r) && r.top <= y - 2) || (
                    exists|i: int|
                        0 <= i < k && open@[i] == r && !plates@.contains(
                            (Plate { left: r.left, right: r.right }),
                        ))),
                rects_ordered(done@),
            decreases open@.len() - k,
        {
            let o = open[k];
            if !plates_contain(&plates, o.left, o.right) {
                let ghost doneb = done@;
                proof {
                    assert(open@[k as int] == o);
                    assert(open_block(
                        walls@,
                        o.left as int,
                        o.right as int,
                        o.bottom as int,
                        y - 1,
                    ));
                    assert(!plate_run(walls@, (Plate { left: o.left, right: o.right }), y as int));
                    assert(is_mesh_rect(walls@, o));
                    assert forall|a: int| 0 <= a < doneb.len() implies rect_before(
                        doneb[a],
                        o,
                    ) by {
                        assert(doneb.contains(doneb[a]));
                        if !(is_mesh_rect(walls@, doneb[a]) && doneb[a].top <= y - 2) {
                            let i = choose|i: int|
                                0 <= i < k && open@[i] == doneb[a] && !plates@.contains(
                                    (Plate { left: doneb[a].left, right: doneb[a].right }),
                                );
                            assert(open@[i].left < open@[k as int].left);
                        }
                    }
                }
                done.push(o);
                proof {
                    assert(done@ == doneb.push(o));
                    assert forall|r: Rect| #[trigger] done@.contains(r) implies ((is_mesh_rect(
                        walls@,
                        r,
                    ) && r.top <= y - 2) || (exists|i: int|
                        0 <= i < k + 1 && open@[i] == r && !plates@.contains(
                            (Plate { left: r.left, right: r.right }),
                        ))) by {
                        let ii = choose|ii: int| 0 <= ii < done@.len() && done@[ii] == r;
                        if ii < doneb.len() {
                            assert(doneb.contains(r));
                        } else {
                            assert(r == o);
                            assert(open@[k as int] == r);
                        }
                    }
                    assert forall|r: Rect|
                        ((is_mesh_rect(walls@, r) && r.top <= y - 2) || (exists|i: int|
                            0 <= i < k + 1 && open@[i] == r && !plates@.contains(
                                (Plate { left: r.left, right: r.right }),
                            ))) implies #[trigger] done@.contains(r) by {
                        if is_mesh_rect(walls@, r) && r.top <= y - 2 {
                            assert(doneb.contains(r));
                            let ii = choose|ii: int| 0 <= ii < doneb.len() && doneb[ii] == r;
                            assert(done@[ii] == r);
                        } else {
                            let i = choose|i: int|
                                0 <= i < k + 1 && open@[i] == r && !plates@.contains(
                                    (Plate { left: r.left, right: r.right }),
                                );
                            if i < k {
                                assert(doneb.contains(r));
                                let ii = choose|ii: int| 0 <= ii < doneb.len() && doneb[ii] == r;
                                assert(done@[ii] == r);
                            } else {
                                assert(r == o);
                                assert(done@[done@.len() - 1] == r);
                            }
                        }
                    }
                }
            } else {
                proof {
                    assert forall|r: Rect| #[trigger] done@.contains(r) implies ((is_mesh_rect(
                        walls@,
                        r,
                    ) && r.top <= y - 2) || (exists|i: int|
                        0 <= i < k + 1 && open@[i] == r && !plates@.contains(
                            (Plate { left: r.left, right: r.right }),
                        ))) by {}
                    assert forall|r: Rect|
                        ((is_mesh_rect(walls@, r) && r.top <= y - 2) || (exists|i: int|
                            0 <= i < k + 1 && open@[i] == r && !plates@.contains(
                                (Plate { left: r.left, right: r.right }),
                            ))) implies #[trigger] done@.contains(r) by {
                        if !(is_mesh_rect(walls@, r) && r.top <= y - 2) {
                            let i = choose|i: int|
                                0 <= i < k + 1 && open@[i] == r && !plates@.contains(
                                    (Plate { left: r.left, right: r.right }),
                                );
                            assert(i < k) by {
                                if i == k {
                                    assert(open@[k as int] == o);
                                    assert(plates@.contains(
                                        (Plate { left: r.left, right: r.right }),
                                    ));
                                }
                            }
                        }
                    }
                }
            }
            k += 1;
        }
        // the closed list now holds exactly the rectangles that end below this row
        proof {
            assert forall|r: Rect| #[trigger] done@.contains(r) implies (is_mesh_rect(walls@, r)
                && r.top <= y - 1) by {
            }
            assert forall|r: Rect| is_mesh_rect(walls@, r) && r.top <= y - 1 implies #[trigger]
            done@.contains(r) by {
                if r.top == y - 1 {
                    assert(run_at(walls@, r.left as int, r.right as int, r.top as int));
                    assert(plate_run(walls@, (Plate { left: r.left, right: r.right }), y - 1));
                    let kk = choose|kk: int|
                        0 <= kk < open@.len() && (#[trigger] open@[kk]).left == r.left
                            && open@[kk].right == r.right;
                    assert(open_block(
                        walls@,
                        r.left as int,
                        r.right as int,
                        open@[kk].bottom as int,
                        y - 1,
                    ));
                    assert(open_block(walls@, r.left as int, r.right as int, r.bottom as int, y
                        - 1));
                    lemma_block_bottom_unique(
                        walls@,
                        r.left as int,
                        r.right as int,
                        open@[kk].bottom as int,
                        r.bottom as int,
                        y - 1,
                    );
                    assert(open@[kk] == r);
                    assert(!plate_run(walls@, (Plate { left: r.left, right: r.right }), y as int));
                }
            }
        }
        // grow or start a rectangle for each plate of this row
        let mut new_open: Vec<Rect> = Vec::new();
        let mut j: usize = 0;
        while j < plates.len()
            invariant
                walls.wf(),
                h as int == walls.grid_height(),
                0 <= y <= h + 1,
                0 <= j <= plates@.len(),
                forall|p: Plate| plates@.contains(p) <==> plate_run(walls@, p, y as int),
                plates_sorted(plates@),
                forall|kk: int|
                    0 <= kk < open@.len() ==> (#[trigger] open@[kk]).top == y - 1 && open_block(
                        walls@,
                        open@[kk].left as int,
                        open@[kk].right as int,
                        open@[kk].bottom as int,
                        y - 1,
                    ),
                forall|p: Plate|
                    #[trigger] plate_run(walls@, p, y - 1) ==> exists|kk: int|
                        0 <= kk < open@.len() && (#[trigger] open@[kk]).left == p.left
                            && open@[kk].right == p.right,
                new_open@.len() == j,
                forall|a: int|
                    0 <= a < j ==> (#[trigger] new_open@[a]).left == plates@[a].left
                        && new_open@[a].right == plates@[a].right && new_open@[a].top == y
                        && open_block(
                        walls@,
                        new_open@[a].left as int,
                        new_open@[a].right as int,
                        new_open@[a].bottom as int,
                        y as int,
                    ),
            decreases plates@.len() - j,
        {
            let p = plates[j];
            proof {
                assert(plates@[j as int] == p);
                assert(plates@.contains(p));
                assert(plate_run(walls@, p, y as int));
            }
            match find_open_bottom(&open, p.left, p.right) {
                Some(b) => {
                    proof {
                        let kk = choose|kk: int|
                            0 <= kk < open@.len() && open@[kk].left == p.left && open@[kk].right
                                == p.right && open@[kk].bottom == b;
                        assert(open_block(walls@, p.left as int, p.right as int, b as int, y - 1));
                        assert(open_block(walls@, p.left as int, p.right as int, b as int, y as int));
                    }
                    new_open.push(Rect { left: p.left, right: p.right, bottom: b, top: y });
                },
                None => {
                    proof {
                        assert(!plate_run(walls@, p, y - 1)) by {
                            if plate_run(walls@, p, y - 1) {
                                let kk = choose|kk: int|
                                    0 <= kk < open@.len() && (#[trigger] open@[kk]).left == p.left
                                        && open@[kk].right == p.right;
                            }
                        }
                        assert(open_block(
                            walls@,
                            p.left as int,
                            p.right as int,
                            y as int,
                            y as int,
                        ));
                    }
                    new_open.push(Rect { left: p.left, right: p.right, bottom: y, top: y });
                },
            }
            j += 1;
        }
        open = new_open;
        proof {
            assert forall|p: Plate| #[trigger] plate_run(walls@, p, y as int) implies exists|kk: int|
                0 <= kk < open@.len() && (#[trigger] open@[kk]).left == p.left && open@[kk].right
                    == p.right by {
                assert(plates@.contains(p));
                let a = choose|a: int| 0 <= a < plates@.len() && plates@[a] == p;
                assert(open@[a].left == p.left && open@[a].right == p.right);
            }
            assert forall|k1: int, k2: int|
                0 <= k1 < k2 < open@.len() implies open@[k1].left < open@[k2].left by {
                assert(plates@[k1].left < plates@[k2].left);
            }
        }
        y += 1;
    }
    proof {
        assert forall|r: Rect| #[trigger] done@.contains(r) implies is_mesh_rect(walls@, r) by {}
        assert forall|r: Rect| is_mesh_rect(walls@, r) implies #[trigger] done@.contains(r) by {
            assert(run_at(walls@, r.left as int, r.right as int, r.top as int));
            assert(walls@.contains((r.left as int, r.top as int)));
            assert(r.top <= y - 2);
        }
        // coverage
        assert forall|p: (int, int)| walls@.contains(p) implies exists|i: int|
            0 <= i < done@.len() && rect_covers(#[trigger] done@[i], p) by {
            lemma_wall_covered(walls@, walls.grid_width(), walls.grid_height(), p);
            let r = choose|r: Rect| is_mesh_rect(walls@, r) && rect_covers(r, p);
            assert(done@.contains(r));
            let i = choose|i: int| 0 <= i < done@.len() && done@[i] == r;
            assert(rect_covers(done@[i], p));
        }
        assert forall|p: (int, int)|
            (exists|i: int| 0 <= i < done@.len() && rect_covers(#[trigger] done@[i], p))
            implies walls@.contains(p) by {
            let i = choose|i: int| 0 <= i < done@.len() && rect_covers(done@[i], p);
            assert(done@.contains(done@[i]));
            let r = done@[i];
            assert(run_at(walls@, r.left as int, r.right as int, p.1));
        }
        // every output rectangle lies inside the grid
        assert forall|i: int| 0 <= i < done@.len() implies {
            let r = #[trigger] done@[i];
            &&& 0 <= r.left <= r.right < walls.grid_width()
            &&& 0 <= r.bottom <= r.top < walls.grid_height()
        } by {
            let r = done@[i];
            assert(done@.contains(r));
            assert(run_at(walls@, r.left as int, r.right as int, r.bottom as int));
            assert(run_at(walls@, r.left as int, r.right as int, r.top as int));
            assert(walls@.contains((r.left as int, r.bottom as int)));
            assert(walls@.contains((r.right as int, r.bottom as int)));
            assert(walls@.contains((r.left as int, r.top as int)));
        }
        // non-overlap
        assert forall|i: int, j: int, p: (int, int)|
            0 <= i < j < done@.len() && #[trigger] rect_covers(done@[i], p) implies !(#[trigger]
        rect_covers(done@[j], p)) by {
            assert(rect_before(done@[i], done@[j]));
            assert(done@.contains(done@[i]));
            assert(done@.contains(done@[j]));
            lemma_mesh_rects_disjoint(walls@, done@[i], done@[j], p);
        }
    }
    done
}

} // verus!
