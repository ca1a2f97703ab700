//! The packing feasibility solver: an occupancy grid, a backtracking search
//! with area pruning and a most-constrained-shape heuristic, and the region
//! evaluator.

use vstd::prelude::*;
use crate::shapes::{Coord, Shape, cell_set, cell_of, distinct_coords, coords_bounded, is_canonical,
    shift_set, lemma_cell_set_contains, lemma_cell_set_len};

verus! {

/// A region to tile: its dimensions and the required count per shape index.
pub struct Region {
    pub width: usize,
    pub height: usize,
    pub required: Vec<usize>,
}

/// One placed shape instance, in the mathematical model: which shape, which
/// of its orientations, and the origin cell of the placement.
pub ghost struct Placement {
    pub shape: int,
    pub orient: int,
    pub ox: int,
    pub oy: int,
}

/// The offset list of one orientation of one shape.
pub open spec fn orient_seq(shapes: Seq<Vec<Shape>>, s: int, o: int) -> Seq<Coord> {
    shapes[s]@[o]@
}

/// The grid cells covered by a placement.
pub open spec fn placement_cells(shapes: Seq<Vec<Shape>>, p: Placement) -> Set<(int, int)> {
    shift_set(cell_set(orient_seq(shapes, p.shape, p.orient)), p.ox, p.oy)
}

/// Whether a cell lies on a w-by-h grid.
pub open spec fn in_bounds(w: int, h: int, q: (int, int)) -> bool {
    0 <= q.0 < w && 0 <= q.1 < h
}

/// The row-major index of a cell on a grid of width w.
pub open spec fn cell_index(w: int, q: (int, int)) -> int {
    q.1 * w + q.0
}

/// Whether some cell of the set has row-major index i.
pub open spec fn covers(w: int, cells: Set<(int, int)>, i: int) -> bool {
    exists|q: (int, int)| cells.contains(q) && 0 <= q.0 < w && 0 <= q.1 && cell_index(w, q) == i
}

/// The occupancy map after marking every cell of the set occupied.
pub open spec fn grid_place(g: Seq<bool>, w: int, cells: Set<(int, int)>) -> Seq<bool> {
    Seq::new(g.len(), |i: int| g[i] || covers(w, cells, i))
}

/// The occupancy map after marking every cell of the set unoccupied.
pub open spec fn grid_remove(g: Seq<bool>, w: int, cells: Set<(int, int)>) -> Seq<bool> {
    Seq::new(g.len(), |i: int| g[i] && !covers(w, cells, i))
}

/// Whether a shape orientation fits at origin (ox, oy): every cell on the
/// grid and unoccupied.
pub open spec fn fits(w: int, h: int, g: Seq<bool>, sh: Seq<Coord>, ox: int, oy: int) -> bool {
    forall|i: int| 0 <= i < sh.len() ==> {
        let q = ((#[trigger] sh[i]).0 + ox, sh[i].1 + oy);
        in_bounds(w, h, q) && !g[cell_index(w, q)]
    }
}

/// Whether a placement is legal on the given occupancy map.
pub open spec fn placement_ok(
    w: int, h: int, g: Seq<bool>, shapes: Seq<Vec<Shape>>, p: Placement,
) -> bool {
    &&& 0 <= p.shape < shapes.len()
    &&& 0 <= p.orient < shapes[p.shape]@.len()
    &&& fits(w, h, g, orient_seq(shapes, p.shape, p.orient), p.ox, p.oy)
}

/// How many placements in the list are instances of shape s.
pub open spec fn count_shape(ps: Seq<Placement>, s: int) -> int {
    ps.filter(|p: Placement| p.shape == s).len() as int
}

/// A full solution: legal, pairwise disjoint placements meeting every
/// required count.
pub open spec fn is_solution(
    w: int, h: int, g: Seq<bool>, shapes: Seq<Vec<Shape>>, counts: Seq<usize>, ps: Seq<Placement>,
) -> bool {
    &&& forall|i: int| 0 <= i < ps.len() ==> placement_ok(w, h, g, shapes, #[trigger] ps[i])
    &&& forall|i: int| 0 <= i < ps.len() ==> 0 <= (#[trigger] ps[i]).shape < counts.len()
    &&& forall|i: int, j: int| 0 <= i < j < ps.len() ==>
        placement_cells(shapes, ps[i]).disjoint(placement_cells(shapes, ps[j]))
    &&& forall|s: int| 0 <= s < counts.len() ==> count_shape(ps, s) == counts[s]
}

/// The required tile instances can all be placed on the grid without
/// overlap: the core feasibility notion of the solver.
pub open spec fn feasible(
    w: int, h: int, g: Seq<bool>, shapes: Seq<Vec<Shape>>, counts: Seq<usize>,
) -> bool {
    exists|ps: Seq<Placement>| is_solution(w, h, g, shapes, counts, ps)
}

/// A well-formed orientation library: every shape has at least one
/// orientation; all orientations of a shape are non-empty, duplicate-free,
/// canonical, equally sized, and coordinate-bounded.
pub open spec fn shapes_wf(shapes: Seq<Vec<Shape>>) -> bool {
    &&& forall|s: int| 0 <= s < shapes.len() ==> (#[trigger] shapes[s])@.len() >= 1
    &&& forall|s: int, o: int| 0 <= s < shapes.len() && 0 <= o < shapes[s]@.len() ==> {
        let sh = #[trigger] orient_seq(shapes, s, o);
        &&& sh.len() >= 1
        &&& sh.len() == orient_seq(shapes, s, 0).len()
        &&& distinct_coords(sh)
        &&& coords_bounded(sh, 0x4000_0000)
        &&& is_canonical(cell_set(sh))
    }
}

/// The number of unoccupied cells in an occupancy map.
pub open spec fn count_free(g: Seq<bool>) -> int
    decreases g.len(),
{
    if g.len() == 0 {
        0
    } else {
        count_free(g.drop_last()) + if g.last() { 0int } else { 1int }
    }
}

/// Cells with the same row-major index are the same cell.
pub proof fn lemma_cell_index_injective(w: int, q1: (int, int), q2: (int, int))
    by (nonlinear_arith)
    requires
        0 <= q1.0 < w,
        0 <= q2.0 < w,
        q1.1 >= 0,
        q2.1 >= 0,
        cell_index(w, q1) == cell_index(w, q2),
    ensures
        q1 == q2,
{
}

/// A cell on the grid has its row-major index inside the map.
pub proof fn lemma_cell_index_bounds(w: int, h: int, q: (int, int))
    by (nonlinear_arith)
    requires
        in_bounds(w, h, q),
    ensures
        0 <= cell_index(w, q) < w * h,
{
}

/// The solver state for one region: the grid dimensions and the occupancy
/// map, in row-major order.
pub struct Solver {
    pub width: i32,
    pub height: i32,
    pub grid: Vec<bool>,
}

impl Solver {
    /// The dimensions are positive and small enough that every row-major
    /// index fits the machine, and the map has one entry per cell.
    pub open spec fn wf(&self) -> bool {
        &&& 0 < self.width as int <= 0x2000_0000
        &&& 0 < self.height as int <= 0x2000_0000
        &&& self.width as int * self.height as int <= 0x7FFF_FFFF
        &&& self.grid@.len() == self.width as int * self.height as int
    }

    /// A fresh, fully unoccupied grid.
    pub fn new(width: usize, height: usize) -> (r: Solver)
        requires
            0 < width <= 0x2000_0000,
            0 < height <= 0x2000_0000,
            width * height <= 0x7FFF_FFFF,
        ensures
            r.wf(),
            r.width as int == width,
            r.height as int == height,
            forall|i: int| 0 <= i < r.grid@.len() ==> !(#[trigger] r.grid@[i]),
    {
        let n = width * height;
        let mut grid: Vec<bool> = Vec::new();
        let mut i: usize = 0;
        while i < n
            invariant
                i <= n,
                grid@.len() == i,
                forall|j: int| 0 <= j < i ==> !(#[trigger] grid@[j]),
            decreases n - i,
        {
            grid.push(false);
            i += 1;
        }
        Solver { width: width as i32, height: height as i32, grid }
    }

    /// True iff the orientation fits at (ox, oy): all cells on the grid and
    /// unoccupied. No side effects.
    pub fn can_place(&self, shape: &Shape, ox: i32, oy: i32) -> (r: bool)
        requires
            self.wf(),
            coords_bounded(shape@, 0x4000_0000),
            -0x4000_0000 <= ox && (ox as int) < 0x4000_0000,
            -0x4000_0000 <= oy && (oy as int) < 0x4000_0000,
        ensures
            r == fits(self.width as int, self.height as int, self.grid@, shape@, ox as int, oy as int),
    {
        let w = self.width;
        let h = self.height;
        let mut i: usize = 0;
        while i < shape.len()
            invariant
                self.wf(),
                w == self.width,
                h == self.height,
                coords_bounded(shape@, 0x4000_0000),
                -0x4000_0000 <= ox && (ox as int) < 0x4000_0000,
                -0x4000_0000 <= oy && (oy as int) < 0x4000_0000,
                i <= shape@.len(),
                forall|j: int| 0 <= j < i ==> {
                    let q = ((#[trigger] shape@[j]).0 + ox, shape@[j].1 + oy);
                    in_bounds(w as int, h as int, q) && !self.grid@[cell_index(w as int, q)]
                },
            decreases shape@.len() - i,
        {
            let (sx, sy) = shape[i];
            let x = ox + sx;
            let y = oy + sy;
            if x < 0 || y < 0 || x >= w || y >= h {
                return false;
            }
            proof {
                lemma_cell_index_bounds(w as int, h as int, (x as int, y as int));
                assert(y * w <= (h - 1) * w) by (nonlinear_arith)
                    requires y <= h - 1, w > 0;
                assert((h - 1) as int * w as int + w as int == h as int * w as int) by (nonlinear_arith);
            }
            let idx = (y * w + x) as usize;
            if self.grid[idx] {
                return false;
            }
            i += 1;
        }
        true
    }

    /// Mark every cell of the orientation, placed at (ox, oy), occupied.
    #[verifier::spinoff_prover]
    pub fn place(&mut self, shape: &Shape, ox: i32, oy: i32)
        requires
            old(self).wf(),
            coords_bounded(shape@, 0x4000_0000),
            -0x4000_0000 <= ox && (ox as int) < 0x4000_0000,
            -0x4000_0000 <= oy && (oy as int) < 0x4000_0000,
            fits(old(self).width as int, old(self).height as int, old(self).grid@, shape@, ox as int, oy as int),
        ensures
            final(self).wf(),
            final(self).width == old(self).width,
            final(self).height == old(self).height,
            final(self).grid@ == grid_place(
                old(self).grid@,
                old(self).width as int,
                shift_set(cell_set(shape@), ox as int, oy as int),
            ),
    {
        let w = self.width;
        let h = self.height;
        let ghost g0 = self.grid@;
        let ghost wi = w as int;
        let ghost all_cells = shift_set(cell_set(shape@), ox as int, oy as int);
        let mut i: usize = 0;
        proof {
            assert(self.grid@ =~= grid_place(g0, wi, shift_set(cell_set(shape@.take(0)), ox as int, oy as int)))
                by {
                assert(shape@.take(0) =~= Seq::<Coord>::empty());
                lemma_cell_set_contains(shape@.take(0));
            }
        }
        while i < shape.len()
            invariant
                w == self.width,
                h == self.height,
                self.wf(),
                g0.len() == self.grid@.len(),
                wi == w as int,
                coords_bounded(shape@, 0x4000_0000),
                -0x4000_0000 <= ox && (ox as int) < 0x4000_0000,
                -0x4000_0000 <= oy && (oy as int) < 0x4000_0000,
                fits(wi, h as int, g0, shape@, ox as int, oy as int),
                i <= shape@.len(),
                self.grid@ == grid_place(g0, wi, shift_set(cell_set(shape@.take(i as int)), ox as int, oy as int)),
            decreases shape@.len() - i,
        {
            let (sx, sy) = shape[i];
            let x = ox + sx;
            let y = oy + sy;
            proof {
                assert(in_bounds(wi, h as int, (x as int, y as int)));
                lemma_cell_index_bounds(wi, h as int, (x as int, y as int));
                assert(y * w <= (h - 1) * w) by (nonlinear_arith)
                    requires y <= h - 1, w > 0;
                assert((h - 1) as int * w as int + w as int == h as int * w as int) by (nonlinear_arith);
            }
            let idx = (y * w + x) as usize;
            self.grid.set(idx, true);
            proof {
                let prev = shift_set(cell_set(shape@.take(i as int)), ox as int, oy as int);
                let next = shift_set(cell_set(shape@.take(i + 1)), ox as int, oy as int);
                let qnew = (x as int, y as int);
                lemma_cell_set_contains(shape@.take(i as int));
                lemma_cell_set_contains(shape@.take(i + 1));
                assert(forall|j: int| 0 <= j < i ==> shape@.take(i as int)[j] == shape@[j]);
                assert(forall|j: int| 0 <= j <= i ==> shape@.take(i + 1)[j] == shape@[j]);
                assert forall|q: (int, int)| next.contains(q) implies prev.contains(q) || q == qnew by {
                    let p = (q.0 - ox, q.1 - oy);
                    let j = choose|j: int| 0 <= j < shape@.take(i + 1).len()
                        && p == cell_of(#[trigger] shape@.take(i + 1)[j]);
                    if j < i {
                        assert(cell_set(shape@.take(i as int)).contains(p));
                    }
                }
                assert forall|q: (int, int)| prev.contains(q) implies next.contains(q) by {
                    let p = (q.0 - ox, q.1 - oy);
                    let j = choose|j: int| 0 <= j < shape@.take(i as int).len()
                        && p == cell_of(#[trigger] shape@.take(i as int)[j]);
                    assert(shape@.take(i + 1)[j] == shape@[j]);
                    assert(cell_set(shape@.take(i + 1)).contains(p));
                }
                assert(next.contains(qnew)) by {
                    assert(shape@.take(i + 1)[i as int] == shape@[i as int]);
                    assert(cell_set(shape@.take(i + 1)).contains(cell_of(shape@[i as int])));
                }
                assert forall|idx2: int| 0 <= idx2 < g0.len() implies
                    self.grid@[idx2] == (g0[idx2] || covers(wi, next, idx2)) by {
                    if idx2 == idx {
                        assert(covers(wi, next, idx2)) by {
                            assert(next.contains(qnew) && 0 <= qnew.0 < wi && 0 <= qnew.1
                                && cell_index(wi, qnew) == idx2);
                        }
                    } else {
                        if covers(wi, next, idx2) {
                            let q = choose|q: (int, int)| next.contains(q) && 0 <= q.0 < wi && 0 <= q.1
                                && cell_index(wi, q) == idx2;
                            assert(q != qnew);
                            assert(prev.contains(q));
                            assert(covers(wi, prev, idx2));
                        }
                        if covers(wi, prev, idx2) {
                            let q = choose|q: (int, int)| prev.contains(q) && 0 <= q.0 < wi && 0 <= q.1
                                && cell_index(wi, q) == idx2;
                            assert(next.contains(q));
                            assert(covers(wi, next, idx2));
                        }
                    }
                }
                assert(self.grid@ =~= grid_place(g0, wi, next));
            }
            i += 1;
        }
        proof {
            assert(shape@.take(shape@.len() as int) =~= shape@);
        }
    }

    /// Mark every cell of the orientation, placed at (ox, oy), unoccupied:
    /// the exact inverse of place with the same arguments.
    #[verifier::spinoff_prover]
    pub fn remove(&mut self, shape: &Shape, ox: i32, oy: i32)
        requires
            old(self).wf(),
            coords_bounded(shape@, 0x4000_0000),
            -0x4000_0000 <= ox && (ox as int) < 0x4000_0000,
            -0x4000_0000 <= oy && (oy as int) < 0x4000_0000,
            forall|i: int| 0 <= i < shape@.len() ==> in_bounds(
                old(self).width as int,
                old(self).height as int,
                ((#[trigger] shape@[i]).0 + ox, shape@[i].1 + oy),
            ),
        ensures
            final(self).wf(),
            final(self).width == old(self).width,
            final(self).height == old(self).height,
            final(self).grid@ == grid_remove(
                old(self).grid@,
                old(self).width as int,
                shift_set(cell_set(shape@), ox as int, oy as int),
            ),
    {
        let w = self.width;
        let h = self.height;
        let ghost g0 = self.grid@;
        let ghost wi = w as int;
        let mut i: usize = 0;
        proof {
            assert(self.grid@ =~= grid_remove(g0, wi, shift_set(cell_set(shape@.take(0)), ox as int, oy as int)))
                by {
                assert(shape@.take(0) =~= Seq::<Coord>::empty());
                lemma_cell_set_contains(shape@.take(0));
            }
        }
        while i < shape.len()
            invariant
                w == self.width,
                h == self.height,
                self.wf(),
                g0.len() == self.grid@.len(),
                wi == w as int,
                coords_bounded(shape@, 0x4000_0000),
                -0x4000_0000 <= ox && (ox as int) < 0x4000_0000,
                -0x4000_0000 <= oy && (oy as int) < 0x4000_0000,
                forall|j: int| 0 <= j < shape@.len() ==> in_bounds(
                    wi,
                    h as int,
                    ((#[trigger] shape@[j]).0 + ox, shape@[j].1 + oy),
                ),
                i <= shape@.len(),
                self.grid@ == grid_remove(g0, wi, shift_set(cell_set(shape@.take(i as int)), ox as int, oy as int)),
            decreases shape@.len() - i,
        {
            let (sx, sy) = shape[i];
            let x = ox + sx;
            let y = oy + sy;
            proof {
                assert(in_bounds(wi, h as int, (x as int, y as int)));
                lemma_cell_index_bounds(wi, h as int, (x as int, y as int));
                assert(y * w <= (h - 1) * w) by (nonlinear_arith)
                    requires y <= h - 1, w > 0;
                assert((h - 1) as int * w as int + w as int == h as int * w as int) by (nonlinear_arith);
            }
            let idx = (y * w + x) as usize;
            self.grid.set(idx, false);
            proof {
                let prev = shift_set(cell_set(shape@.take(i as int)), ox as int, oy as int);
                let next = shift_set(cell_set(shape@.take(i + 1)), ox as int, oy as int);
                let qnew = (x as int, y as int);
                lemma_cell_set_contains(shape@.take(i as int));
                lemma_cell_set_contains(shape@.take(i + 1));
                assert(forall|j: int| 0 <= j < i ==> shape@.take(i as int)[j] == shape@[j]);
                assert(forall|j: int| 0 <= j <= i ==> shape@.take(i + 1)[j] == shape@[j]);
                assert forall|q: (int, int)| next.contains(q) implies prev.contains(q) || q == qnew by {
                    let p = (q.0 - ox, q.1 - oy);
                    let j = choose|j: int| 0 <= j < shape@.take(i + 1).len()
                        && p == cell_of(#[trigger] shape@.take(i + 1)[j]);
                    if j < i {
                        assert(cell_set(shape@.take(i as int)).contains(p));
                    }
                }
                assert forall|q: (int, int)| prev.contains(q) implies next.contains(q) by {
                    let p = (q.0 - ox, q.1 - oy);
                    let j = choose|j: int| 0 <= j < shape@.take(i as int).len()
                        && p == cell_of(#[trigger] shape@.take(i as int)[j]);
                    assert(shape@.take(i + 1)[j] == shape@[j]);
                    assert(cell_set(shape@.take(i + 1)).contains(p));
                }
                assert(next.contains(qnew)) by {
                    assert(shape@.take(i + 1)[i as int] == shape@[i as int]);
                    assert(cell_set(shape@.take(i + 1)).contains(cell_of(shape@[i as int])));
                }
                assert forall|idx2: int| 0 <= idx2 < g0.len() implies
                    self.grid@[idx2] == (g0[idx2] && !covers(wi, next, idx2)) by {
                    if idx2 == idx {
                        assert(covers(wi, next, idx2)) by {
                            assert(next.contains(qnew) && 0 <= qnew.0 < wi && 0 <= qnew.1
                                && cell_index(wi, qnew) == idx2);
                        }
                    } else {
                        if covers(wi, next, idx2) {
                            let q = choose|q: (int, int)| next.contains(q) && 0 <= q.0 < wi && 0 <= q.1
                                && cell_index(wi, q) == idx2;
                            assert(q != qnew);
                            assert(prev.contains(q));
                            assert(covers(wi, prev, idx2));
                        }
                        if covers(wi, prev, idx2) {
                            let q = choose|q: (int, int)| prev.contains(q) && 0 <= q.0 < wi && 0 <= q.1
                                && cell_index(wi, q) == idx2;
                            assert(next.contains(q));
                            assert(covers(wi, next, idx2));
                        }
                    }
                }
                assert(self.grid@ =~= grid_remove(g0, wi, next));
            }
            i += 1;
        }
        proof {
            assert(shape@.take(shape@.len() as int) =~= shape@);
        }
    }

    /// The number of unoccupied cells, used for area pruning.
    pub fn empty_cells(&self) -> (r: usize)
        ensures
            r == count_free(self.grid@),
    {
        let mut count: usize = 0;
        let mut i: usize = 0;
        while i < self.grid.len()
            invariant
                i <= self.grid@.len(),
                count == count_free(self.grid@.take(i as int)),
                count <= i,
            decreases self.grid@.len() - i,
        {
            proof {
                assert(self.grid@.take(i + 1).drop_last() =~= self.grid@.take(i as int));
                assert(self.grid@.take(i + 1).last() == self.grid@[i as int]);
            }
            if !self.grid[i] {
                count += 1;
            }
            i += 1;
        }
        proof {
            assert(self.grid@.take(self.grid@.len() as int) =~= self.grid@);
        }
        count
    }
}

/// fits, restated over the covered cell set.
pub proof fn lemma_fits_cells(w: int, h: int, g: Seq<bool>, sh: Seq<Coord>, ox: int, oy: int)
    ensures
        fits(w, h, g, sh, ox, oy) <==> forall|q: (int, int)|
            shift_set(cell_set(sh), ox, oy).contains(q) ==> in_bounds(w, h, q) && !g[cell_index(w, q)],
{
    lemma_cell_set_contains(sh);
    let cells = shift_set(cell_set(sh), ox, oy);
    if fits(w, h, g, sh, ox, oy) {
        assert forall|q: (int, int)| cells.contains(q)
            implies in_bounds(w, h, q) && !g[cell_index(w, q)] by {
            let i = choose|i: int| 0 <= i < sh.len() && (q.0 - ox, q.1 - oy) == cell_of(#[trigger] sh[i]);
            assert(q == (sh[i].0 + ox, sh[i].1 + oy));
        }
    }
    if forall|q: (int, int)| cells.contains(q) ==> in_bounds(w, h, q) && !g[cell_index(w, q)] {
        assert forall|i: int| 0 <= i < sh.len() implies {
            let q = ((#[trigger] sh[i]).0 + ox, sh[i].1 + oy);
            in_bounds(w, h, q) && !g[cell_index(w, q)]
        } by {
            let q = (sh[i].0 + ox, sh[i].1 + oy);
            assert(cell_set(sh).contains(cell_of(sh[i])));
            assert(cells.contains(q));
        }
    }
}

/// Place then remove with the same cells restores the map exactly, provided
/// the cells were unoccupied before the place.
pub proof fn lemma_place_remove_round_trip(g: Seq<bool>, w: int, cells: Set<(int, int)>)
    requires
        forall|q: (int, int)| cells.contains(q) ==>
            0 <= q.0 < w && 0 <= q.1 && 0 <= cell_index(w, q) < g.len() && !g[cell_index(w, q)],
    ensures
        grid_remove(grid_place(g, w, cells), w, cells) == g,
{
    let gp = grid_place(g, w, cells);
    assert forall|i: int| 0 <= i < g.len() implies grid_remove(gp, w, cells)[i] == g[i] by {
        if covers(w, cells, i) {
            let q = choose|q: (int, int)| cells.contains(q) && 0 <= q.0 < w && 0 <= q.1
                && cell_index(w, q) == i;
            assert(!g[i]);
        }
    }
    assert(grid_remove(grid_place(g, w, cells), w, cells) =~= g);
}

/// The grid cells of all of a solution's placements together.
pub open spec fn sol_cells(shapes: Seq<Vec<Shape>>, ps: Seq<Placement>) -> Set<(int, int)>
    decreases ps.len(),
{
    if ps.len() == 0 {
        Set::empty()
    } else {
        sol_cells(shapes, ps.drop_last()).union(placement_cells(shapes, ps.last()))
    }
}

/// The search committed a solution: some placement set that solves the
/// starting state is placed, whole, onto the final grid.
#[verifier::opaque]
pub open spec fn committed(
    w: int, h: int, g0: Seq<bool>, shapes: Seq<Vec<Shape>>, counts: Seq<usize>, g1: Seq<bool>,
) -> bool {
    exists|ps: Seq<Placement>| #[trigger] is_solution(w, h, g0, shapes, counts, ps)
        && g1 == grid_place(g0, w, sol_cells(shapes, ps))
}

/// With nothing required, the untouched grid is a committed (empty)
/// solution.
#[verifier::spinoff_prover]
pub proof fn lemma_committed_empty(
    w: int, h: int, g: Seq<bool>, shapes: Seq<Vec<Shape>>, counts: Seq<usize>,
)
    requires
        forall|i: int| 0 <= i < counts.len() ==> counts[i] == 0,
    ensures
        committed(w, h, g, shapes, counts, g),
{
    reveal(committed);
    lemma_feasible_empty(w, h, g, shapes, counts);
    let ps0 = Seq::<Placement>::empty();
    assert(sol_cells(shapes, ps0) =~= Set::<(int, int)>::empty());
    lemma_grid_place_empty(g, w);
    assert(is_solution(w, h, g, shapes, counts, ps0)
        && g == grid_place(g, w, sol_cells(shapes, ps0)));
}

/// A committed solution of the state after one legal placement is a
/// committed solution of the state before it.
#[verifier::spinoff_prover]
pub proof fn lemma_committed_extend(
    w: int, h: int, g0: Seq<bool>, shapes: Seq<Vec<Shape>>, counts: Seq<usize>, p: Placement,
    g2: Seq<bool>,
)
    requires
        0 <= p.shape < counts.len(),
        counts.len() <= shapes.len(),
        counts[p.shape] > 0,
        g0.len() >= w * h,
        placement_ok(w, h, g0, shapes, p),
        committed(
            w, h,
            grid_place(g0, w, placement_cells(shapes, p)),
            shapes,
            counts.update(p.shape, (counts[p.shape] - 1) as usize),
            g2,
        ),
    ensures
        committed(w, h, g0, shapes, counts, g2),
        feasible(w, h, g0, shapes, counts),
{
    reveal(committed);
    let cells = placement_cells(shapes, p);
    let gp = grid_place(g0, w, cells);
    let counts1 = counts.update(p.shape, (counts[p.shape] - 1) as usize);
    let ps1 = choose|ps1: Seq<Placement>| #[trigger] is_solution(w, h, gp, shapes, counts1, ps1)
        && g2 == grid_place(gp, w, sol_cells(shapes, ps1));
    lemma_solution_extend(w, h, g0, shapes, counts, p, ps1);
    let ps = ps1.push(p);
    assert(sol_cells(shapes, ps) =~= cells.union(sol_cells(shapes, ps1))) by {
        assert(ps.drop_last() =~= ps1);
        assert(ps.last() == p);
        assert(sol_cells(shapes, ps)
            == sol_cells(shapes, ps.drop_last()).union(placement_cells(shapes, ps.last())));
    }
    lemma_grid_place_union(g0, w, cells, sol_cells(shapes, ps1));
    assert(is_solution(w, h, g0, shapes, counts, ps)
        && g2 == grid_place(g0, w, sol_cells(shapes, ps)));
}


/// A cell belongs to a solution's cells exactly when one of its placements
/// covers it.
proof fn lemma_sol_cells_contains(shapes: Seq<Vec<Shape>>, ps: Seq<Placement>)
    ensures
        forall|q: (int, int)| sol_cells(shapes, ps).contains(q) <==> exists|i: int|
            0 <= i < ps.len() && #[trigger] placement_cells(shapes, ps[i]).contains(q),
    decreases ps.len(),
{
    if ps.len() > 0 {
        lemma_sol_cells_contains(shapes, ps.drop_last());
        assert(forall|i: int| 0 <= i < ps.len() - 1 ==> ps.drop_last()[i] == ps[i]);
        assert forall|q: (int, int)| sol_cells(shapes, ps).contains(q) implies exists|i: int|
            0 <= i < ps.len() && #[trigger] placement_cells(shapes, ps[i]).contains(q) by {
            if placement_cells(shapes, ps.last()).contains(q) {
                assert(placement_cells(shapes, ps[ps.len() - 1]).contains(q));
            } else {
                assert(sol_cells(shapes, ps)
                    == sol_cells(shapes, ps.drop_last()).union(placement_cells(shapes, ps.last())));
                assert(sol_cells(shapes, ps.drop_last()).contains(q));
                assert(exists|i: int| 0 <= i < ps.drop_last().len()
                    && #[trigger] placement_cells(shapes, ps.drop_last()[i]).contains(q));
                let i = choose|i: int| 0 <= i < ps.drop_last().len()
                    && #[trigger] placement_cells(shapes, ps.drop_last()[i]).contains(q);
                assert(ps.drop_last()[i] == ps[i]);
                assert(placement_cells(shapes, ps[i]).contains(q));
            }
        }
        assert forall|q: (int, int)|
            (exists|i: int| 0 <= i < ps.len()
                && #[trigger] placement_cells(shapes, ps[i]).contains(q))
            implies sol_cells(shapes, ps).contains(q) by {
            let i = choose|i: int| 0 <= i < ps.len()
                && #[trigger] placement_cells(shapes, ps[i]).contains(q);
            if i < ps.len() - 1 {
                assert(placement_cells(shapes, ps.drop_last()[i]).contains(q));
                assert(sol_cells(shapes, ps.drop_last()).contains(q));
            }
        }
    }
}

/// A solution occupies exactly the cells the required counts demand: after
/// placing all of its cells, the unoccupied count drops by the demanded
/// total.
#[verifier::spinoff_prover]
pub proof fn lemma_solution_fills_required(
    w: int, h: int, g: Seq<bool>, shapes: Seq<Vec<Shape>>, counts: Seq<usize>, ps: Seq<Placement>,
)
    requires
        shapes_wf(shapes),
        w > 0,
        g.len() >= w * h,
        counts.len() <= shapes.len(),
        is_solution(w, h, g, shapes, counts, ps),
    ensures
        count_free(grid_place(g, w, sol_cells(shapes, ps)))
            == count_free(g) - cells_needed(shapes, counts),
    decreases ps.len(),
{
    if ps.len() == 0 {
        assert(sol_cells(shapes, ps) =~= Set::<(int, int)>::empty());
        lemma_grid_place_empty(g, w);
        assert forall|s: int| 0 <= s < counts.len() implies counts[s] == 0 by {
            lemma_count_shape_empty(s);
        }
        lemma_cells_needed_all_zero(shapes, counts);
    } else {
        let k = ps.len() - 1;
        let p = ps.last();
        let rest = ps.drop_last();
        assert(rest =~= ps.remove(k));
        assert(forall|i: int| 0 <= i < rest.len() ==> rest[i] == ps[i]);
        let s0 = p.shape;
        lemma_count_shape_remove(ps, k, s0);
        assert(count_shape(rest, s0) >= 0);
        assert(counts[s0] >= 1);
        let counts1 = counts.update(s0, (counts[s0] - 1) as usize);
        assert forall|s2: int| 0 <= s2 < counts1.len()
            implies count_shape(rest, s2) == counts1[s2] by {
            lemma_count_shape_remove(ps, k, s2);
        }
        assert(is_solution(w, h, g, shapes, counts1, rest));
        lemma_solution_fills_required(w, h, g, shapes, counts1, rest);
        let gmid = grid_place(g, w, sol_cells(shapes, rest));
        let sh = orient_seq(shapes, s0, p.orient);
        let cells_p = placement_cells(shapes, p);
        // p still fits after the other placements: its cells are free in g
        // and disjoint from every other placement's cells.
        lemma_fits_cells(w, h, g, sh, p.ox, p.oy);
        lemma_sol_cells_contains(shapes, rest);
        assert forall|q: (int, int)| cells_p.contains(q)
            implies in_bounds(w, h, q) && !gmid[cell_index(w, q)] by {
            assert(in_bounds(w, h, q) && !g[cell_index(w, q)]);
            lemma_cell_index_bounds(w, h, q);
            if covers(w, sol_cells(shapes, rest), cell_index(w, q)) {
                let q2 = choose|q2: (int, int)| sol_cells(shapes, rest).contains(q2)
                    && 0 <= q2.0 < w && 0 <= q2.1 && cell_index(w, q2) == cell_index(w, q);
                lemma_cell_index_injective(w, q2, q);
                let i = choose|i: int| 0 <= i < rest.len()
                    && #[trigger] placement_cells(shapes, rest[i]).contains(q2);
                assert(placement_cells(shapes, ps[i]).disjoint(placement_cells(shapes, ps[k])));
            }
        }
        lemma_fits_cells(w, h, gmid, sh, p.ox, p.oy);
        assert(distinct_coords(sh));
        lemma_count_free_place(gmid, w, h, sh, p.ox, p.oy);
        // Chain the counts.
        lemma_cells_needed_update(shapes, counts, s0, (counts[s0] - 1) as usize);
        let sz = orient_seq(shapes, s0, 0).len() as int;
        assert(sz * ((counts[s0] - 1) as usize) == sz * counts[s0] - sz) by (nonlinear_arith)
            requires counts[s0] >= 1;
        assert(cells_needed(shapes, counts1) == cells_needed(shapes, counts) - sz);
        assert(sh.len() == sz);
        // Chain the grids.
        assert(sol_cells(shapes, ps) == sol_cells(shapes, rest).union(cells_p));
        lemma_grid_place_union(g, w, sol_cells(shapes, rest), cells_p);
        assert(grid_place(g, w, sol_cells(shapes, ps))
            == grid_place(gmid, w, shift_set(cell_set(sh), p.ox, p.oy)));
    }
}

/// The empty-cell arithmetic of a successful search: a committed grid has
/// exactly the demanded number of cells newly occupied.
pub proof fn lemma_committed_empty_cells(
    w: int, h: int, g0: Seq<bool>, shapes: Seq<Vec<Shape>>, counts: Seq<usize>, g1: Seq<bool>,
)
    requires
        shapes_wf(shapes),
        w > 0,
        g0.len() >= w * h,
        counts.len() <= shapes.len(),
        committed(w, h, g0, shapes, counts, g1),
    ensures
        count_free(g1) == count_free(g0) - cells_needed(shapes, counts),
{
    reveal(committed);
    let ps = choose|ps: Seq<Placement>| #[trigger] is_solution(w, h, g0, shapes, counts, ps)
        && g1 == grid_place(g0, w, sol_cells(shapes, ps));
    lemma_solution_fills_required(w, h, g0, shapes, counts, ps);
}

/// Placing no cells changes nothing.
pub proof fn lemma_grid_place_empty(g: Seq<bool>, w: int)
    ensures
        grid_place(g, w, Set::<(int, int)>::empty()) == g,
{
    assert forall|i: int| 0 <= i < g.len() implies !covers(w, Set::<(int, int)>::empty(), i) by {
        if covers(w, Set::<(int, int)>::empty(), i) {
            let q = choose|q: (int, int)| Set::<(int, int)>::empty().contains(q)
                && 0 <= q.0 < w && 0 <= q.1 && cell_index(w, q) == i;
        }
    }
    assert(grid_place(g, w, Set::<(int, int)>::empty()) =~= g);
}

/// Placing a union of cell sets is placing one set and then the other.
#[verifier::spinoff_prover]
pub proof fn lemma_grid_place_union(g: Seq<bool>, w: int, a: Set<(int, int)>, b: Set<(int, int)>)
    ensures
        grid_place(g, w, a.union(b)) == grid_place(grid_place(g, w, a), w, b),
{
    assert forall|i: int| 0 <= i < g.len() implies
        grid_place(g, w, a.union(b))[i] == grid_place(grid_place(g, w, a), w, b)[i] by {
        if covers(w, a.union(b), i) {
            let q = choose|q: (int, int)| a.union(b).contains(q) && 0 <= q.0 < w && 0 <= q.1
                && cell_index(w, q) == i;
            if a.contains(q) {
                assert(covers(w, a, i));
            } else {
                assert(covers(w, b, i));
            }
        }
        if covers(w, a, i) {
            let q = choose|q: (int, int)| a.contains(q) && 0 <= q.0 < w && 0 <= q.1
                && cell_index(w, q) == i;
            assert(a.union(b).contains(q));
            assert(covers(w, a.union(b), i));
        }
        if covers(w, b, i) {
            let q = choose|q: (int, int)| b.contains(q) && 0 <= q.0 < w && 0 <= q.1
                && cell_index(w, q) == i;
            assert(a.union(b).contains(q));
            assert(covers(w, a.union(b), i));
        }
    }
    assert(grid_place(g, w, a.union(b)) =~= grid_place(grid_place(g, w, a), w, b));
}

/// Counting placements of one shape over a push.
proof fn lemma_count_shape_push(ps: Seq<Placement>, p: Placement, s: int)
    ensures
        count_shape(ps.push(p), s) == count_shape(ps, s) + if p.shape == s { 1int } else { 0int },
{
    reveal_with_fuel(Seq::filter, 2);
    assert(ps.push(p).drop_last() =~= ps);
    assert(ps.push(p).last() == p);
}

/// Counting placements of one shape over a removal.
proof fn lemma_count_shape_remove(ps: Seq<Placement>, k: int, s: int)
    requires
        0 <= k < ps.len(),
    ensures
        count_shape(ps.remove(k), s)
            == count_shape(ps, s) - if ps[k].shape == s { 1int } else { 0int },
    decreases ps.len(),
{
    if k == ps.len() - 1 {
        assert(ps.remove(k) =~= ps.drop_last());
        lemma_count_shape_push(ps.drop_last(), ps[k], s);
        assert(ps.drop_last().push(ps[k]) =~= ps);
    } else {
        lemma_count_shape_remove(ps.drop_last(), k, s);
        lemma_count_shape_push(ps.drop_last().remove(k), ps.last(), s);
        lemma_count_shape_push(ps.drop_last(), ps.last(), s);
        assert(ps.drop_last().push(ps.last()) =~= ps);
        assert(ps.drop_last().remove(k).push(ps.last()) =~= ps.remove(k));
    }
}

/// A positive count names a placement of that shape.
proof fn lemma_count_shape_pos(ps: Seq<Placement>, s: int)
    requires
        count_shape(ps, s) > 0,
    ensures
        exists|k: int| 0 <= k < ps.len() && (#[trigger] ps[k]).shape == s,
    decreases ps.len(),
{
    reveal_with_fuel(Seq::filter, 2);
    if ps.len() > 0 {
        if ps.last().shape == s {
            assert(ps[ps.len() - 1].shape == s);
        } else {
            lemma_count_shape_push(ps.drop_last(), ps.last(), s);
            assert(ps.drop_last().push(ps.last()) =~= ps);
            lemma_count_shape_pos(ps.drop_last(), s);
            let k = choose|k: int| 0 <= k < ps.drop_last().len() && (#[trigger] ps.drop_last()[k]).shape == s;
            assert(ps[k].shape == s);
        }
    }
}

/// An empty placement list has no placements of any shape.
proof fn lemma_count_shape_empty(s: int)
    ensures
        count_shape(Seq::<Placement>::empty(), s) == 0,
{
    reveal_with_fuel(Seq::filter, 1);
}

/// The unoccupied-cell count lies between 0 and the map's size, and an
/// all-unoccupied map has count equal to its size.
pub proof fn lemma_count_free_bounds(g: Seq<bool>)
    ensures
        0 <= count_free(g) <= g.len(),
        (forall|i: int| 0 <= i < g.len() ==> !g[i]) ==> count_free(g) == g.len(),
    decreases g.len(),
{
    if g.len() > 0 {
        lemma_count_free_bounds(g.drop_last());
    }
}

/// Occupying one unoccupied entry lowers the count by exactly one.
proof fn lemma_count_free_update(g: Seq<bool>, i: int)
    requires
        0 <= i < g.len(),
        !g[i],
    ensures
        count_free(g.update(i, true)) == count_free(g) - 1,
    decreases g.len(),
{
    if i == g.len() - 1 {
        assert(g.update(i, true).drop_last() =~= g.drop_last());
    } else {
        assert(g.update(i, true).drop_last() =~= g.drop_last().update(i, true));
        lemma_count_free_update(g.drop_last(), i);
    }
}

/// Placing a fitting orientation occupies exactly its cell count.
#[verifier::spinoff_prover]
proof fn lemma_count_free_place(g: Seq<bool>, w: int, h: int, sh: Seq<Coord>, ox: int, oy: int)
    requires
        w > 0,
        g.len() >= w * h,
        distinct_coords(sh),
        fits(w, h, g, sh, ox, oy),
    ensures
        count_free(grid_place(g, w, shift_set(cell_set(sh), ox, oy))) == count_free(g) - sh.len(),
    decreases sh.len(),
{
    lemma_cell_set_contains(sh);
    if sh.len() == 0 {
        assert(grid_place(g, w, shift_set(cell_set(sh), ox, oy)) =~= g) by {
            assert forall|i: int| 0 <= i < g.len() implies
                !covers(w, shift_set(cell_set(sh), ox, oy), i) by {
                if covers(w, shift_set(cell_set(sh), ox, oy), i) {
                    let q = choose|q: (int, int)| shift_set(cell_set(sh), ox, oy).contains(q)
                        && 0 <= q.0 < w && 0 <= q.1 && cell_index(w, q) == i;
                }
            }
        }
    } else {
        let dl = sh.drop_last();
        let c = sh.last();
        let qn = (c.0 as int + ox, c.1 as int + oy);
        assert(distinct_coords(dl) && fits(w, h, g, dl, ox, oy)) by {
            assert(forall|j: int| 0 <= j < dl.len() ==> dl[j] == sh[j]);
        }
        lemma_count_free_place(g, w, h, dl, ox, oy);
        lemma_cell_set_contains(dl);
        let cells_dl = shift_set(cell_set(dl), ox, oy);
        let cells = shift_set(cell_set(sh), ox, oy);
        let gdl = grid_place(g, w, cells_dl);
        // The new cell is on the grid and its index in range.
        assert(in_bounds(w, h, qn) && !g[cell_index(w, qn)]) by {
            assert(sh[sh.len() - 1] == c);
        }
        lemma_cell_index_bounds(w, h, qn);
        // The new cell is not among the earlier ones.
        assert(!covers(w, cells_dl, cell_index(w, qn))) by {
            if covers(w, cells_dl, cell_index(w, qn)) {
                let q = choose|q: (int, int)| cells_dl.contains(q) && 0 <= q.0 < w && 0 <= q.1
                    && cell_index(w, q) == cell_index(w, qn);
                lemma_cell_index_injective(w, q, qn);
                let j = choose|j: int| 0 <= j < dl.len() && (q.0 - ox, q.1 - oy) == cell_of(#[trigger] dl[j]);
                assert(sh[j] == dl[j]);
                assert(cell_of(sh[j]) == cell_of(sh[sh.len() - 1]));
                assert(sh[j] == sh[sh.len() - 1]);
            }
        }
        // Adding the last cell is one update of the intermediate map.
        assert forall|q: (int, int)| cells.contains(q) implies cells_dl.contains(q) || q == qn by {
            let p = (q.0 - ox, q.1 - oy);
            let j = choose|j: int| 0 <= j < sh.len() && p == cell_of(#[trigger] sh[j]);
            if j < sh.len() - 1 {
                assert(dl[j] == sh[j]);
                assert(cell_set(dl).contains(p));
            }
        }
        assert forall|q: (int, int)| cells_dl.contains(q) implies cells.contains(q) by {
            let p = (q.0 - ox, q.1 - oy);
            let j = choose|j: int| 0 <= j < dl.len() && p == cell_of(#[trigger] dl[j]);
            assert(sh[j] == dl[j]);
            assert(cell_set(sh).contains(p));
        }
        assert(cells.contains(qn)) by {
            assert(cell_set(sh).contains(cell_of(sh[sh.len() - 1])));
        }
        assert(grid_place(g, w, cells) =~= gdl.update(cell_index(w, qn), true)) by {
            assert forall|i: int| 0 <= i < g.len() implies
                grid_place(g, w, cells)[i] == gdl.update(cell_index(w, qn), true)[i] by {
                if i == cell_index(w, qn) {
                    assert(covers(w, cells, i)) by {
                        assert(cells.contains(qn) && 0 <= qn.0 < w && 0 <= qn.1
                            && cell_index(w, qn) == i);
                    }
                } else {
                    if covers(w, cells, i) {
                        let q = choose|q: (int, int)| cells.contains(q) && 0 <= q.0 < w && 0 <= q.1
                            && cell_index(w, q) == i;
                        assert(q != qn);
                        assert(cells_dl.contains(q));
                        assert(covers(w, cells_dl, i));
                    }
                    if covers(w, cells_dl, i) {
                        let q = choose|q: (int, int)| cells_dl.contains(q) && 0 <= q.0 < w && 0 <= q.1
                            && cell_index(w, q) == i;
                        assert(cells.contains(q));
                        assert(covers(w, cells, i));
                    }
                }
            }
        }
        assert(!gdl[cell_index(w, qn)]) by {
            assert(!g[cell_index(w, qn)]);
        }
        lemma_count_free_update(gdl, cell_index(w, qn));
    }
}

/// The remaining counts named by a to-place list.
pub open spec fn counts_of(tp: Seq<(usize, usize)>) -> Seq<usize> {
    tp.map_values(|e: (usize, usize)| e.1)
}

/// The total of a list of counts.
pub open spec fn sum_usizes(c: Seq<usize>) -> int
    decreases c.len(),
{
    if c.len() == 0 {
        0
    } else {
        sum_usizes(c.drop_last()) + c.last()
    }
}

/// The number of grid cells the required counts demand: for each shape, its
/// cell count times its required count.
pub open spec fn cells_needed(shapes: Seq<Vec<Shape>>, counts: Seq<usize>) -> int
    decreases counts.len(),
{
    if counts.len() == 0 {
        0
    } else {
        cells_needed(shapes, counts.drop_last())
            + orient_seq(shapes, counts.len() - 1, 0).len() * counts.last()
    }
}

/// A total of zero means every count is zero, and totals are non-negative.
pub proof fn lemma_sum_usizes_zero(c: Seq<usize>)
    ensures
        sum_usizes(c) >= 0,
        sum_usizes(c) == 0 <==> forall|i: int| 0 <= i < c.len() ==> c[i] == 0,
    decreases c.len(),
{
    if c.len() > 0 {
        lemma_sum_usizes_zero(c.drop_last());
        assert(forall|i: int| 0 <= i < c.len() - 1 ==> c.drop_last()[i] == c[i]);
        if sum_usizes(c) == 0 {
            assert(c[c.len() - 1] == 0);
        }
        if forall|i: int| 0 <= i < c.len() ==> c[i] == 0 {
            assert(c.last() == c[c.len() - 1]);
        }
    }
}

/// The total after changing one count.
pub proof fn lemma_sum_usizes_update(c: Seq<usize>, s: int, v: usize)
    requires
        0 <= s < c.len(),
    ensures
        sum_usizes(c.update(s, v)) == sum_usizes(c) - c[s] + v,
    decreases c.len(),
{
    if s == c.len() - 1 {
        assert(c.update(s, v).drop_last() =~= c.drop_last());
        assert(c.update(s, v).last() == v);
    } else {
        assert(c.update(s, v).drop_last() =~= c.drop_last().update(s, v));
        lemma_sum_usizes_update(c.drop_last(), s, v);
    }
}

/// A prefix total never exceeds the whole total.
pub proof fn lemma_sum_usizes_take_le(c: Seq<usize>, i: int)
    requires
        0 <= i <= c.len(),
    ensures
        sum_usizes(c.take(i)) <= sum_usizes(c),
    decreases c.len() - i,
{
    if i == c.len() {
        assert(c.take(i) =~= c);
    } else {
        assert(c.take(i + 1).drop_last() =~= c.take(i));
        lemma_sum_usizes_take_le(c, i + 1);
    }
}

/// The demanded cells after changing one count.
pub proof fn lemma_cells_needed_update(shapes: Seq<Vec<Shape>>, c: Seq<usize>, s: int, v: usize)
    requires
        0 <= s < c.len(),
    ensures
        cells_needed(shapes, c.update(s, v))
            == cells_needed(shapes, c) + orient_seq(shapes, s, 0).len() * v
                - orient_seq(shapes, s, 0).len() * c[s],
    decreases c.len(),
{
    if s == c.len() - 1 {
        assert(c.update(s, v).drop_last() =~= c.drop_last());
        assert(c.update(s, v).last() == v);
    } else {
        assert(c.update(s, v).drop_last() =~= c.drop_last().update(s, v));
        lemma_cells_needed_update(shapes, c.drop_last(), s, v);
        assert(c.update(s, v).last() == c.last());
    }
}

/// Demanded cells are non-negative.
pub proof fn lemma_cells_needed_nonneg(shapes: Seq<Vec<Shape>>, c: Seq<usize>)
    ensures
        cells_needed(shapes, c) >= 0,
    decreases c.len(),
{
    if c.len() > 0 {
        lemma_cells_needed_nonneg(shapes, c.drop_last());
        assert(orient_seq(shapes, c.len() - 1, 0).len() * c.last() >= 0) by (nonlinear_arith)
            requires orient_seq(shapes, c.len() - 1, 0).len() >= 0, c.last() >= 0;
    }
}

/// A prefix demands no more cells than the whole.
pub proof fn lemma_cells_needed_take_le(shapes: Seq<Vec<Shape>>, c: Seq<usize>, i: int)
    requires
        0 <= i <= c.len(),
    ensures
        cells_needed(shapes, c.take(i)) <= cells_needed(shapes, c),
    decreases c.len() - i,
{
    if i == c.len() {
        assert(c.take(i) =~= c);
    } else {
        assert(c.take(i + 1).drop_last() =~= c.take(i));
        assert(c.take(i + 1).last() == c[i]);
        lemma_cells_needed_take_le(shapes, c, i + 1);
        assert(orient_seq(shapes, i, 0).len() * c[i] >= 0) by (nonlinear_arith)
            requires orient_seq(shapes, i, 0).len() >= 0, c[i] >= 0;
    }
}

/// With nothing required, the empty placement list is a solution.
pub proof fn lemma_feasible_empty(
    w: int, h: int, g: Seq<bool>, shapes: Seq<Vec<Shape>>, counts: Seq<usize>,
)
    requires
        forall|i: int| 0 <= i < counts.len() ==> counts[i] == 0,
    ensures
        is_solution(w, h, g, shapes, counts, Seq::<Placement>::empty()),
        feasible(w, h, g, shapes, counts),
{
    let ps = Seq::<Placement>::empty();
    assert forall|s: int| 0 <= s < counts.len() implies count_shape(ps, s) == counts[s] by {
        lemma_count_shape_empty(s);
    }
    assert(is_solution(w, h, g, shapes, counts, ps));
}

/// Soundness of one search step: a legal placement whose residual state
/// has a solution extends that solution to the current state.
#[verifier::spinoff_prover]
pub proof fn lemma_solution_extend(
    w: int, h: int, g: Seq<bool>, shapes: Seq<Vec<Shape>>, counts: Seq<usize>, p: Placement,
    ps1: Seq<Placement>,
)
    requires
        0 <= p.shape < counts.len(),
        counts.len() <= shapes.len(),
        counts[p.shape] > 0,
        g.len() >= w * h,
        placement_ok(w, h, g, shapes, p),
        is_solution(
            w, h,
            grid_place(g, w, placement_cells(shapes, p)),
            shapes,
            counts.update(p.shape, (counts[p.shape] - 1) as usize),
            ps1,
        ),
    ensures
        is_solution(w, h, g, shapes, counts, ps1.push(p)),
        feasible(w, h, g, shapes, counts),
{
    let cells_p = placement_cells(shapes, p);
    let gp = grid_place(g, w, cells_p);
    let counts1 = counts.update(p.shape, (counts[p.shape] - 1) as usize);
    let ps = ps1.push(p);
    let sh_p = orient_seq(shapes, p.shape, p.orient);
    lemma_fits_cells(w, h, g, sh_p, p.ox, p.oy);
    // Every earlier placement is legal on the smaller map and disjoint from p.
    assert forall|i: int| 0 <= i < ps1.len() implies
        placement_ok(w, h, g, shapes, #[trigger] ps1[i])
        && placement_cells(shapes, ps1[i]).disjoint(cells_p) by {
        assert(placement_ok(w, h, gp, shapes, ps1[i]));
        let sh_i = orient_seq(shapes, ps1[i].shape, ps1[i].orient);
        lemma_fits_cells(w, h, gp, sh_i, ps1[i].ox, ps1[i].oy);
        let cells_i = placement_cells(shapes, ps1[i]);
        assert forall|q: (int, int)| cells_i.contains(q)
            implies in_bounds(w, h, q) && !g[cell_index(w, q)] && !cells_p.contains(q) by {
            assert(in_bounds(w, h, q) && !gp[cell_index(w, q)]);
            lemma_cell_index_bounds(w, h, q);
            assert(gp[cell_index(w, q)] == (g[cell_index(w, q)] || covers(w, cells_p, cell_index(w, q))));
            if cells_p.contains(q) {
                assert(covers(w, cells_p, cell_index(w, q)));
            }
        }
        lemma_fits_cells(w, h, g, sh_i, ps1[i].ox, ps1[i].oy);
        assert(cells_i.disjoint(cells_p)) by {
            assert forall|q: (int, int)| cells_i.contains(q) implies !cells_p.contains(q) by {}
        }
    }
    assert forall|i: int| 0 <= i < ps.len() implies
        placement_ok(w, h, g, shapes, #[trigger] ps[i]) by {
        if i < ps1.len() {
            assert(ps[i] == ps1[i]);
        } else {
            assert(ps[i] == p);
        }
    }
    assert forall|i: int, j: int| 0 <= i < j < ps.len() implies
        placement_cells(shapes, ps[i]).disjoint(placement_cells(shapes, ps[j])) by {
        if j < ps1.len() {
            assert(ps[i] == ps1[i] && ps[j] == ps1[j]);
        } else {
            assert(ps[i] == ps1[i] && ps[j] == p);
        }
    }
    assert forall|s: int| 0 <= s < counts.len() implies count_shape(ps, s) == counts[s] by {
        lemma_count_shape_push(ps1, p, s);
        if s == p.shape {
            assert(count_shape(ps1, s) == counts1[s]);
        } else {
            assert(count_shape(ps1, s) == counts1[s]);
        }
    }
    assert forall|i: int| 0 <= i < ps.len() implies 0 <= (#[trigger] ps[i]).shape < counts.len() by {
        if i < ps1.len() {
            assert(ps[i] == ps1[i]);
            assert(0 <= ps1[i].shape < counts1.len());
        } else {
            assert(ps[i] == p);
        }
    }
    assert(is_solution(w, h, g, shapes, counts, ps));
}

/// Completeness of one search step: a feasible state with a shape still
/// required has a legal, in-range placement of that shape whose residual
/// state is again feasible.
#[verifier::spinoff_prover]
pub proof fn lemma_feasible_step(
    w: int, h: int, g: Seq<bool>, shapes: Seq<Vec<Shape>>, counts: Seq<usize>, s: int,
)
    requires
        shapes_wf(shapes),
        feasible(w, h, g, shapes, counts),
        0 <= s < counts.len(),
        counts.len() <= shapes.len(),
        counts[s] > 0,
        g.len() >= w * h,
    ensures
        exists|p: Placement| {
            &&& (#[trigger] p.shape) == s
            &&& 0 <= p.orient < shapes[s]@.len()
            &&& 0 <= p.ox < w
            &&& 0 <= p.oy < h
            &&& placement_ok(w, h, g, shapes, p)
            &&& feasible(
                w, h,
                grid_place(g, w, placement_cells(shapes, p)),
                shapes,
                counts.update(s, (counts[s] - 1) as usize),
            )
        },
{
    let ps = choose|ps: Seq<Placement>| is_solution(w, h, g, shapes, counts, ps);
    assert(count_shape(ps, s) == counts[s]);
    lemma_count_shape_pos(ps, s);
    let k = choose|k: int| 0 <= k < ps.len() && (#[trigger] ps[k]).shape == s;
    let p = ps[k];
    assert(placement_ok(w, h, g, shapes, p));
    let sh = orient_seq(shapes, s, p.orient);
    let cells_p = placement_cells(shapes, p);
    lemma_fits_cells(w, h, g, sh, p.ox, p.oy);
    // The origin ranges over the grid because orientations are canonical.
    assert(0 <= p.ox < w && 0 <= p.oy < h) by {
        assert(is_canonical(cell_set(sh)) && sh.len() >= 1) by {
            assert(orient_seq(shapes, s, p.orient) == sh);
        }
        let c0 = choose|c: (int, int)| cell_set(sh).contains(c) && c.0 == 0;
        let q0 = (c0.0 + p.ox, c0.1 + p.oy);
        assert(cells_p.contains(q0)) by {
            assert((q0.0 - p.ox, q0.1 - p.oy) == c0);
        }
        assert(in_bounds(w, h, q0));
        let c1 = choose|c: (int, int)| cell_set(sh).contains(c) && c.1 == 0;
        let q1 = (c1.0 + p.ox, c1.1 + p.oy);
        assert(cells_p.contains(q1)) by {
            assert((q1.0 - p.ox, q1.1 - p.oy) == c1);
        }
        assert(in_bounds(w, h, q1));
        assert(c0.0 >= 0 && c0.1 >= 0 && c1.0 >= 0 && c1.1 >= 0);
    }
    let gp = grid_place(g, w, cells_p);
    let counts1 = counts.update(s, (counts[s] - 1) as usize);
    let rest = ps.remove(k);
    assert(forall|i: int| 0 <= i < k ==> #[trigger] rest[i] == ps[i]);
    assert(forall|i: int| k <= i < rest.len() ==> #[trigger] rest[i] == ps[i + 1]);
    // Each remaining placement is legal on the map with p placed.
    assert forall|i: int| 0 <= i < rest.len() implies
        placement_ok(w, h, gp, shapes, #[trigger] rest[i]) by {
        let m: int = if i < k { i } else { i + 1 };
        assert(rest[i] == ps[m]);
        assert(placement_ok(w, h, g, shapes, ps[m]));
        let sh_i = orient_seq(shapes, ps[m].shape, ps[m].orient);
        let cells_i = placement_cells(shapes, ps[m]);
        assert(cells_i.disjoint(cells_p)) by {
            if m < k {
                assert(placement_cells(shapes, ps[m]).disjoint(placement_cells(shapes, ps[k])));
            } else {
                assert(placement_cells(shapes, ps[k]).disjoint(placement_cells(shapes, ps[m])));
                assert forall|q: (int, int)| cells_i.contains(q) implies !cells_p.contains(q) by {
                    if cells_p.contains(q) {
                        assert(placement_cells(shapes, ps[k]).contains(q));
                    }
                }
            }
        }
        lemma_fits_cells(w, h, g, sh_i, ps[m].ox, ps[m].oy);
        assert forall|q: (int, int)| cells_i.contains(q)
            implies in_bounds(w, h, q) && !gp[cell_index(w, q)] by {
            assert(in_bounds(w, h, q) && !g[cell_index(w, q)]);
            lemma_cell_index_bounds(w, h, q);
            if covers(w, cells_p, cell_index(w, q)) {
                let q2 = choose|q2: (int, int)| cells_p.contains(q2) && 0 <= q2.0 < w && 0 <= q2.1
                    && cell_index(w, q2) == cell_index(w, q);
                lemma_cell_index_injective(w, q2, q);
                assert(cells_p.contains(q) && cells_i.contains(q));
            }
        }
        lemma_fits_cells(w, h, gp, sh_i, ps[m].ox, ps[m].oy);
    }
    assert forall|i: int, j: int| 0 <= i < j < rest.len() implies
        placement_cells(shapes, rest[i]).disjoint(placement_cells(shapes, rest[j])) by {
        let mi: int = if i < k { i } else { i + 1 };
        let mj: int = if j < k { j } else { j + 1 };
        assert(rest[i] == ps[mi] && rest[j] == ps[mj]);
        assert(mi < mj);
    }
    assert forall|s2: int| 0 <= s2 < counts1.len() implies count_shape(rest, s2) == counts1[s2] by {
        lemma_count_shape_remove(ps, k, s2);
    }
    assert forall|i: int| 0 <= i < rest.len() implies 0 <= (#[trigger] rest[i]).shape < counts1.len() by {
        let m: int = if i < k { i } else { i + 1 };
        assert(rest[i] == ps[m]);
        assert(0 <= ps[m].shape < counts.len());
    }
    assert(is_solution(w, h, gp, shapes, counts1, rest));
    assert(feasible(w, h, gp, shapes, counts1));
}

/// Area necessity: any feasible state has at least as many unoccupied cells
/// as the required shapes demand.
#[verifier::spinoff_prover]
pub proof fn lemma_feasible_area(
    w: int, h: int, g: Seq<bool>, shapes: Seq<Vec<Shape>>, counts: Seq<usize>,
)
    requires
        shapes_wf(shapes),
        w > 0,
        g.len() >= w * h,
        feasible(w, h, g, shapes, counts),
        counts.len() <= shapes.len(),
    ensures
        cells_needed(shapes, counts) <= count_free(g),
    decreases sum_usizes(counts),
{
    lemma_sum_usizes_zero(counts);
    if sum_usizes(counts) == 0 {
        assert(cells_needed(shapes, counts) == 0) by {
            lemma_cells_needed_all_zero(shapes, counts);
        }
        lemma_count_free_bounds(g);
    } else {
        let s = choose|s: int| 0 <= s < counts.len() && counts[s] != 0;
        lemma_feasible_step(w, h, g, shapes, counts, s);
        let p = choose|p: Placement| {
            &&& (#[trigger] p.shape) == s
            &&& 0 <= p.orient < shapes[s]@.len()
            &&& 0 <= p.ox < w
            &&& 0 <= p.oy < h
            &&& placement_ok(w, h, g, shapes, p)
            &&& feasible(
                w, h,
                grid_place(g, w, placement_cells(shapes, p)),
                shapes,
                counts.update(s, (counts[s] - 1) as usize),
            )
        };
        let counts1 = counts.update(s, (counts[s] - 1) as usize);
        let sh = orient_seq(shapes, s, p.orient);
        let gp = grid_place(g, w, placement_cells(shapes, p));
        lemma_sum_usizes_update(counts, s, (counts[s] - 1) as usize);
        lemma_feasible_area(w, h, gp, shapes, counts1);
        lemma_count_free_place(g, w, h, sh, p.ox, p.oy);
        lemma_cells_needed_update(shapes, counts, s, (counts[s] - 1) as usize);
        assert(sh.len() == orient_seq(shapes, s, 0).len());
        let sz = orient_seq(shapes, s, 0).len() as int;
        assert(sz * ((counts[s] - 1) as usize) == sz * counts[s] - sz) by (nonlinear_arith)
            requires counts[s] >= 1;
        assert(cells_needed(shapes, counts1) == cells_needed(shapes, counts) - sz);
        assert(count_free(gp) == count_free(g) - sz);
    }
}

/// With every count zero, nothing is demanded.
proof fn lemma_cells_needed_all_zero(shapes: Seq<Vec<Shape>>, counts: Seq<usize>)
    requires
        forall|i: int| 0 <= i < counts.len() ==> counts[i] == 0,
    ensures
        cells_needed(shapes, counts) == 0,
    decreases counts.len(),
{
    if counts.len() > 0 {
        assert(forall|i: int| 0 <= i < counts.len() - 1 ==> counts.drop_last()[i] == counts[i]);
        lemma_cells_needed_all_zero(shapes, counts.drop_last());
        assert(counts.last() == counts[counts.len() - 1]);
        assert(orient_seq(shapes, counts.len() - 1, 0).len() * counts.last() == 0);
    }
}

/// Whether the shape has any legal placement at all: some orientation at
/// some origin on the grid.
pub open spec fn has_placement(w: int, h: int, g: Seq<bool>, shapes: Seq<Vec<Shape>>, s: int) -> bool {
    exists|o: int, x: int, y: int|
        0 <= o < shapes[s]@.len() && 0 <= x < w && 0 <= y < h
        && #[trigger] fits(w, h, g, orient_seq(shapes, s, o), x, y)
}

/// A branch of the search already shown fruitless: if the orientation fits
/// there, the state after placing it is infeasible.
spec fn dead_branch(
    w: int, h: int, g0: Seq<bool>, shapes: Seq<Vec<Shape>>, s: int, counts1: Seq<usize>,
    o: int, y: int, x: int,
) -> bool {
    fits(w, h, g0, orient_seq(shapes, s, o), x, y) ==> !feasible(
        w, h,
        grid_place(g0, w, shift_set(cell_set(orient_seq(shapes, s, o)), x, y)),
        shapes,
        counts1,
    )
}


/// The sum of all remaining counts in a to-place list.
fn total_remaining(tp: &Vec<(usize, usize)>) -> (r: usize)
    requires
        sum_usizes(counts_of(tp@)) <= usize::MAX,
    ensures
        r as int == sum_usizes(counts_of(tp@)),
{
    let ghost counts0 = counts_of(tp@);
    let mut total: usize = 0;
    let mut i: usize = 0;
    while i < tp.len()
        invariant
            counts0 == counts_of(tp@),
            sum_usizes(counts0) <= usize::MAX,
            i <= tp@.len(),
            total as int == sum_usizes(counts0.take(i as int)),
        decreases tp@.len() - i,
    {
        proof {
            assert(counts0.take(i + 1).drop_last() =~= counts0.take(i as int));
            assert(counts0.take(i + 1).last() == counts0[i as int]);
            assert(counts0[i as int] == tp@[i as int].1);
            lemma_sum_usizes_take_le(counts0, i + 1);
            lemma_sum_usizes_zero(counts0.take(i as int));
        }
        let (_, c) = tp[i];
        total += c;
        i += 1;
    }
    proof {
        assert(counts0.take(tp@.len() as int) =~= counts0);
    }
    total
}

/// The number of grid cells demanded by the remaining counts.
fn needed_cells(shapes: &Vec<Vec<Shape>>, tp: &Vec<(usize, usize)>) -> (r: usize)
    requires
        shapes_wf(shapes@),
        tp@.len() <= shapes@.len(),
        forall|i: int| 0 <= i < tp@.len() ==> (#[trigger] tp@[i]).0 == i,
        cells_needed(shapes@, counts_of(tp@)) <= usize::MAX,
    ensures
        r as int == cells_needed(shapes@, counts_of(tp@)),
{
    let ghost counts0 = counts_of(tp@);
    let mut needed: usize = 0;
    let mut i: usize = 0;
    while i < tp.len()
        invariant
            shapes_wf(shapes@),
            counts0 == counts_of(tp@),
            tp@.len() <= shapes@.len(),
            forall|j: int| 0 <= j < tp@.len() ==> (#[trigger] tp@[j]).0 == j,
            cells_needed(shapes@, counts0) <= usize::MAX,
            i <= tp@.len(),
            needed as int == cells_needed(shapes@, counts0.take(i as int)),
        decreases tp@.len() - i,
    {
        proof {
            assert(counts0.take(i + 1).drop_last() =~= counts0.take(i as int));
            assert(counts0.take(i + 1).last() == counts0[i as int]);
            assert(counts0[i as int] == tp@[i as int].1);
            assert(tp@[i as int].0 == i);
            lemma_cells_needed_take_le(shapes@, counts0, i + 1);
            lemma_cells_needed_nonneg(shapes@, counts0.take(i as int));
        }
        let (s_i, c_i) = tp[i];
        if c_i > 0 {
            let sz = shapes[s_i][0].len();
            proof {
                assert(sz as int == orient_seq(shapes@, i as int, 0).len());
                assert(cells_needed(shapes@, counts0.take(i + 1))
                    == cells_needed(shapes@, counts0.take(i as int)) + sz as int * c_i as int);
            }
            needed += sz * c_i;
        } else {
            proof {
                assert(orient_seq(shapes@, i as int, 0).len() * counts0[i as int] == 0)
                    by (nonlinear_arith)
                    requires counts0[i as int] == 0;
                assert(cells_needed(shapes@, counts0.take(i + 1))
                    == cells_needed(shapes@, counts0.take(i as int)));
            }
        }
        i += 1;
    }
    proof {
        assert(counts0.take(tp@.len() as int) =~= counts0);
    }
    needed
}


/// How many origins (x2, y) with x2 < x fit the orientation in row y.
pub open spec fn count_fits_in_row(
    w: int, h: int, g: Seq<bool>, sh: Seq<Coord>, y: int, x: int,
) -> int
    decreases x,
{
    if x <= 0 {
        0
    } else {
        count_fits_in_row(w, h, g, sh, y, x - 1)
            + if fits(w, h, g, sh, x - 1, y) { 1int } else { 0int }
    }
}

/// How many origins in rows before y fit the orientation.
pub open spec fn count_fits_rows(
    w: int, h: int, g: Seq<bool>, sh: Seq<Coord>, y: int,
) -> int
    decreases y,
{
    if y <= 0 {
        0
    } else {
        count_fits_rows(w, h, g, sh, y - 1) + count_fits_in_row(w, h, g, sh, y - 1, w)
    }
}

/// How many legal placements shape s has among its first o orientations.
pub open spec fn count_placements_upto(
    w: int, h: int, g: Seq<bool>, shapes: Seq<Vec<Shape>>, s: int, o: int,
) -> int
    decreases o,
{
    if o <= 0 {
        0
    } else {
        count_placements_upto(w, h, g, shapes, s, o - 1)
            + count_fits_rows(w, h, g, orient_seq(shapes, s, o - 1), h)
    }
}

/// The number of legal (orientation, origin) placements of shape s: every
/// orientation at every grid origin that fits.
pub open spec fn spec_count_placements(
    w: int, h: int, g: Seq<bool>, shapes: Seq<Vec<Shape>>, s: int,
) -> int {
    count_placements_upto(w, h, g, shapes, s, shapes[s]@.len() as int)
}

proof fn lemma_count_fits_in_row_le(
    w: int, h: int, g: Seq<bool>, sh: Seq<Coord>, y: int, x1: int, x2: int,
)
    requires
        0 <= x1 <= x2,
    ensures
        count_fits_in_row(w, h, g, sh, y, x1) <= count_fits_in_row(w, h, g, sh, y, x2),
    decreases x2,
{
    if x1 < x2 {
        lemma_count_fits_in_row_le(w, h, g, sh, y, x1, x2 - 1);
    }
}

proof fn lemma_count_fits_rows_le(
    w: int, h: int, g: Seq<bool>, sh: Seq<Coord>, y1: int, y2: int,
)
    requires
        0 <= y1 <= y2,
        w >= 0,
    ensures
        count_fits_rows(w, h, g, sh, y1) <= count_fits_rows(w, h, g, sh, y2),
    decreases y2,
{
    if y1 < y2 {
        lemma_count_fits_rows_le(w, h, g, sh, y1, y2 - 1);
        lemma_count_fits_in_row_le(w, h, g, sh, y2 - 1, 0, w);
    }
}

proof fn lemma_count_placements_upto_le(
    w: int, h: int, g: Seq<bool>, shapes: Seq<Vec<Shape>>, s: int, o1: int, o2: int,
)
    requires
        0 <= o1 <= o2,
        w >= 0,
        h >= 0,
    ensures
        count_placements_upto(w, h, g, shapes, s, o1)
            <= count_placements_upto(w, h, g, shapes, s, o2),
    decreases o2,
{
    if o1 < o2 {
        lemma_count_placements_upto_le(w, h, g, shapes, s, o1, o2 - 1);
        lemma_count_fits_rows_le(w, h, g, orient_seq(shapes, s, o2 - 1), 0, h);
    }
}

impl Solver {
    /// Count the legal placements of one shape, stopping as soon as the
    /// count exceeds the given cap: the exact placement count when it is
    /// within the cap, and cap + 1 once the cap is exceeded.
    #[verifier::spinoff_prover]
    pub fn count_placements(&self, shapes: &Vec<Vec<Shape>>, shape_idx: usize, max_count: usize)
        -> (r: usize)
        requires
            self.wf(),
            shapes_wf(shapes@),
            (shape_idx as int) < shapes@.len(),
            max_count < usize::MAX,
        ensures
            (r > 0) == has_placement(
                self.width as int, self.height as int, self.grid@, shapes@, shape_idx as int,
            ),
            spec_count_placements(
                self.width as int, self.height as int, self.grid@, shapes@, shape_idx as int,
            ) <= max_count ==> r == spec_count_placements(
                self.width as int, self.height as int, self.grid@, shapes@, shape_idx as int,
            ),
            spec_count_placements(
                self.width as int, self.height as int, self.grid@, shapes@, shape_idx as int,
            ) > max_count ==> r == max_count + 1,
    {
        let w = self.width;
        let h = self.height;
        let orientations = &shapes[shape_idx];
        let ghost si = shape_idx as int;
        let mut count: usize = 0;
        let mut o: usize = 0;
        while o < orientations.len()
            invariant
                self.wf(),
                w == self.width,
                h == self.height,
                shapes_wf(shapes@),
                si == shape_idx as int,
                si < shapes@.len(),
                orientations@ == shapes@[si]@,
                max_count < usize::MAX,
                count <= max_count,
                o <= orientations@.len(),
                count as int == count_placements_upto(
                    w as int, h as int, self.grid@, shapes@, si, o as int,
                ),
                count > 0 ==> has_placement(w as int, h as int, self.grid@, shapes@, si),
                count == 0 ==> forall|o2: int, y2: int, x2: int|
                    0 <= o2 < o && 0 <= y2 < h as int && 0 <= x2 < w as int ==>
                        !(#[trigger] fits(w as int, h as int, self.grid@, orient_seq(shapes@, si, o2), x2, y2)),
            decreases orientations@.len() - o,
        {
            let orientation = &orientations[o];
            let mut yy: i32 = 0;
            while yy < h
                invariant
                    self.wf(),
                    w == self.width,
                    h == self.height,
                    shapes_wf(shapes@),
                    si == shape_idx as int,
                    si < shapes@.len(),
                    orientations@ == shapes@[si]@,
                    max_count < usize::MAX,
                    count <= max_count,
                    o < orientations@.len(),
                    orientation@ == orient_seq(shapes@, si, o as int),
                    0 <= yy && (yy as int) <= h as int,
                    count as int == count_placements_upto(
                        w as int, h as int, self.grid@, shapes@, si, o as int,
                    ) + count_fits_rows(
                        w as int, h as int, self.grid@, orient_seq(shapes@, si, o as int), yy as int,
                    ),
                    count > 0 ==> has_placement(w as int, h as int, self.grid@, shapes@, si),
                    count == 0 ==> forall|o2: int, y2: int, x2: int|
                        0 <= o2 < o && 0 <= y2 < h as int && 0 <= x2 < w as int ==>
                            !(#[trigger] fits(w as int, h as int, self.grid@, orient_seq(shapes@, si, o2), x2, y2)),
                    count == 0 ==> forall|y2: int, x2: int|
                        0 <= y2 < yy as int && 0 <= x2 < w as int ==>
                            !fits(w as int, h as int, self.grid@, orient_seq(shapes@, si, o as int), x2, y2),
                decreases h - yy,
            {
                let mut xx: i32 = 0;
                while xx < w
                    invariant
                        self.wf(),
                        w == self.width,
                        h == self.height,
                        shapes_wf(shapes@),
                        si == shape_idx as int,
                        si < shapes@.len(),
                        orientations@ == shapes@[si]@,
                        max_count < usize::MAX,
                        count <= max_count,
                        o < orientations@.len(),
                        orientation@ == orient_seq(shapes@, si, o as int),
                        0 <= yy && (yy as int) < h as int,
                        0 <= xx && (xx as int) <= w as int,
                        count as int == count_placements_upto(
                            w as int, h as int, self.grid@, shapes@, si, o as int,
                        ) + count_fits_rows(
                            w as int, h as int, self.grid@, orient_seq(shapes@, si, o as int), yy as int,
                        ) + count_fits_in_row(
                            w as int, h as int, self.grid@, orient_seq(shapes@, si, o as int),
                            yy as int, xx as int,
                        ),
                        count > 0 ==> has_placement(w as int, h as int, self.grid@, shapes@, si),
                        count == 0 ==> forall|o2: int, y2: int, x2: int|
                            0 <= o2 < o && 0 <= y2 < h as int && 0 <= x2 < w as int ==>
                                !(#[trigger] fits(w as int, h as int, self.grid@, orient_seq(shapes@, si, o2), x2, y2)),
                        count == 0 ==> forall|y2: int, x2: int|
                            0 <= y2 < yy as int && 0 <= x2 < w as int ==>
                                !fits(w as int, h as int, self.grid@, orient_seq(shapes@, si, o as int), x2, y2),
                        count == 0 ==> forall|x2: int|
                            0 <= x2 < xx as int ==>
                                !fits(w as int, h as int, self.grid@, orient_seq(shapes@, si, o as int), x2, yy as int),
                    decreases w - xx,
                {
                    if self.can_place(orientation, xx, yy) {
                        count += 1;
                        if count > max_count {
                            proof {
                                let wi = w as int;
                                let hi = h as int;
                                let g = self.grid@;
                                let sh = orient_seq(shapes@, si, o as int);
                                lemma_count_fits_in_row_le(wi, hi, g, sh, yy as int, xx + 1, wi);
                                lemma_count_fits_rows_le(wi, hi, g, sh, yy + 1, hi);
                                lemma_count_placements_upto_le(
                                    wi, hi, g, shapes@, si, o + 1, orientations@.len() as int,
                                );
                                assert(spec_count_placements(wi, hi, g, shapes@, si)
                                    >= count as int);
                                assert(fits(wi, hi, g, sh, xx as int, yy as int));
                                assert(has_placement(wi, hi, g, shapes@, si));
                            }
                            return count;
                        }
                    }
                    xx += 1;
                }
                yy += 1;
            }
            o += 1;
        }
        proof {
            if count == 0 {
                if has_placement(w as int, h as int, self.grid@, shapes@, si) {
                    let (o2, x2, y2) = choose|o2: int, x2: int, y2: int|
                        0 <= o2 < shapes@[si]@.len() && 0 <= x2 < w as int && 0 <= y2 < h as int
                        && #[trigger] fits(w as int, h as int, self.grid@, orient_seq(shapes@, si, o2), x2, y2);
                    assert(false);
                }
            }
        }
        count
    }

    /// The backtracking search: true iff every remaining required instance
    /// can be placed without overlap. On failure the grid and the remaining
    /// counts are restored exactly; on success the remaining counts are all
    /// zero and the grid holds the starting occupancy plus the cells of one
    /// committed solution (so with nothing required, it is unchanged). The
    /// result is a function of the starting state alone.
    #[verifier::rlimit(100)]
    #[verifier::spinoff_prover]
    pub fn solve(&mut self, shapes: &Vec<Vec<Shape>>, to_place: &mut Vec<(usize, usize)>)
        -> (r: bool)
        requires
            old(self).wf(),
            shapes_wf(shapes@),
            old(to_place)@.len() <= shapes@.len(),
            forall|i: int| 0 <= i < old(to_place)@.len() ==> (#[trigger] old(to_place)@[i]).0 == i,
            sum_usizes(counts_of(old(to_place)@)) <= usize::MAX,
            cells_needed(shapes@, counts_of(old(to_place)@)) <= usize::MAX,
        ensures
            final(self).wf(),
            final(self).width == old(self).width,
            final(self).height == old(self).height,
            final(to_place)@.len() == old(to_place)@.len(),
            forall|i: int| 0 <= i < final(to_place)@.len() ==> (#[trigger] final(to_place)@[i]).0 == i,
            r == feasible(
                old(self).width as int,
                old(self).height as int,
                old(self).grid@,
                shapes@,
                counts_of(old(to_place)@),
            ),
            !r ==> final(self).grid@ == old(self).grid@ && final(to_place)@ == old(to_place)@,
            r ==> forall|i: int| 0 <= i < final(to_place)@.len() ==> (#[trigger] final(to_place)@[i]).1 == 0,
            r ==> committed(
                old(self).width as int,
                old(self).height as int,
                old(self).grid@,
                shapes@,
                counts_of(old(to_place)@),
                final(self).grid@,
            ),
        decreases sum_usizes(counts_of(to_place@)),
    {
        let ghost wI = self.width as int;
        let ghost hI = self.height as int;
        let ghost g0 = self.grid@;
        let ghost tp0 = to_place@;
        let ghost counts0 = counts_of(tp0);

        // Termination check: nothing left to place.
        let total = total_remaining(to_place);
        if total == 0 {
            proof {
                lemma_sum_usizes_zero(counts0);
                assert forall|j: int| 0 <= j < tp0.len() implies (#[trigger] tp0[j]).1 == 0 by {
                    assert(counts0[j] == tp0[j].1);
                }
                lemma_feasible_empty(wI, hI, g0, shapes@, counts0);
                lemma_committed_empty(wI, hI, g0, shapes@, counts0);
            }
            return true;
        }

        // Area pruning: fail at once when the required cells cannot fit in
        // the unoccupied cells.
        let empty = self.empty_cells();
        let needed = needed_cells(shapes, to_place);
        if needed > empty {
            proof {
                if feasible(wI, hI, g0, shapes@, counts0) {
                    lemma_feasible_area(wI, hI, g0, shapes@, counts0);
                }
            }
            return false;
        }

        // Variable selection: the shape type with the fewest legal
        // placements; a type with none at all is an immediate failure.
        let mut best_idx: usize = to_place.len();
        let mut min_placements: usize = usize::MAX - 1;
        let mut i: usize = 0;
        while i < to_place.len() && min_placements > 1
            invariant
                self.wf(),
                self.grid@ == g0,
                wI == self.width as int,
                hI == self.height as int,
                shapes_wf(shapes@),
                to_place@ == tp0,
                counts0 == counts_of(tp0),
                tp0.len() <= shapes@.len(),
                forall|j: int| 0 <= j < tp0.len() ==> (#[trigger] tp0[j]).0 == j,
                i <= tp0.len(),
                min_placements < usize::MAX,
                min_placements >= 1,
                best_idx <= tp0.len(),
                best_idx < tp0.len() ==> tp0[best_idx as int].1 > 0,
                best_idx == tp0.len() ==> min_placements == usize::MAX - 1
                    && forall|j: int| 0 <= j < i ==> (#[trigger] tp0[j]).1 == 0,
            decreases tp0.len() - i,
        {
            let (s_i, c_i) = to_place[i];
            if c_i != 0 {
                let pc = self.count_placements(shapes, s_i, min_placements);
                if pc == 0 {
                    proof {
                        if feasible(wI, hI, g0, shapes@, counts0) {
                            assert(counts0[i as int] == tp0[i as int].1 > 0);
                            lemma_feasible_step(wI, hI, g0, shapes@, counts0, i as int);
                            let p = choose|p: Placement| {
                                &&& (#[trigger] p.shape) == i as int
                                &&& 0 <= p.orient < shapes@[i as int]@.len()
                                &&& 0 <= p.ox < wI
                                &&& 0 <= p.oy < hI
                                &&& placement_ok(wI, hI, g0, shapes@, p)
                                &&& feasible(
                                    wI, hI,
                                    grid_place(g0, wI, placement_cells(shapes@, p)),
                                    shapes@,
                                    counts0.update(i as int, (counts0[i as int] - 1) as usize),
                                )
                            };
                            assert(fits(wI, hI, g0, orient_seq(shapes@, i as int, p.orient), p.ox, p.oy));
                            assert(has_placement(wI, hI, g0, shapes@, i as int));
                            assert(false);
                        }
                    }
                    return false;
                }
                if pc < min_placements {
                    min_placements = pc;
                    best_idx = i;
                } else if best_idx == to_place.len() {
                    best_idx = i;
                }
            }
            i += 1;
        }
        if best_idx == to_place.len() {
            proof {
                lemma_sum_usizes_zero(counts0);
                assert(forall|j: int| 0 <= j < tp0.len() ==> (#[trigger] tp0[j]).1 == 0) by {
                    assert(forall|j: int| 0 <= j < tp0.len() ==> (#[trigger] tp0[j]).1 == counts0[j]);
                }
                assert(sum_usizes(counts0) == 0);
                assert(false);
            }
            return true;
        }

        // Branch and bound over the selected shape type.
        let idx = best_idx;
        let (shape_idx, c0) = to_place[idx];
        let ghost counts1 = counts0.update(idx as int, (c0 - 1) as usize);
        let w = self.width;
        let h = self.height;
        let num_orients = shapes[shape_idx].len();
        let mut o: usize = 0;
        while o < num_orients
            invariant
                self.wf(),
                w == self.width,
                h == self.height,
                self.width == old(self).width,
                self.height == old(self).height,
                wI == w as int,
                hI == h as int,
                self.grid@ == g0,
                g0 == old(self).grid@,
                tp0 == old(to_place)@,
                shapes_wf(shapes@),
                to_place@ == tp0,
                counts0 == counts_of(tp0),
                counts1 == counts0.update(idx as int, (c0 - 1) as usize),
                tp0.len() <= shapes@.len(),
                forall|j: int| 0 <= j < tp0.len() ==> (#[trigger] tp0[j]).0 == j,
                sum_usizes(counts0) <= usize::MAX,
                cells_needed(shapes@, counts0) <= usize::MAX,
                idx < tp0.len(),
                shape_idx == idx,
                tp0[idx as int] == (shape_idx, c0),
                c0 > 0,
                num_orients == shapes@[idx as int]@.len(),
                o <= num_orients,
                forall|o2: int, y2: int, x2: int|
                    0 <= o2 < o && 0 <= y2 < hI && 0 <= x2 < wI ==>
                        dead_branch(wI, hI, g0, shapes@, idx as int, counts1, o2, y2, x2),
            decreases num_orients - o,
        {
            let orientation = &shapes[shape_idx][o];
            let mut yy: i32 = 0;
            while yy < h
                invariant
                    self.wf(),
                    w == self.width,
                    h == self.height,
                    self.width == old(self).width,
                    self.height == old(self).height,
                    wI == w as int,
                    hI == h as int,
                    self.grid@ == g0,
                    g0 == old(self).grid@,
                    tp0 == old(to_place)@,
                    shapes_wf(shapes@),
                    to_place@ == tp0,
                    counts0 == counts_of(tp0),
                    counts1 == counts0.update(idx as int, (c0 - 1) as usize),
                    tp0.len() <= shapes@.len(),
                    forall|j: int| 0 <= j < tp0.len() ==> (#[trigger] tp0[j]).0 == j,
                    sum_usizes(counts0) <= usize::MAX,
                    cells_needed(shapes@, counts0) <= usize::MAX,
                    idx < tp0.len(),
                    shape_idx == idx,
                    tp0[idx as int] == (shape_idx, c0),
                    c0 > 0,
                    num_orients == shapes@[idx as int]@.len(),
                    o < num_orients,
                    orientation@ == orient_seq(shapes@, idx as int, o as int),
                    0 <= yy && (yy as int) <= hI,
                    forall|o2: int, y2: int, x2: int|
                        0 <= o2 < o && 0 <= y2 < hI && 0 <= x2 < wI ==>
                            dead_branch(wI, hI, g0, shapes@, idx as int, counts1, o2, y2, x2),
                    forall|y2: int, x2: int|
                        0 <= y2 < yy as int && 0 <= x2 < wI ==>
                            dead_branch(wI, hI, g0, shapes@, idx as int, counts1, o as int, y2, x2),
                decreases h - yy,
            {
                let mut xx: i32 = 0;
                while xx < w
                    invariant
                        self.wf(),
                        w == self.width,
                        h == self.height,
                        self.width == old(self).width,
                        self.height == old(self).height,
                        wI == w as int,
                        hI == h as int,
                        self.grid@ == g0,
                        g0 == old(self).grid@,
                        tp0 == old(to_place)@,
                        shapes_wf(shapes@),
                        to_place@ == tp0,
                        counts0 == counts_of(tp0),
                        counts1 == counts0.update(idx as int, (c0 - 1) as usize),
                        tp0.len() <= shapes@.len(),
                        forall|j: int| 0 <= j < tp0.len() ==> (#[trigger] tp0[j]).0 == j,
                        sum_usizes(counts0) <= usize::MAX,
                        cells_needed(shapes@, counts0) <= usize::MAX,
                        idx < tp0.len(),
                        shape_idx == idx,
                        tp0[idx as int] == (shape_idx, c0),
                        c0 > 0,
                        num_orients == shapes@[idx as int]@.len(),
                        o < num_orients,
                        orientation@ == orient_seq(shapes@, idx as int, o as int),
                        0 <= yy && (yy as int) < hI,
                        0 <= xx && (xx as int) <= wI,
                        forall|o2: int, y2: int, x2: int|
                            0 <= o2 < o && 0 <= y2 < hI && 0 <= x2 < wI ==>
                                dead_branch(wI, hI, g0, shapes@, idx as int, counts1, o2, y2, x2),
                        forall|y2: int, x2: int|
                            0 <= y2 < yy as int && 0 <= x2 < wI ==>
                                dead_branch(wI, hI, g0, shapes@, idx as int, counts1, o as int, y2, x2),
                        forall|x2: int|
                            0 <= x2 < xx as int ==>
                                dead_branch(wI, hI, g0, shapes@, idx as int, counts1, o as int, yy as int, x2),
                    decreases w - xx,
                {
                    if self.can_place(orientation, xx, yy) {
                        let ghost p = Placement {
                            shape: idx as int,
                            orient: o as int,
                            ox: xx as int,
                            oy: yy as int,
                        };
                        let ghost cells = shift_set(cell_set(orientation@), xx as int, yy as int);
                        self.place(orientation, xx, yy);
                        to_place.set(idx, (shape_idx, c0 - 1));
                        proof {
                            assert(counts_of(to_place@) =~= counts1);
                            assert(placement_cells(shapes@, p) == cells);
                            lemma_sum_usizes_update(counts0, idx as int, (c0 - 1) as usize);
                            lemma_cells_needed_update(shapes@, counts0, idx as int, (c0 - 1) as usize);
                            let sz = orient_seq(shapes@, idx as int, 0).len() as int;
                            assert(sz * ((c0 - 1) as usize) == sz * c0 - sz) by (nonlinear_arith)
                                requires c0 >= 1;
                            assert(sz >= 0);
                            assert(cells_needed(shapes@, counts1) == cells_needed(shapes@, counts0) - sz);
                            assert(counts0[idx as int] == c0);
                            assert(sum_usizes(counts1) == sum_usizes(counts0) - 1);
                            lemma_sum_usizes_zero(counts1);
                        }
                        let sub = self.solve(shapes, to_place);
                        if sub {
                            proof {
                                assert(placement_ok(wI, hI, g0, shapes@, p));
                                assert(counts0[idx as int] == c0);
                                assert(committed(
                                    wI, hI, grid_place(g0, wI, cells), shapes@, counts1, self.grid@,
                                ));
                                lemma_committed_extend(
                                    wI, hI, g0, shapes@, counts0, p, self.grid@,
                                );
                            }
                            return true;
                        }
                        to_place.set(idx, (shape_idx, c0));
                        self.remove(orientation, xx, yy);
                        proof {
                            assert(to_place@ =~= tp0);
                            lemma_fits_cells(wI, hI, g0, orientation@, xx as int, yy as int);
                            assert forall|q: (int, int)| cells.contains(q) implies
                                0 <= q.0 < wI && 0 <= q.1 && 0 <= cell_index(wI, q) < g0.len()
                                && !g0[cell_index(wI, q)] by {
                                assert(in_bounds(wI, hI, q));
                                lemma_cell_index_bounds(wI, hI, q);
                                assert(!g0[cell_index(wI, q)]);
                            }
                            lemma_place_remove_round_trip(g0, wI, cells);
                            assert(self.grid@ == g0);
                            assert(!feasible(wI, hI, grid_place(g0, wI, cells), shapes@, counts1));
                        }
                    }
                    proof {
                        assert forall|x2: int| 0 <= x2 < xx as int + 1 implies
                            dead_branch(wI, hI, g0, shapes@, idx as int, counts1, o as int, yy as int, x2) by {
                        }
                    }
                    xx += 1;
                }
                yy += 1;
            }
            o += 1;
        }
        proof {
            if feasible(wI, hI, g0, shapes@, counts0) {
                assert(counts0[idx as int] == c0);
                lemma_feasible_step(wI, hI, g0, shapes@, counts0, idx as int);
                let p = choose|p: Placement| {
                    &&& (#[trigger] p.shape) == idx as int
                    &&& 0 <= p.orient < shapes@[idx as int]@.len()
                    &&& 0 <= p.ox < wI
                    &&& 0 <= p.oy < hI
                    &&& placement_ok(wI, hI, g0, shapes@, p)
                    &&& feasible(
                        wI, hI,
                        grid_place(g0, wI, placement_cells(shapes@, p)),
                        shapes@,
                        counts0.update(idx as int, (counts0[idx as int] - 1) as usize),
                    )
                };
                assert(dead_branch(wI, hI, g0, shapes@, idx as int, counts1, p.orient, p.oy, p.ox));
                assert(fits(wI, hI, g0, orient_seq(shapes@, idx as int, p.orient), p.ox, p.oy));
                assert(placement_cells(shapes@, p)
                    == shift_set(cell_set(orient_seq(shapes@, idx as int, p.orient)), p.ox, p.oy));
                assert(false);
            }
        }
        false
    }
}

/// A fully unoccupied map of n cells.
pub open spec fn empty_grid(n: nat) -> Seq<bool> {
    Seq::new(n, |i: int| false)
}

/// Feasibility of a region evaluated from scratch: the counts it requires
/// can be packed into a fresh w-by-h grid.
pub open spec fn region_feasible(w: int, h: int, counts: Seq<usize>, shapes: Seq<Vec<Shape>>) -> bool {
    feasible(w, h, empty_grid((w * h) as nat), shapes, counts)
}

impl Region {
    /// Dimensions positive and machine-representable, one count per shape
    /// index, and totals that fit the machine.
    pub open spec fn ok(&self, shapes: Seq<Vec<Shape>>) -> bool {
        &&& 0 < self.width <= 0x2000_0000
        &&& 0 < self.height <= 0x2000_0000
        &&& self.width * self.height <= 0x7FFF_FFFF
        &&& self.required@.len() <= shapes.len()
        &&& sum_usizes(self.required@) <= usize::MAX
        &&& cells_needed(shapes, self.required@) <= usize::MAX
    }

    /// What evaluate must decide for this region.
    pub open spec fn feasible_spec(&self, shapes: Seq<Vec<Shape>>) -> bool {
        region_feasible(self.width as int, self.height as int, self.required@, shapes)
    }
}

/// Evaluate one region: build a fresh grid, seed the remaining counts, and
/// run the search. True iff the region's requirements can be packed; the
/// result is a function of the region and the shape library alone.
#[verifier::spinoff_prover]
pub fn can_fit_region(region: &Region, shapes: &Vec<Vec<Shape>>) -> (r: bool)
    requires
        shapes_wf(shapes@),
        region.ok(shapes@),
    ensures
        r == region.feasible_spec(shapes@),
{
    let mut solver = Solver::new(region.width, region.height);
    proof {
        assert(solver.grid@ =~= empty_grid((region.width * region.height) as nat));
    }
    let ghost g0 = solver.grid@;
    let mut to_place: Vec<(usize, usize)> = Vec::new();
    let mut i: usize = 0;
    while i < region.required.len()
        invariant
            i <= region.required@.len(),
            to_place@.len() == i,
            forall|j: int| 0 <= j < i ==>
                (#[trigger] to_place@[j]).0 == j && to_place@[j].1 == region.required@[j],
        decreases region.required@.len() - i,
    {
        let c = region.required[i];
        to_place.push((i, c));
        i += 1;
    }
    proof {
        assert(counts_of(to_place@) =~= region.required@);
    }
    solver.solve(shapes, &mut to_place)
}

/// How many of the first n regions are feasible.
pub open spec fn count_feasible_upto(
    regions: Seq<Region>, shapes: Seq<Vec<Shape>>, n: int,
) -> int
    decreases n,
{
    if n <= 0 {
        0
    } else {
        count_feasible_upto(regions, shapes, n - 1)
            + if regions[n - 1].feasible_spec(shapes) { 1int } else { 0int }
    }
}

/// How many of the regions are feasible.
pub open spec fn spec_count_feasible(regions: Seq<Region>, shapes: Seq<Vec<Shape>>) -> int {
    count_feasible_upto(regions, shapes, regions.len() as int)
}

/// A parsed problem: the orientation library and the regions to evaluate.
pub struct ProblemData {
    pub shapes: Vec<Vec<Shape>>,
    pub regions: Vec<Region>,
}

impl ProblemData {
    /// A well-formed orientation library and well-formed regions.
    pub open spec fn wf(&self) -> bool {
        &&& shapes_wf(self.shapes@)
        &&& forall|i: int| 0 <= i < self.regions@.len() ==>
            (#[trigger] self.regions@[i]).ok(self.shapes@)
    }

    /// Evaluate every region independently and count how many are feasible.
    pub fn solve_part1(&self) -> (r: u64)
        requires
            self.wf(),
        ensures
            r as int == spec_count_feasible(self.regions@, self.shapes@),
    {
        let mut count: u64 = 0;
        let mut i: usize = 0;
        while i < self.regions.len()
            invariant
                self.wf(),
                i <= self.regions@.len(),
                count as int <= i as int,
                count as int == count_feasible_upto(self.regions@, self.shapes@, i as int),
            decreases self.regions@.len() - i,
        {
            if can_fit_region(&self.regions[i], &self.shapes) {
                count += 1;
            }
            i += 1;
        }
        count
    }

    /// The second part of the puzzle is not defined; its answer is zero.
    pub fn solve_part2(&self) -> (r: u64)
        ensures
            r == 0,
    {
        0
    }
}

/// Area-monotonic pruning law: when the required cells strictly exceed the
/// region's total cell count, the region is infeasible, so evaluate must
/// return false.
pub proof fn lemma_area_pruning(w: int, h: int, counts: Seq<usize>, shapes: Seq<Vec<Shape>>)
    requires
        shapes_wf(shapes),
        counts.len() <= shapes.len(),
        0 < w,
        0 < h,
        cells_needed(shapes, counts) > w * h,
    ensures
        !region_feasible(w, h, counts, shapes),
{
    let g = empty_grid((w * h) as nat);
    if region_feasible(w, h, counts, shapes) {
        assert(w * h >= 0) by (nonlinear_arith)
            requires w > 0, h > 0;
        lemma_feasible_area(w, h, g, shapes, counts);
        lemma_count_free_bounds(g);
    }
}

/// Zero-requirement law: a region whose required counts are all zero is
/// trivially feasible.
pub proof fn lemma_zero_required_feasible(
    w: int, h: int, counts: Seq<usize>, shapes: Seq<Vec<Shape>>,
)
    requires
        forall|i: int| 0 <= i < counts.len() ==> counts[i] == 0,
    ensures
        region_feasible(w, h, counts, shapes),
{
    lemma_feasible_empty(w, h, empty_grid((w * h) as nat), shapes, counts);
}

/// Determinism law: evaluate's contract pins its result to region
/// feasibility, a function of the inputs alone, so any two evaluations of
/// the same region against the same library agree.
pub proof fn lemma_evaluate_deterministic(
    r1: bool, r2: bool, w: int, h: int, counts: Seq<usize>, shapes: Seq<Vec<Shape>>,
)
    requires
        r1 == region_feasible(w, h, counts, shapes),
        r2 == region_feasible(w, h, counts, shapes),
    ensures
        r1 == r2,
{
}

/// The orientation library of a list of base shapes: every shape's full
/// orientation set, ready for the solver. None when some base shape is
/// empty, has a repeated offset, or is out of range.
#[verifier::spinoff_prover]
pub fn orientation_library(base: &Vec<Shape>) -> (r: Option<Vec<Vec<Shape>>>)
    ensures
        r is Some <==> forall|i: int| 0 <= i < base@.len()
            ==> crate::shapes::base_ok((#[trigger] base@[i])@),
        r matches Some(lib) ==> {
            &&& shapes_wf(lib@)
            &&& lib@.len() == base@.len()
            &&& forall|i: int, o: int| 0 <= i < lib@.len() && 0 <= o < lib@[i]@.len()
                ==> (#[trigger] orient_seq(lib@, i, o)).len() == base@[i]@.len()
            &&& forall|i: int| 0 <= i < lib@.len()
                ==> crate::shapes::members_oriented(base@[i]@, (#[trigger] lib@[i])@)
                    && crate::shapes::covers_all_syms(base@[i]@, lib@[i]@)
        },
{
    let mut lib: Vec<Vec<Shape>> = Vec::new();
    let mut i: usize = 0;
    while i < base.len()
        invariant
            i <= base@.len(),
            lib@.len() == i,
            forall|j: int| 0 <= j < i ==> crate::shapes::base_ok((#[trigger] base@[j])@),
            forall|j: int, o: int| 0 <= j < i && 0 <= o < lib@[j]@.len()
                ==> is_canonical(cell_set(#[trigger] orient_seq(lib@, j, o))),
            forall|j: int| 0 <= j < i
                ==> crate::shapes::members_oriented(base@[j]@, (#[trigger] lib@[j])@)
                    && crate::shapes::covers_all_syms(base@[j]@, lib@[j]@),
            forall|j: int| 0 <= j < i ==> 1 <= (#[trigger] lib@[j])@.len() <= 8,
            forall|j: int, o: int| 0 <= j < i && 0 <= o < lib@[j]@.len() ==>
                (#[trigger] orient_seq(lib@, j, o)).len() == base@[j]@.len()
                && distinct_coords(orient_seq(lib@, j, o))
                && coords_bounded(orient_seq(lib@, j, o), 0x4000_0000),
        decreases base@.len() - i,
    {
        let sh = &base[i];
        if sh.len() == 0 {
            return None;
        }
        if !crate::shapes::check_distinct(sh) {
            return None;
        }
        if !crate::shapes::check_bounded(sh) {
            return None;
        }
        let ghost snap = lib@;
        let orients = crate::shapes::orientations_for(sh);
        let ghost ov = orients@;
        lib.push(orients);
        proof {
            assert(lib@[i as int]@ == ov);
            assert(forall|j: int| 0 <= j < i ==> lib@[j] == snap[j]);
            assert forall|j: int, o: int| 0 <= j < i && 0 <= o < lib@[j]@.len() implies
                #[trigger] orient_seq(lib@, j, o) == orient_seq(snap, j, o) by {
                assert(lib@[j] == snap[j]);
                assert(orient_seq(snap, j, o) == snap[j]@[o]@);
            }
            assert forall|o: int| 0 <= o < lib@[i as int]@.len() implies
                is_canonical(cell_set(#[trigger] orient_seq(lib@, i as int, o)))
                && orient_seq(lib@, i as int, o).len() == base@[i as int]@.len()
                && distinct_coords(orient_seq(lib@, i as int, o))
                && coords_bounded(orient_seq(lib@, i as int, o), 0x4000_0000) by {
                assert(orient_seq(lib@, i as int, o) == ov[o]@);
            }
        }
        i += 1;
    }
    proof {
        assert forall|s2: int, o: int| 0 <= s2 < lib@.len() && 0 <= o < lib@[s2]@.len() implies
            orient_seq(lib@, s2, o).len() >= 1
            && orient_seq(lib@, s2, o).len() == orient_seq(lib@, s2, 0).len()
            && distinct_coords(#[trigger] orient_seq(lib@, s2, o))
            && coords_bounded(orient_seq(lib@, s2, o), 0x4000_0000)
            && is_canonical(cell_set(orient_seq(lib@, s2, o))) by {
            assert(orient_seq(lib@, s2, o).len() == base@[s2]@.len());
            assert(orient_seq(lib@, s2, 0).len() == base@[s2]@.len());
        }
    }
    Some(lib)
}

} // verus!
