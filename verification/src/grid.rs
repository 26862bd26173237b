//! The square grid of cells and its boundary-aware neighbor logic.
//!
//! Each cell is either empty or holds a catalog index.  The eight relative
//! offsets around a cell are walked in one fixed order; offsets that fall
//! outside the grid are silently excluded.  The desired color of an empty
//! cell is the per-axis arithmetic mean of the perceptual coordinates of
//! its currently filled neighbors.

use vstd::prelude::*;
use vstd::arithmetic::div_mod::{lemma_div_is_ordered, lemma_div_by_multiple};
use crate::color::{Lab, COORD_MAX};
use crate::store::{cells_of, dims_of, table_new, table_get, table_set};
use toodee::TooDee;

verus! {

pub open spec fn in_bounds(s: int, x: int, y: int) -> bool {
    0 <= x < s && 0 <= y < s
}

/// The fixed order in which the eight relative offsets are walked.
pub open spec fn off(k: int) -> (int, int) {
    if k == 0 { (0, 1) }
    else if k == 1 { (1, 0) }
    else if k == 2 { (0, -1) }
    else if k == 3 { (-1, 0) }
    else if k == 4 { (1, 1) }
    else if k == 5 { (-1, -1) }
    else if k == 6 { (-1, 1) }
    else { (1, -1) }
}

/// Position of a relative offset in the walk order; 8 for non-offsets.
pub open spec fn rank_of(d: (int, int)) -> int {
    if d == (0int, 1int) { 0 }
    else if d == (1int, 0int) { 1 }
    else if d == (0int, -1int) { 2 }
    else if d == (-1int, 0int) { 3 }
    else if d == (1int, 1int) { 4 }
    else if d == (-1int, -1int) { 5 }
    else if d == (-1int, 1int) { 6 }
    else if d == (1int, -1int) { 7 }
    else { 8 }
}

/// Position of `p` in the fixed walk around `(x, y)`: lower comes first.
pub open spec fn walk_rank(x: int, y: int, p: (usize, usize)) -> int {
    rank_of((p.0 - x, p.1 - y))
}

/// `(a, b)` is an in-bounds cell 8-adjacent to `(x, y)`.
pub open spec fn is_nbr(s: int, x: int, y: int, a: int, b: int) -> bool {
    in_bounds(s, a, b) && (a, b) != (x, y) && -1 <= a - x <= 1 && -1 <= b - y <= 1
}

/// A square grid of side `side`; every cell is empty or a catalog index.
pub struct Grid {
    side: usize,
    cells: TooDee<Option<usize>>,
}

impl Grid {
    pub closed spec fn dim(self) -> int {
        self.side as int
    }

    pub closed spec fn cell(self, x: int, y: int) -> Option<usize> {
        cells_of(self.cells)[(x, y)]
    }

    pub closed spec fn wf(self) -> bool {
        1 <= self.side <= 4096 && dims_of(self.cells) == (self.side as nat, self.side as nat)
    }

    /// A well-formed grid's side is in the representable range.
    pub proof fn lemma_wf_dim(self)
        requires
            self.wf(),
        ensures
            1 <= self.dim() <= 4096,
    {
    }

    pub fn new(side: usize) -> (g: Grid)
        requires
            1 <= side <= 4096,
        ensures
            g.wf(),
            g.dim() == side,
            forall|a: int, b: int| in_bounds(side as int, a, b) ==> #[trigger] g.cell(a, b) is None,
    {
        proof {
            assert(side * side <= 4096 * 4096) by (nonlinear_arith)
                requires side <= 4096;
        }
        let cells = table_new(side, side);
        Grid { side, cells }
    }

    pub fn side(&self) -> (r: usize)
        ensures
            r == self.dim(),
    {
        self.side
    }

    pub fn get(&self, x: usize, y: usize) -> (r: Option<usize>)
        requires
            self.wf(),
            in_bounds(self.dim(), x as int, y as int),
        ensures
            r == self.cell(x as int, y as int),
    {
        table_get(&self.cells, x, y)
    }

    /// Fill one empty cell with a catalog index.  A filled cell is never
    /// written again.
    pub fn set(&mut self, x: usize, y: usize, v: usize)
        requires
            old(self).wf(),
            in_bounds(old(self).dim(), x as int, y as int),
            old(self).cell(x as int, y as int) is None,
        ensures
            final(self).wf(),
            final(self).dim() == old(self).dim(),
            final(self).cell(x as int, y as int) == Some(v),
            forall|a: int, b: int|
                (a, b) != (x as int, y as int) ==> #[trigger] final(self).cell(a, b) == old(
                self,
            ).cell(a, b),
    {
        table_set(&mut self.cells, x, y, Some(v));
    }

    /// The in-bounds 8-neighbors of `(x, y)`, in the fixed walk order.
    pub fn neighbors(&self, x: usize, y: usize) -> (r: Vec<(usize, usize)>)
        requires
            self.wf(),
            in_bounds(self.dim(), x as int, y as int),
        ensures
            r@.len() == count_nbrs(self.dim(), x as int, y as int),
            forall|i: int|
                0 <= i < r@.len() ==> is_nbr(
                    self.dim(),
                    x as int,
                    y as int,
                    (#[trigger] r@[i]).0 as int,
                    r@[i].1 as int,
                ),
            forall|a: int, b: int|
                #[trigger] is_nbr(self.dim(), x as int, y as int, a, b) ==> exists|i: int|
                    0 <= i < r@.len() && r@[i] == ((a as usize, b as usize)),
            forall|i: int, j: int| 0 <= i < j < r@.len() ==> r@[i] != r@[j],
            forall|i: int, j: int|
                0 <= i < j < r@.len() ==> #[trigger] walk_rank(x as int, y as int, r@[i])
                    < #[trigger] walk_rank(x as int, y as int, r@[j]),
    {
        let ghost s = self.dim();
        let mut r: Vec<(usize, usize)> = Vec::new();
        let mut k: usize = 0;
        while k < 8
            invariant
                self.wf(),
                in_bounds(s, x as int, y as int),
                s == self.dim(),
                k <= 8,
                r@.len() == count_nbrs_upto(s, x as int, y as int, k as int),
                forall|i: int|
                    0 <= i < r@.len() ==> is_nbr(
                        s,
                        x as int,
                        y as int,
                        (#[trigger] r@[i]).0 as int,
                        r@[i].1 as int,
                    ),
                forall|i: int|
                    0 <= i < r@.len() ==> rank_of(
                        ((#[trigger] r@[i]).0 - x as int, r@[i].1 - y as int),
                    ) < k,
                forall|a: int, b: int|
                    #[trigger] is_nbr(s, x as int, y as int, a, b) && rank_of((a - x as int, b - y
                        as int)) < k ==> exists|i: int|
                        0 <= i < r@.len() && r@[i] == ((a as usize, b as usize)),
                forall|i: int, j: int| 0 <= i < j < r@.len() ==> r@[i] != r@[j],
                forall|i: int, j: int|
                    0 <= i < j < r@.len() ==> #[trigger] walk_rank(x as int, y as int, r@[i])
                        < #[trigger] walk_rank(x as int, y as int, r@[j]),
            decreases 8 - k,
        {
            let ghost r0 = r@;
            let (dx, dy) = offset_at(k);
            let nx_i: i64 = x as i64 + dx;
            let ny_i: i64 = y as i64 + dy;
            if 0 <= nx_i && nx_i < self.side as i64 && 0 <= ny_i && ny_i < self.side as i64 {
                let nx = nx_i as usize;
                let ny = ny_i as usize;
                proof {
                    assert(rank_of((nx as int - x as int, ny as int - y as int)) == k);
                }
                r.push((nx, ny));
            }
            proof {
                assert(forall|i: int| 0 <= i < r0.len() ==> r@[i] == r0[i]);
                assert forall|a: int, b: int|
                    is_nbr(s, x as int, y as int, a, b) && rank_of(
                        (a - x as int, b - y as int),
                    ) < k + 1 implies exists|i: int|
                    0 <= i < r@.len() && r@[i] == ((a as usize, b as usize)) by {
                    if rank_of((a - x as int, b - y as int)) == k {
                        assert((a - x as int, b - y as int) == off(k as int));
                        assert(a == nx_i as int && b == ny_i as int);
                        assert(in_bounds(s, a, b));
                        assert(r@[r@.len() - 1] == ((a as usize, b as usize)));
                    } else {
                        let wi = choose|i: int|
                            0 <= i < r0.len() && r0[i] == ((a as usize, b as usize));
                        assert(r@[wi] == ((a as usize, b as usize)));
                    }
                }
            }
            k += 1;
        }
        r
    }

    /// The neighbors of `(x, y)` whose cell is still empty.
    pub fn empty_neighbors(&self, x: usize, y: usize) -> (r: Vec<(usize, usize)>)
        requires
            self.wf(),
            in_bounds(self.dim(), x as int, y as int),
        ensures
            forall|i: int|
                0 <= i < r@.len() ==> is_nbr(
                    self.dim(),
                    x as int,
                    y as int,
                    (#[trigger] r@[i]).0 as int,
                    r@[i].1 as int,
                ) && self.cell(r@[i].0 as int, r@[i].1 as int) is None,
            forall|a: int, b: int|
                #[trigger] is_nbr(self.dim(), x as int, y as int, a, b) && self.cell(a, b) is None
                    ==> exists|i: int| 0 <= i < r@.len() && r@[i] == ((a as usize, b as usize)),
            forall|i: int, j: int| 0 <= i < j < r@.len() ==> r@[i] != r@[j],
            forall|i: int, j: int|
                0 <= i < j < r@.len() ==> #[trigger] walk_rank(x as int, y as int, r@[i])
                    < #[trigger] walk_rank(x as int, y as int, r@[j]),
    {
        let ns = self.neighbors(x, y);
        let mut r: Vec<(usize, usize)> = Vec::new();
        let mut t: usize = 0;
        while t < ns.len()
            invariant
                self.wf(),
                in_bounds(self.dim(), x as int, y as int),
                t <= ns@.len(),
                forall|i: int|
                    0 <= i < ns@.len() ==> is_nbr(
                        self.dim(),
                        x as int,
                        y as int,
                        (#[trigger] ns@[i]).0 as int,
                        ns@[i].1 as int,
                    ),
                forall|a: int, b: int|
                    #[trigger] is_nbr(self.dim(), x as int, y as int, a, b) ==> exists|i: int|
                        0 <= i < ns@.len() && ns@[i] == ((a as usize, b as usize)),
                forall|i: int, j: int| 0 <= i < j < ns@.len() ==> ns@[i] != ns@[j],
                forall|i: int, j: int|
                    0 <= i < j < ns@.len() ==> #[trigger] walk_rank(x as int, y as int, ns@[i])
                        < #[trigger] walk_rank(x as int, y as int, ns@[j]),
                forall|i: int|
                    0 <= i < r@.len() ==> is_nbr(
                        self.dim(),
                        x as int,
                        y as int,
                        (#[trigger] r@[i]).0 as int,
                        r@[i].1 as int,
                    ) && self.cell(r@[i].0 as int, r@[i].1 as int) is None,
                forall|i: int|
                    0 <= i < r@.len() ==> exists|j: int| 0 <= j < t && ns@[j] == #[trigger] r@[i],
                forall|j: int|
                    0 <= j < t && self.cell((#[trigger] ns@[j]).0 as int, ns@[j].1 as int) is None
                        ==> exists|i: int| 0 <= i < r@.len() && r@[i] == ns@[j],
                forall|i: int, j: int| 0 <= i < j < r@.len() ==> r@[i] != r@[j],
                forall|i: int, j: int|
                    0 <= i < j < r@.len() ==> #[trigger] walk_rank(x as int, y as int, r@[i])
                        < #[trigger] walk_rank(x as int, y as int, r@[j]),
            decreases ns@.len() - t,
        {
            let ghost r0 = r@;
            let (nx, ny) = ns[t];
            if self.get(nx, ny).is_none() {
                r.push((nx, ny));
                proof {
                    assert forall|i: int|
                        0 <= i < r0.len() implies #[trigger] walk_rank(x as int, y as int, r0[i])
                        < walk_rank(x as int, y as int, ns@[t as int]) by {
                        let j = choose|j: int| 0 <= j < t && ns@[j] == r0[i];
                        assert(walk_rank(x as int, y as int, ns@[j]) < walk_rank(
                            x as int,
                            y as int,
                            ns@[t as int],
                        ));
                    }
                }
            }
            proof {
                assert(forall|i: int| 0 <= i < r0.len() ==> r@[i] == r0[i]);
                assert forall|j: int|
                    0 <= j < t + 1 && self.cell(
                        (#[trigger] ns@[j]).0 as int,
                        ns@[j].1 as int,
                    ) is None implies exists|i: int|
                    0 <= i < r@.len() && r@[i] == ns@[j] by {
                    if j == t {
                        assert(r@[r@.len() - 1] == ns@[t as int]);
                    } else {
                        let wi = choose|i: int| 0 <= i < r0.len() && r0[i] == ns@[j];
                        assert(r@[wi] == ns@[j]);
                    }
                }
            }
            t += 1;
        }
        r
    }
}

fn offset_at(k: usize) -> (r: (i64, i64))
    requires
        k < 8,
    ensures
        (r.0 as int, r.1 as int) == off(k as int),
        -1 <= r.0 <= 1,
        -1 <= r.1 <= 1,
{
    match k {
        0 => (0, 1),
        1 => (1, 0),
        2 => (0, -1),
        3 => (-1, 0),
        4 => (1, 1),
        5 => (-1, -1),
        6 => (-1, 1),
        _ => (1, -1),
    }
}

/// The cell at `(a, b)` exists and is filled.
pub open spec fn filled_at(g: Grid, a: int, b: int) -> bool {
    in_bounds(g.dim(), a, b) && g.cell(a, b) is Some
}

/// 1 when the neighbor of `(x, y)` at offset `k` is a filled cell.
pub open spec fn nbr_filled_ind(g: Grid, x: int, y: int, k: int) -> int {
    if filled_at(g, x + off(k).0, y + off(k).1) { 1 } else { 0 }
}

/// 1 when the neighbor of `(x, y)` at offset `k` is in bounds.
pub open spec fn nbr_ind(s: int, x: int, y: int, k: int) -> int {
    if in_bounds(s, x + off(k).0, y + off(k).1) { 1 } else { 0 }
}

/// Contribution of the neighbor at offset `k` to one perceptual axis:
/// its catalog color's axis value when filled, 0 otherwise.
/// `axis` is 0, 1 or 2 for `l`, `a` and `b`.
pub open spec fn nbr_axis(g: Grid, cat: Seq<Lab>, x: int, y: int, k: int, axis: int) -> int {
    let a = x + off(k).0;
    let b = y + off(k).1;
    if filled_at(g, a, b) {
        let c = cat[g.cell(a, b)->0 as int];
        if axis == 0 { c.l as int } else if axis == 1 { c.a as int } else { c.b as int }
    } else {
        0
    }
}

pub open spec fn count_nbrs_upto(s: int, x: int, y: int, k: int) -> int
    decreases k,
{
    if k <= 0 { 0 } else { count_nbrs_upto(s, x, y, k - 1) + nbr_ind(s, x, y, k - 1) }
}

/// How many in-bounds neighbors `(x, y)` has.
pub open spec fn count_nbrs(s: int, x: int, y: int) -> int {
    count_nbrs_upto(s, x, y, 8)
}

pub open spec fn count_filled_upto(g: Grid, x: int, y: int, k: int) -> int
    decreases k,
{
    if k <= 0 { 0 } else { count_filled_upto(g, x, y, k - 1) + nbr_filled_ind(g, x, y, k - 1) }
}

/// How many filled neighbors `(x, y)` has.
pub open spec fn count_filled(g: Grid, x: int, y: int) -> int {
    count_filled_upto(g, x, y, 8)
}

pub open spec fn axis_sum_upto(g: Grid, cat: Seq<Lab>, x: int, y: int, k: int, axis: int) -> int
    decreases k,
{
    if k <= 0 {
        0
    } else {
        axis_sum_upto(g, cat, x, y, k - 1, axis) + nbr_axis(g, cat, x, y, k - 1, axis)
    }
}

/// Sum over the filled neighbors of `(x, y)` of one perceptual axis.
pub open spec fn axis_sum(g: Grid, cat: Seq<Lab>, x: int, y: int, axis: int) -> int {
    axis_sum_upto(g, cat, x, y, 8, axis)
}

/// The desired color of an empty cell: the per-axis mean of the perceptual
/// coordinates of its filled neighbors.  Meaningful when `(x, y)` has at
/// least one filled neighbor.
pub open spec fn target_spec(g: Grid, cat: Seq<Lab>, x: int, y: int) -> Lab {
    let k = count_filled(g, x, y);
    Lab {
        l: (axis_sum(g, cat, x, y, 0) / k) as u32,
        a: (axis_sum(g, cat, x, y, 1) / k) as u32,
        b: (axis_sum(g, cat, x, y, 2) / k) as u32,
    }
}

/// Every grid value indexes into the catalog.
pub open spec fn values_index(g: Grid, cat: Seq<Lab>) -> bool {
    forall|a: int, b: int|
        #[trigger] filled_at(g, a, b) ==> g.cell(a, b)->0 < cat.len()
}

/// A cell with a filled neighbor has a positive filled-neighbor count.
pub proof fn lemma_filled_nbr_count(g: Grid, x: int, y: int, a: int, b: int)
    requires
        is_nbr(g.dim(), x, y, a, b),
        g.cell(a, b) is Some,
    ensures
        count_filled(g, x, y) > 0,
{
    let r = rank_of((a - x, b - y));
    assert(0 <= r < 8);
    assert(x + off(r).0 == a && y + off(r).1 == b);
    assert(nbr_filled_ind(g, x, y, r) == 1);
    lemma_count_filled_ge_ind(g, x, y, r, 8);
}

proof fn lemma_count_filled_ge_ind(g: Grid, x: int, y: int, r: int, k: int)
    requires
        0 <= r < k,
    ensures
        count_filled_upto(g, x, y, k) >= nbr_filled_ind(g, x, y, r),
    decreases k,
{
    lemma_count_nonneg(g, x, y, k - 1);
    if r < k - 1 {
        lemma_count_filled_ge_ind(g, x, y, r, k - 1);
    }
}

proof fn lemma_count_nonneg(g: Grid, x: int, y: int, k: int)
    ensures
        count_filled_upto(g, x, y, k) >= 0,
    decreases k,
{
    if k > 0 {
        lemma_count_nonneg(g, x, y, k - 1);
    }
}

proof fn lemma_local_upto(g1: Grid, g2: Grid, cat: Seq<Lab>, x: int, y: int, px: int, py: int, k: int)
    requires
        0 <= k <= 8,
        g1.dim() == g2.dim(),
        forall|a: int, b: int| (a, b) != (px, py) ==> #[trigger] g1.cell(a, b) == g2.cell(a, b),
        !is_nbr(g1.dim(), x, y, px, py),
    ensures
        count_filled_upto(g1, x, y, k) == count_filled_upto(g2, x, y, k),
        forall|axis: int|
            #[trigger] axis_sum_upto(g1, cat, x, y, k, axis) == axis_sum_upto(g2, cat, x, y, k, axis),
    decreases k,
{
    if k > 0 {
        lemma_local_upto(g1, g2, cat, x, y, px, py, k - 1);
        let a = x + off(k - 1).0;
        let b = y + off(k - 1).1;
        if (a, b) == (px, py) {
            assert(!in_bounds(g1.dim(), a, b));
        } else {
            assert(g1.cell(a, b) == g2.cell(a, b));
        }
        assert forall|axis: int|
            #[trigger] axis_sum_upto(g1, cat, x, y, k, axis) == axis_sum_upto(
                g2,
                cat,
                x,
                y,
                k,
                axis,
            ) by {
            assert(axis_sum_upto(g1, cat, x, y, k - 1, axis) == axis_sum_upto(
                g2,
                cat,
                x,
                y,
                k - 1,
                axis,
            ));
            assert(nbr_axis(g1, cat, x, y, k - 1, axis) == nbr_axis(g2, cat, x, y, k - 1, axis));
        }
    }
}

/// A cell's filled-neighbor count and desired color depend only on the
/// cells adjacent to it: changing a non-neighbor leaves them unchanged.
pub proof fn lemma_target_local(g1: Grid, g2: Grid, cat: Seq<Lab>, x: int, y: int, px: int, py: int)
    requires
        g1.dim() == g2.dim(),
        forall|a: int, b: int| (a, b) != (px, py) ==> #[trigger] g1.cell(a, b) == g2.cell(a, b),
        !is_nbr(g1.dim(), x, y, px, py),
    ensures
        count_filled(g1, x, y) == count_filled(g2, x, y),
        target_spec(g1, cat, x, y) == target_spec(g2, cat, x, y),
{
    lemma_local_upto(g1, g2, cat, x, y, px, py, 8);
    assert(axis_sum(g1, cat, x, y, 0) == axis_sum(g2, cat, x, y, 0));
    assert(axis_sum(g1, cat, x, y, 1) == axis_sum(g2, cat, x, y, 1));
    assert(axis_sum(g1, cat, x, y, 2) == axis_sum(g2, cat, x, y, 2));
}

/// Boundary-correct neighbor counts: 3 at a corner, 5 on an edge, 8 inside.
pub proof fn lemma_neighbor_count(s: int, x: int, y: int)
    requires
        in_bounds(s, x, y),
        2 <= s,
    ensures
        (x == 0 || x == s - 1) && (y == 0 || y == s - 1) ==> count_nbrs(s, x, y) == 3,
        ((x == 0 || x == s - 1) && !(y == 0 || y == s - 1)) ==> count_nbrs(s, x, y) == 5,
        (!(x == 0 || x == s - 1) && (y == 0 || y == s - 1)) ==> count_nbrs(s, x, y) == 5,
        (!(x == 0 || x == s - 1) && !(y == 0 || y == s - 1)) ==> count_nbrs(s, x, y) == 8,
{
    reveal_with_fuel(count_nbrs_upto, 9);
}

impl Grid {
    /// The desired color for the cell at `(x, y)`: the exact per-axis mean
    /// of its filled neighbors' perceptual coordinates.
    pub fn target_color(&self, catalog: &Vec<Lab>, x: usize, y: usize) -> (r: Lab)
        requires
            self.wf(),
            in_bounds(self.dim(), x as int, y as int),
            count_filled(*self, x as int, y as int) > 0,
            values_index(*self, catalog@),
            forall|i: int| 0 <= i < catalog@.len() ==> (#[trigger] catalog@[i]).wf(),
        ensures
            r == target_spec(*self, catalog@, x as int, y as int),
            r.wf(),
    {
        let ghost gx = x as int;
        let ghost gy = y as int;
        let mut cnt: u64 = 0;
        let mut sl: u64 = 0;
        let mut sa: u64 = 0;
        let mut sb: u64 = 0;
        let mut k: usize = 0;
        while k < 8
            invariant
                self.wf(),
                in_bounds(self.dim(), gx, gy),
                gx == x as int,
                gy == y as int,
                values_index(*self, catalog@),
                forall|i: int| 0 <= i < catalog@.len() ==> (#[trigger] catalog@[i]).wf(),
                k <= 8,
                cnt == count_filled_upto(*self, gx, gy, k as int),
                sl == axis_sum_upto(*self, catalog@, gx, gy, k as int, 0),
                sa == axis_sum_upto(*self, catalog@, gx, gy, k as int, 1),
                sb == axis_sum_upto(*self, catalog@, gx, gy, k as int, 2),
                cnt <= k,
                sl <= cnt * COORD_MAX,
                sa <= cnt * COORD_MAX,
                sb <= cnt * COORD_MAX,
            decreases 8 - k,
        {
            let (dx, dy) = offset_at(k);
            let nx_i: i64 = x as i64 + dx;
            let ny_i: i64 = y as i64 + dy;
            if 0 <= nx_i && nx_i < self.side as i64 && 0 <= ny_i && ny_i < self.side as i64 {
                let nx = nx_i as usize;
                let ny = ny_i as usize;
                match self.get(nx, ny) {
                    Some(c) => {
                        assert(filled_at(*self, nx as int, ny as int));
                        let col = catalog[c];
                        proof {
                            let c0 = cnt as int;
                            assert(c0 * COORD_MAX + COORD_MAX == (c0 + 1) * COORD_MAX)
                                by (nonlinear_arith);
                        }
                        cnt = cnt + 1;
                        sl = sl + col.l as u64;
                        sa = sa + col.a as u64;
                        sb = sb + col.b as u64;
                    },
                    None => {},
                }
            }
            k += 1;
        }
        proof {
            assert(cnt * COORD_MAX <= 8 * COORD_MAX) by (nonlinear_arith)
                requires cnt <= 8;
            assert(cnt > 0);
            lemma_div_is_ordered(sl as int, cnt as int * COORD_MAX, cnt as int);
            lemma_div_is_ordered(sa as int, cnt as int * COORD_MAX, cnt as int);
            lemma_div_is_ordered(sb as int, cnt as int * COORD_MAX, cnt as int);
            lemma_div_by_multiple(COORD_MAX as int, cnt as int);
        }
        let rl = (sl / cnt) as u32;
        let ra = (sa / cnt) as u32;
        let rb = (sb / cnt) as u32;
        Lab { l: rl, a: ra, b: rb }
    }
}

} // verus!
