//! The placement engine: walks the catalog in its processing order,
//! placing each color on the frontier cell whose desired color is nearest,
//! then refreshing the desired colors of the newly exposed neighbors.

use vstd::prelude::*;
use vstd::set_lib::{lemma_len_subset, lemma_subset_equality};
use crate::color::{Lab, dist2_spec};
use crate::catalog::is_permutation;
use crate::frontier::Frontier;
use crate::grid::{
    Grid, in_bounds, is_nbr, count_filled, count_filled_upto, target_spec, values_index,
    filled_at, lemma_filled_nbr_count, lemma_target_local,
};

verus! {

/// The one input the engine rejects: a catalog larger than the grid.
#[derive(Clone, Copy, PartialEq, Eq, Structural, Debug)]
pub enum EngineError {
    CapacityExceeded,
}

/// The in-bounds cells of a grid of side `s`, as a set.
pub open spec fn rect(s: int) -> Set<(int, int)> {
    Set::new(|p: (int, int)| in_bounds(s, p.0, p.1))
}

spec fn cell_block(s: int, t: int) -> Set<(int, int)> {
    Set::new(|p: (int, int)| 0 <= p.0 && 0 <= p.1 < s && p.0 * s + p.1 < t)
}

proof fn lemma_cell_block_card(s: int, t: int)
    requires
        1 <= s,
        0 <= t <= s * s,
    ensures
        cell_block(s, t).finite(),
        cell_block(s, t).len() == t,
    decreases t,
{
    if t == 0 {
        assert(cell_block(s, 0) =~= Set::<(int, int)>::empty());
    } else {
        lemma_cell_block_card(s, t - 1);
        let x = (t - 1) / s;
        let y = (t - 1) % s;
        vstd::arithmetic::div_mod::lemma_fundamental_div_mod(t - 1, s);
        vstd::arithmetic::div_mod::lemma_mod_division_less_than_divisor(t - 1, s);
        vstd::arithmetic::div_mod::lemma_div_pos_is_pos(t - 1, s);
        assert(x >= 0 && 0 <= y < s && x * s + y == t - 1);
        assert forall|p: (int, int)| cell_block(s, t).contains(p) implies cell_block(
            s,
            t - 1,
        ).insert((x, y)).contains(p) by {
            if p.0 * s + p.1 == t - 1 {
                vstd::arithmetic::div_mod::lemma_fundamental_div_mod_converse_div(
                    t - 1, s, p.0, p.1);
            }
        }
        assert(cell_block(s, t) =~= cell_block(s, t - 1).insert((x, y)));
        assert(!cell_block(s, t - 1).contains((x, y)));
    }
}

proof fn lemma_rect_card(s: int)
    requires
        1 <= s,
    ensures
        rect(s).finite(),
        rect(s).len() == s * s,
{
    lemma_cell_block_card(s, s * s);
    assert forall|p: (int, int)| rect(s).contains(p) implies cell_block(s, s * s).contains(p) by {
        assert(p.0 * s + p.1 < s * s) by (nonlinear_arith)
            requires 1 <= s, 0 <= p.0 < s, 0 <= p.1 < s;
    }
    assert forall|p: (int, int)| cell_block(s, s * s).contains(p) implies rect(s).contains(p) by {
        assert(p.0 < s) by (nonlinear_arith)
            requires 1 <= s, 0 <= p.0, 0 <= p.1 < s, p.0 * s + p.1 < s * s;
    }
    assert(rect(s) =~= cell_block(s, s * s));
}

spec fn hist_set(hist: Seq<(usize, usize)>) -> Set<(int, int)> {
    hist.map_values(|p: (usize, usize)| (p.0 as int, p.1 as int)).to_set()
}

/// A filled cell appears in the placement history.
proof fn lemma_filled_in_hist(g: Grid, hist: Seq<(usize, usize)>, p: (int, int))
    requires
        g.wf(),
        in_bounds(g.dim(), p.0, p.1),
        g.cell(p.0, p.1) is Some,
        forall|a: int, b: int|
            in_bounds(g.dim(), a, b) && (#[trigger] g.cell(a, b)) is Some ==> exists|j: int|
                0 <= j < hist.len() && #[trigger] hist[j] == ((a as usize, b as usize)),
    ensures
        exists|j: int| 0 <= j < hist.len() && #[trigger] hist[j] == ((p.0 as usize, p.1 as usize)),
{
}

proof fn lemma_exists_empty(g: Grid, hist: Seq<(usize, usize)>)
    requires
        g.wf(),
        hist.len() < g.dim() * g.dim(),
        forall|a: int, b: int|
            in_bounds(g.dim(), a, b) && (#[trigger] g.cell(a, b)) is Some ==> exists|j: int|
                0 <= j < hist.len() && #[trigger] hist[j] == ((a as usize, b as usize)),
    ensures
        exists|a: int, b: int| in_bounds(g.dim(), a, b) && (#[trigger] g.cell(a, b)) is None,
{
    let s = g.dim();
    g.lemma_wf_dim();
    let hs = hist_set(hist);
    let m = hist.map_values(|p: (usize, usize)| (p.0 as int, p.1 as int));
    if !(exists|a: int, b: int| in_bounds(s, a, b) && (#[trigger] g.cell(a, b)) is None) {
        assert forall|p: (int, int)| rect(s).contains(p) implies hs.contains(p) by {
            assert(in_bounds(s, p.0, p.1));
            assert(!(g.cell(p.0, p.1) is None));
            assert(g.cell(p.0, p.1) is Some);
            lemma_filled_in_hist(g, hist, p);
            let j = choose|j: int|
                0 <= j < hist.len() && #[trigger] hist[j] == ((p.0 as usize, p.1 as usize));
            assert(m[j] == ((p.0, p.1)));
            assert(m.contains(p));
        }
        m.lemma_cardinality_of_set();
        g.lemma_wf_dim();
        lemma_rect_card(s);
        lemma_len_subset(rect(s), hs);
        assert(s * s <= hs.len());
        assert(false);
    }
}

proof fn lemma_grid_full(g: Grid, hist: Seq<(usize, usize)>)
    requires
        g.wf(),
        hist.len() == g.dim() * g.dim(),
        forall|j: int|
            0 <= j < hist.len() ==> in_bounds(
                g.dim(),
                (#[trigger] hist[j]).0 as int,
                hist[j].1 as int,
            ),
        forall|j: int|
            0 <= j < hist.len() ==> (#[trigger] g.cell(hist[j].0 as int, hist[j].1 as int)) is Some,
        forall|j1: int, j2: int| 0 <= j1 < j2 < hist.len() ==> hist[j1] != hist[j2],
    ensures
        forall|a: int, b: int| in_bounds(g.dim(), a, b) ==> (#[trigger] g.cell(a, b)) is Some,
{
    let s = g.dim();
    g.lemma_wf_dim();
    let hs = hist_set(hist);
    let m = hist.map_values(|p: (usize, usize)| (p.0 as int, p.1 as int));
    assert forall|j1: int, j2: int|
        0 <= j1 < hist.len() && 0 <= j2 < hist.len() && j1 != j2 implies m[j1] != m[j2] by {
        if j1 < j2 {
            assert(hist[j1] != hist[j2]);
        } else {
            assert(hist[j2] != hist[j1]);
        }
    }
    m.unique_seq_to_set();
    assert(hs.len() == s * s);
    assert forall|p: (int, int)| hs.contains(p) implies rect(s).contains(p) by {
        let j = choose|j: int| 0 <= j < m.len() && m[j] == p;
        assert(in_bounds(s, hist[j].0 as int, hist[j].1 as int));
    }
    g.lemma_wf_dim();
    lemma_rect_card(s);
    lemma_subset_equality(hs, rect(s));
    assert forall|a: int, b: int| in_bounds(s, a, b) implies (#[trigger] g.cell(a, b)) is Some by {
        assert(rect(s).contains((a, b)));
        assert(hs.contains((a, b)));
        let j = choose|j: int| 0 <= j < m.len() && m[j] == (a, b);
        assert(hist[j] == ((a as usize, b as usize)));
        assert(g.cell(hist[j].0 as int, hist[j].1 as int) is Some);
    }
}

/// On a grid with a filled cell and an empty cell there is always an empty
/// cell with a filled neighbor: a frontier cell.
proof fn lemma_frontier_witness(g: Grid, px: int, py: int, qx: int, qy: int)
    requires
        g.wf(),
        in_bounds(g.dim(), px, py),
        in_bounds(g.dim(), qx, qy),
        g.cell(px, py) is Some,
        g.cell(qx, qy) is None,
    ensures
        exists|a: int, b: int|
            in_bounds(g.dim(), a, b) && (#[trigger] g.cell(a, b)) is None && count_filled(g, a, b)
                > 0,
    decreases vstd::math::max(vstd::math::abs(px - qx) as int, vstd::math::abs(py - qy) as int),
{
    let sx = if qx > px { px + 1 } else if qx < px { px - 1 } else { px };
    let sy = if qy > py { py + 1 } else if qy < py { py - 1 } else { py };
    assert((px, py) != (qx, qy));
    assert(in_bounds(g.dim(), sx, sy));
    if g.cell(sx, sy) is None {
        assert(is_nbr(g.dim(), sx, sy, px, py));
        lemma_filled_nbr_count(g, sx, sy, px, py);
    } else {
        lemma_frontier_witness(g, sx, sy, qx, qy);
    }
}

proof fn lemma_count_empty(g: Grid, x: int, y: int)
    requires
        forall|a: int, b: int| in_bounds(g.dim(), a, b) ==> (#[trigger] g.cell(a, b)) is None,
    ensures
        count_filled(g, x, y) == 0,
{
    reveal_with_fuel(count_filled_upto, 9);
}

/// The output integrity oracle: `true` exactly when the values are `n`
/// distinct catalog indices below `n` — that is, each of `0 .. n` once.
pub fn check_exact_cover(values: &Vec<usize>, n: usize) -> (r: bool)
    ensures
        r == ({
            &&& values@.len() == n
            &&& forall|j: int| 0 <= j < values@.len() ==> (#[trigger] values@[j]) < n
            &&& forall|j1: int, j2: int| 0 <= j1 < j2 < values@.len() ==> values@[j1] != values@[j2]
        }),
{
    if values.len() != n {
        return false;
    }
    let mut seen: Vec<bool> = vec![false; n];
    let mut j: usize = 0;
    while j < n
        invariant
            j <= n,
            n == values@.len(),
            seen@.len() == n,
            forall|t: int| 0 <= t < j ==> (#[trigger] values@[t]) < n,
            forall|t1: int, t2: int| 0 <= t1 < t2 < j ==> values@[t1] != values@[t2],
            forall|v: int|
                0 <= v < n ==> ((#[trigger] seen@[v]) <==> exists|t: int|
                    0 <= t < j && values@[t] == v),
        decreases n - j,
    {
        let v = values[j];
        if v >= n {
            return false;
        }
        if seen[v] {
            proof {
                let t = choose|t: int| 0 <= t < j && values@[t] == v as int;
                assert(values@[t] == values@[j as int]);
            }
            return false;
        }
        seen[v] = true;
        proof {
            assert forall|w: int|
                0 <= w < n implies ((#[trigger] seen@[w]) <==> exists|t: int|
                0 <= t < j + 1 && values@[t] == w) by {
                if w == v as int {
                    assert(values@[j as int] == w);
                } else {
                    if exists|t: int| 0 <= t < j + 1 && values@[t] == w {
                        let t = choose|t: int| 0 <= t < j + 1 && values@[t] == w;
                        assert(t < j);
                    }
                }
            }
        }
        j += 1;
    }
    true
}

/// `c` appears among the first `t` entries of `s`.
pub open spec fn among(s: Seq<(usize, usize)>, t: int, c: (usize, usize)) -> bool {
    exists|q: int| 0 <= q < t && s[q] == c
}

/// One step of the greedy rule: on grid `g`, the state before the step,
/// color `color` goes to `p`: an empty in-bounds cell with at least one
/// filled neighbor, whose desired color (the per-axis mean of its filled
/// neighbors) is at minimal squared distance from `color`'s coordinate
/// among all such cells.
pub open spec fn greedy_choice(g: Grid, cat: Seq<Lab>, color: usize, p: (usize, usize)) -> bool {
    &&& in_bounds(g.dim(), p.0 as int, p.1 as int)
    &&& g.cell(p.0 as int, p.1 as int) is None
    &&& count_filled(g, p.0 as int, p.1 as int) > 0
    &&& forall|c: (usize, usize)|
        in_bounds(g.dim(), c.0 as int, c.1 as int) && (#[trigger] g.cell(
            c.0 as int,
            c.1 as int,
        )) is None && count_filled(g, c.0 as int, c.1 as int) > 0 ==> dist2_spec(
            cat[color as int],
            target_spec(g, cat, p.0 as int, p.1 as int),
        ) <= dist2_spec(cat[color as int], target_spec(g, cat, c.0 as int, c.1 as int))
}

/// The whole greedy walk: `hist[j]` is where color `order[j]` was placed
/// and `grids[j]` the grid before step `j`, so `grids` has one more entry
/// than `hist`.  Step 0 seeds the grid's center; every later step follows
/// the greedy rule on the grid as it then stood; each step fills exactly
/// its chosen cell and changes nothing else.
pub open spec fn greedy_run(
    side: usize,
    cat: Seq<Lab>,
    order: Seq<usize>,
    hist: Seq<(usize, usize)>,
    grids: Seq<Grid>,
) -> bool {
    &&& grids.len() == hist.len() + 1
    &&& hist.len() <= order.len()
    &&& forall|j: int| 0 <= j < grids.len() ==> (#[trigger] grids[j]).dim() == side
    &&& forall|a: int, b: int|
        in_bounds(side as int, a, b) ==> (#[trigger] grids[0].cell(a, b)) is None
    &&& hist.len() > 0 ==> hist[0] == ((side / 2, side / 2))
    &&& forall|j: int|
        0 <= j < hist.len() ==> (#[trigger] grids[j + 1].cell(
            hist[j].0 as int,
            hist[j].1 as int,
        )) == Some(order[j])
    &&& forall|j: int, a: int, b: int|
        0 <= j < hist.len() && (a, b) != (hist[j].0 as int, hist[j].1 as int) ==> (
        #[trigger] grids[j + 1].cell(a, b)) == grids[j].cell(a, b)
    &&& forall|j: int|
        1 <= j < hist.len() ==> #[trigger] greedy_choice(grids[j], cat, order[j], hist[j])
}

/// The placement engine's state: the grid being filled, the frontier
/// index, the catalog with its processing order, and how far the walk has
/// come.  `hist` records where each processed color was placed, and
/// `grids` the grid as it stood before each step.
pub struct Engine {
    pub side: usize,
    pub catalog: Vec<Lab>,
    pub order: Vec<usize>,
    pub grid: Grid,
    pub frontier: Frontier,
    pub placed: usize,
    pub hist: Ghost<Seq<(usize, usize)>>,
    pub grids: Ghost<Seq<Grid>>,
}

impl Engine {
    /// The engine's invariant.  Besides well-formedness it states the two
    /// load-bearing facts: the grid's filled cells are exactly where the
    /// placed prefix of the processing order went, one cell per color; and
    /// the frontier tracks exactly the empty cells with a filled neighbor,
    /// each under its current desired color.
    pub open spec fn inv(self) -> bool {
        let s = self.side as int;
        &&& 1 <= self.side <= 4096
        &&& self.grid.wf()
        &&& self.grid.dim() == s
        &&& self.catalog@.len() <= s * s
        &&& is_permutation(self.order@, self.catalog@.len())
        &&& forall|q: int| 0 <= q < self.catalog@.len() ==> (#[trigger] self.catalog@[q]).wf()
        &&& self.placed <= self.order@.len()
        &&& self.hist@.len() == self.placed
        &&& forall|j: int|
            0 <= j < self.placed ==> in_bounds(
                s,
                (#[trigger] self.hist@[j]).0 as int,
                self.hist@[j].1 as int,
            )
        &&& forall|j: int|
            0 <= j < self.placed ==> (#[trigger] self.grid.cell(
                self.hist@[j].0 as int,
                self.hist@[j].1 as int,
            )) == Some(self.order@[j])
        &&& forall|j1: int, j2: int| 0 <= j1 < j2 < self.placed ==> self.hist@[j1] != self.hist@[j2]
        &&& forall|a: int, b: int|
            in_bounds(s, a, b) && (#[trigger] self.grid.cell(a, b)) is Some ==> exists|j: int|
                0 <= j < self.placed && #[trigger] self.hist@[j] == ((a as usize, b as usize))
        &&& values_index(self.grid, self.catalog@)
        &&& self.frontier.wf()
        &&& forall|c: (usize, usize)|
            #[trigger] self.frontier.as_map().contains_key(c) <==> (in_bounds(
                s,
                c.0 as int,
                c.1 as int,
            ) && self.grid.cell(c.0 as int, c.1 as int) is None && count_filled(
                self.grid,
                c.0 as int,
                c.1 as int,
            ) > 0)
        &&& forall|c: (usize, usize)|
            #[trigger] self.frontier.as_map().contains_key(c) ==> self.frontier.as_map()[c]
                == target_spec(self.grid, self.catalog@, c.0 as int, c.1 as int)
        &&& self.grids@.len() == self.placed + 1
        &&& self.grids@[self.grids@.len() - 1] == self.grid
        &&& greedy_run(self.side, self.catalog@, self.order@, self.hist@, self.grids@)
    }

    /// Start an engine over a catalog and its processing order.  A catalog
    /// larger than the grid's capacity is rejected before any work.
    pub fn new(side: usize, catalog: Vec<Lab>, order: Vec<usize>) -> (r: Result<
        Engine,
        EngineError,
    >)
        requires
            1 <= side <= 4096,
            is_permutation(order@, catalog@.len()),
            forall|q: int| 0 <= q < catalog@.len() ==> (#[trigger] catalog@[q]).wf(),
        ensures
            match r {
                Ok(e) => {
                    &&& e.inv()
                    &&& e.placed == 0
                    &&& e.side == side
                    &&& e.catalog == catalog
                    &&& e.order == order
                    &&& catalog@.len() <= side * side
                },
                Err(err) => err == EngineError::CapacityExceeded && catalog@.len() > side * side,
            },
    {
        proof {
            assert(side * side <= 4096 * 4096) by (nonlinear_arith)
                requires side <= 4096;
        }
        if catalog.len() > side * side {
            return Err(EngineError::CapacityExceeded);
        }
        let grid = Grid::new(side);
        let frontier = Frontier::new();
        let ghost gseq = Seq::empty().push(grid);
        let e = Engine {
            side,
            catalog,
            order,
            grid,
            frontier,
            placed: 0,
            hist: Ghost(Seq::empty()),
            grids: Ghost(gseq),
        };
        proof {
            assert forall|c: (usize, usize)|
                !(in_bounds(side as int, c.0 as int, c.1 as int) && e.grid.cell(
                    c.0 as int,
                    c.1 as int,
                ) is None && count_filled(e.grid, c.0 as int, c.1 as int) > 0) by {
                lemma_count_empty(e.grid, c.0 as int, c.1 as int);
            }
            assert(e.grids@.len() == 1 && e.grids@[0] == e.grid);
            assert(greedy_run(side, e.catalog@, e.order@, e.hist@, e.grids@));
        }
        Ok(e)
    }

    /// Place the next color of the processing order.  The seed goes to the
    /// grid's center; every later color goes to the frontier cell whose
    /// desired color is nearest to its own.  The chosen cell is committed
    /// and the desired colors of its still-empty neighbors recomputed.
    #[verifier::rlimit(50)]
    pub fn step(&mut self) -> (pos: (usize, usize))
        requires
            old(self).inv(),
            old(self).placed < old(self).order@.len(),
        ensures
            final(self).inv(),
            final(self).placed == old(self).placed + 1,
            final(self).side == old(self).side,
            final(self).catalog == old(self).catalog,
            final(self).order == old(self).order,
            final(self).hist@ == old(self).hist@.push(pos),
            in_bounds(old(self).side as int, pos.0 as int, pos.1 as int),
            old(self).grid.cell(pos.0 as int, pos.1 as int) is None,
            final(self).grid.cell(pos.0 as int, pos.1 as int) == Some(
                old(self).order@[old(self).placed as int],
            ),
            forall|a: int, b: int|
                (a, b) != (pos.0 as int, pos.1 as int) ==> #[trigger] final(self).grid.cell(a, b)
                    == old(self).grid.cell(a, b),
            old(self).placed == 0 ==> pos == ((old(self).side / 2, old(self).side / 2)),
            old(self).placed > 0 ==> old(self).frontier.as_map().contains_key(pos),
            old(self).placed > 0 ==> forall|c: (usize, usize)|
                #[trigger] old(self).frontier.as_map().contains_key(c) ==> dist2_spec(
                    old(self).catalog@[old(self).order@[old(self).placed as int] as int],
                    old(self).frontier.as_map()[pos],
                ) <= dist2_spec(
                    old(self).catalog@[old(self).order@[old(self).placed as int] as int],
                    old(self).frontier.as_map()[c],
                ),
    {
        let ghost s = self.side as int;
        let i = self.placed;
        let col_idx = self.order[i];
        let pos: (usize, usize);
        if i == 0 {
            let c = self.side / 2;
            pos = (c, c);
            proof {
                assert(in_bounds(s, c as int, c as int));
                if self.grid.cell(c as int, c as int) is Some {
                    let j = choose|j: int|
                        0 <= j < self.placed && #[trigger] self.hist@[j] == ((c, c));
                    assert(false);
                }
            }
        } else {
            let target = self.catalog[col_idx];
            proof {
                let p0 = self.hist@[0];
                assert(self.grid.cell(p0.0 as int, p0.1 as int) is Some);
                assert((self.hist@.len() as int) < s * s);
                lemma_exists_empty(self.grid, self.hist@);
                let (qa, qb) = choose|a: int, b: int|
                    in_bounds(s, a, b) && (#[trigger] self.grid.cell(a, b)) is None;
                lemma_frontier_witness(self.grid, p0.0 as int, p0.1 as int, qa, qb);
                let (ea, eb) = choose|a: int, b: int|
                    in_bounds(s, a, b) && (#[trigger] self.grid.cell(a, b)) is None
                        && count_filled(self.grid, a, b) > 0;
                let ec = ((ea as usize, eb as usize));
                assert(self.frontier.as_map().contains_key(ec));
                self.frontier.lemma_contains_size(ec);
            }
            pos = self.frontier.query_nearest(&target);
            proof {
                assert(in_bounds(s, pos.0 as int, pos.1 as int) && self.grid.cell(
                    pos.0 as int,
                    pos.1 as int,
                ) is None);
                assert forall|c: (usize, usize)|
                    in_bounds(s, c.0 as int, c.1 as int) && (#[trigger] self.grid.cell(
                        c.0 as int,
                        c.1 as int,
                    )) is None && count_filled(self.grid, c.0 as int, c.1 as int)
                    > 0 implies dist2_spec(
                    self.catalog@[col_idx as int],
                    target_spec(self.grid, self.catalog@, pos.0 as int, pos.1 as int),
                ) <= dist2_spec(
                    self.catalog@[col_idx as int],
                    target_spec(self.grid, self.catalog@, c.0 as int, c.1 as int),
                ) by {
                    assert(self.frontier.as_map().contains_key(c));
                    assert(self.frontier.as_map()[c] == target_spec(
                        self.grid,
                        self.catalog@,
                        c.0 as int,
                        c.1 as int,
                    ));
                }
                assert(greedy_choice(self.grid, self.catalog@, col_idx, pos));
            }
        }
        self.frontier.remove(pos);
        let ghost fmid = self.frontier;
        self.grid.set(pos.0, pos.1, col_idx);
        self.hist = Ghost(self.hist@.push(pos));
        self.grids = Ghost(self.grids@.push(self.grid));
        let ghost gold = old(self).grid;
        let ghost gnew = self.grid;
        let ghost hist1 = self.hist@;
        let ghost cat = self.catalog@;
        let ghost ord = self.order@;
        proof {
            assert(ord[i as int] < cat.len());
            assert forall|a: int, b: int| #[trigger] filled_at(gnew, a, b) implies gnew.cell(
                a,
                b,
            )->0 < cat.len() by {
                if (a, b) != (pos.0 as int, pos.1 as int) {
                    assert(filled_at(gold, a, b));
                }
            }
        }
        let en = self.grid.empty_neighbors(pos.0, pos.1);
        let mut t: usize = 0;
        while t < en.len()
            invariant
                t <= en@.len(),
                self.side as int == s,
                1 <= self.side <= 4096,
                (i as int) < ord.len(),
                self.catalog == old(self).catalog,
                self.order == old(self).order,
                self.catalog@ == cat,
                self.order@ == ord,
                self.placed == i,
                self.hist@ == hist1,
                self.grids@ == old(self).grids@.push(gnew),
                self.grid == gnew,
                self.frontier.wf(),
                gnew.wf(),
                gnew.dim() == s,
                in_bounds(s, pos.0 as int, pos.1 as int),
                gnew.cell(pos.0 as int, pos.1 as int) is Some,
                values_index(gnew, cat),
                forall|q: int| 0 <= q < cat.len() ==> (#[trigger] cat[q]).wf(),
                forall|q: int|
                    0 <= q < en@.len() ==> is_nbr(
                        s,
                        pos.0 as int,
                        pos.1 as int,
                        (#[trigger] en@[q]).0 as int,
                        en@[q].1 as int,
                    ) && gnew.cell(en@[q].0 as int, en@[q].1 as int) is None,
                forall|a: int, b: int|
                    #[trigger] is_nbr(s, pos.0 as int, pos.1 as int, a, b) && gnew.cell(a, b)
                        is None ==> exists|q: int|
                        0 <= q < en@.len() && en@[q] == ((a as usize, b as usize)),
                forall|c: (usize, usize)|
                    among(en@, t as int, c) ==> #[trigger] self.frontier.as_map().contains_key(c)
                        && self.frontier.as_map()[c] == target_spec(
                        gnew,
                        cat,
                        c.0 as int,
                        c.1 as int,
                    ),
                forall|c: (usize, usize)|
                    !among(en@, t as int, c) ==> ((#[trigger] self.frontier.as_map().contains_key(
                        c,
                    )) == fmid.as_map().contains_key(c) && (fmid.as_map().contains_key(c)
                        ==> self.frontier.as_map()[c] == fmid.as_map()[c])),
            decreases en@.len() - t,
        {
            let (nx, ny) = en[t];
            proof {
                assert(is_nbr(s, pos.0 as int, pos.1 as int, nx as int, ny as int));
                assert(is_nbr(s, nx as int, ny as int, pos.0 as int, pos.1 as int));
                lemma_filled_nbr_count(gnew, nx as int, ny as int, pos.0 as int, pos.1 as int);
            }
            let tc = self.grid.target_color(&self.catalog, nx, ny);
            let ghost fprev = self.frontier;
            self.frontier.upsert((nx, ny), tc);
            proof {
                assert(en@[t as int] == ((nx, ny)));
                assert forall|c: (usize, usize)| among(en@, t + 1, c) implies #[trigger] self
                    .frontier
                    .as_map()
                    .contains_key(c) && self.frontier.as_map()[c] == target_spec(
                    gnew,
                    cat,
                    c.0 as int,
                    c.1 as int,
                ) by {
                    if c == (nx, ny) {
                        assert(self.frontier.as_map().contains_key(c));
                        assert(self.frontier.as_map()[c] == tc);
                    } else {
                        let q = choose|q: int| 0 <= q < t + 1 && en@[q] == c;
                        assert(q != t);
                        assert(0 <= q < t && en@[q] == c);
                        assert(among(en@, t as int, c));
                        assert(fprev.as_map().contains_key(c));
                        assert(fprev.as_map()[c] == target_spec(gnew, cat, c.0 as int, c.1 as int));
                        assert(self.frontier.as_map().contains_key(c));
                        assert(self.frontier.as_map()[c] == fprev.as_map()[c]);
                    }
                }
                assert forall|c: (usize, usize)| !among(en@, t + 1, c) implies ((
                #[trigger] self.frontier.as_map().contains_key(c)) == fmid.as_map().contains_key(c)
                    && (fmid.as_map().contains_key(c) ==> self.frontier.as_map()[c]
                    == fmid.as_map()[c])) by {
                    assert(en@[t as int] == ((nx, ny)));
                    assert(c != (nx, ny));
                    assert(!among(en@, t as int, c)) by {
                        if among(en@, t as int, c) {
                            let q = choose|q: int| 0 <= q < t && en@[q] == c;
                            assert(0 <= q < t + 1 && en@[q] == c);
                        }
                    }
                }
            }
            t += 1;
        }
        let order_total = self.order.len();
        self.placed = i + 1;
        proof {
            assert(forall|j: int| 0 <= j < i ==> hist1[j] == old(self).hist@[j]);
            assert(hist1[i as int] == pos);
            assert forall|j: int|
                0 <= j < self.placed implies (#[trigger] gnew.cell(
                hist1[j].0 as int,
                hist1[j].1 as int,
            )) == Some(ord[j]) by {
                if j < i {
                    assert(gold.cell(hist1[j].0 as int, hist1[j].1 as int) == Some(ord[j]));
                    assert((hist1[j].0 as int, hist1[j].1 as int) != (pos.0 as int, pos.1 as int));
                }
            }
            assert forall|j1: int, j2: int|
                0 <= j1 < j2 < self.placed implies hist1[j1] != hist1[j2] by {
                if j2 == i {
                    assert(gold.cell(hist1[j1].0 as int, hist1[j1].1 as int) == Some(ord[j1]));
                }
            }
            assert forall|a: int, b: int|
                in_bounds(s, a, b) && (#[trigger] gnew.cell(a, b)) is Some implies exists|j: int|
                0 <= j < self.placed && #[trigger] hist1[j] == ((a as usize, b as usize)) by {
                if (a, b) == (pos.0 as int, pos.1 as int) {
                    assert(hist1[i as int] == ((a as usize, b as usize)));
                } else {
                    assert(gold.cell(a, b) is Some);
                    let j = choose|j: int|
                        0 <= j < i && #[trigger] old(self).hist@[j] == ((a as usize, b as usize));
                    assert(hist1[j] == ((a as usize, b as usize)));
                }
            }
            let grids1 = self.grids@;
            let ghost grids0 = old(self).grids@;
            assert(grids1 == grids0.push(gnew));
            assert(forall|j: int| 0 <= j < grids0.len() ==> grids1[j] == grids0[j]);
            assert(grids1[grids1.len() - 1] == gnew);
            assert(grids1[i as int] == grids0[grids0.len() - 1]);
            assert(grids1[i as int] == gold);
            assert forall|j: int| 0 <= j < grids1.len() implies (#[trigger] grids1[j]).dim()
                == self.side by {
                if j < grids1.len() - 1 {
                    assert(grids1[j] == grids0[j]);
                }
            }
            assert forall|a: int, b: int| in_bounds(s, a, b) implies (#[trigger] grids1[0].cell(
                a,
                b,
            )) is None by {
                assert(grids1[0] == grids0[0]);
            }
            assert(hist1[0] == ((self.side / 2, self.side / 2))) by {
                if i > 0 {
                    assert(hist1[0] == old(self).hist@[0]);
                }
            }
            assert forall|j: int| 0 <= j < hist1.len() implies (#[trigger] grids1[j + 1].cell(
                hist1[j].0 as int,
                hist1[j].1 as int,
            )) == Some(ord[j]) by {
                if j < i {
                    assert(grids1[j + 1] == grids0[j + 1] && grids1[j] == grids0[j]);
                    assert(hist1[j] == old(self).hist@[j]);
                }
            }
            assert forall|j: int, a: int, b: int|
                0 <= j < hist1.len() && (a, b) != (hist1[j].0 as int, hist1[j].1 as int) implies (
            #[trigger] grids1[j + 1].cell(a, b)) == grids1[j].cell(a, b) by {
                if j < i {
                    assert(grids1[j + 1] == grids0[j + 1] && grids1[j] == grids0[j]);
                    assert(hist1[j] == old(self).hist@[j]);
                    assert(grids0[j + 1].cell(a, b) == grids0[j].cell(a, b));
                }
            }
            assert forall|j: int| 1 <= j < hist1.len() implies #[trigger] greedy_choice(
                grids1[j],
                cat,
                ord[j],
                hist1[j],
            ) by {
                if j < i {
                    assert(grids1[j] == grids0[j]);
                    assert(hist1[j] == old(self).hist@[j]);
                    assert(greedy_choice(grids0[j], cat, ord[j], old(self).hist@[j]));
                } else {
                    assert(grids1[j] == gold && hist1[j] == pos);
                    assert(greedy_choice(gold, cat, ord[i as int], pos));
                }
            }
            assert(greedy_run(self.side, cat, ord, hist1, grids1));
            assert forall|c: (usize, usize)|
                ((#[trigger] self.frontier.as_map().contains_key(c)) <==> (in_bounds(
                    s,
                    c.0 as int,
                    c.1 as int,
                ) && gnew.cell(c.0 as int, c.1 as int) is None && count_filled(
                    gnew,
                    c.0 as int,
                    c.1 as int,
                ) > 0)) && (self.frontier.as_map().contains_key(c)
                ==> self.frontier.as_map()[c] == target_spec(
                gnew,
                cat,
                c.0 as int,
                c.1 as int,
            )) by {
                if among(en@, en@.len() as int, c) {
                    let q = choose|q: int| 0 <= q < en@.len() && en@[q] == c;
                    assert(is_nbr(s, pos.0 as int, pos.1 as int, c.0 as int, c.1 as int));
                    assert(is_nbr(s, c.0 as int, c.1 as int, pos.0 as int, pos.1 as int));
                    lemma_filled_nbr_count(
                        gnew,
                        c.0 as int,
                        c.1 as int,
                        pos.0 as int,
                        pos.1 as int,
                    );
                } else {
                    if c == pos {
                    } else {
                        if is_nbr(s, c.0 as int, c.1 as int, pos.0 as int, pos.1 as int) {
                            if in_bounds(s, c.0 as int, c.1 as int) && gnew.cell(
                                c.0 as int,
                                c.1 as int,
                            ) is None {
                                assert(is_nbr(s, pos.0 as int, pos.1 as int, c.0 as int, c.1 as int));
                                assert(exists|q: int|
                                    0 <= q < en@.len() && en@[q] == ((
                                        (c.0 as int) as usize,
                                        (c.1 as int) as usize,
                                    )));
                                assert(among(en@, en@.len() as int, c));
                                assert(false);
                            }
                            assert(!old(self).frontier.as_map().contains_key(c));
                        } else {
                            lemma_target_local(
                                gnew,
                                gold,
                                cat,
                                c.0 as int,
                                c.1 as int,
                                pos.0 as int,
                                pos.1 as int,
                            );
                        }
                    }
                }
            }
        }
        pos
    }

    /// Drive the engine to completion: place every remaining color.
    pub fn run(&mut self)
        requires
            old(self).inv(),
        ensures
            final(self).inv(),
            final(self).placed == final(self).order@.len(),
            final(self).side == old(self).side,
            final(self).catalog == old(self).catalog,
            final(self).order == old(self).order,
    {
        while self.placed < self.order.len()
            invariant
                self.inv(),
                self.side == old(self).side,
                self.catalog == old(self).catalog,
                self.order == old(self).order,
            decreases self.order@.len() - self.placed,
        {
            let _pos = self.step();
        }
    }

    /// Catalog index `c` sits somewhere on the grid.
    pub open spec fn appears(self, c: usize) -> bool {
        exists|a: int, b: int|
            in_bounds(self.side as int, a, b) && #[trigger] self.grid.cell(a, b) == Some(c)
    }

    /// Every cell is filled, and every catalog index sits in exactly one
    /// cell: the grid's values are `0 .. n`, each exactly once.
    pub open spec fn places_bijectively(self) -> bool {
        let s = self.side as int;
        &&& forall|a: int, b: int|
            in_bounds(s, a, b) ==> (#[trigger] self.grid.cell(a, b)) is Some
        &&& forall|c: usize| c < self.catalog@.len() ==> #[trigger] self.appears(c)
        &&& forall|a1: int, b1: int, a2: int, b2: int|
            in_bounds(s, a1, b1) && in_bounds(s, a2, b2) && (#[trigger] self.grid.cell(a1, b1))
                is Some && self.grid.cell(a1, b1) == #[trigger] self.grid.cell(a2, b2) ==> a1 == a2
                && b1 == b2
    }

    /// A completed run on a grid whose capacity equals the catalog size
    /// placed every catalog index exactly once: the multiset of grid
    /// values is exactly the catalog indices.
    pub proof fn lemma_bijection(self)
        requires
            self.inv(),
            self.placed == self.order@.len(),
            self.catalog@.len() == self.side * self.side,
        ensures
            self.places_bijectively(),
    {
        let s = self.side as int;
        let n = self.catalog@.len() as int;
        assert(self.hist@.len() == s * s);
        lemma_grid_full(self.grid, self.hist@);
        assert forall|c: usize| c < self.catalog@.len() implies #[trigger] self.appears(c) by {
            assert(self.order@.contains(c));
            let j = choose|j: int| 0 <= j < self.order@.len() && self.order@[j] == c;
            let p = self.hist@[j];
            assert(self.grid.cell(p.0 as int, p.1 as int) == Some(c));
            assert(in_bounds(s, p.0 as int, p.1 as int));
        }
        assert forall|a1: int, b1: int, a2: int, b2: int|
            in_bounds(s, a1, b1) && in_bounds(s, a2, b2) && (#[trigger] self.grid.cell(a1, b1))
                is Some && self.grid.cell(a1, b1) == #[trigger] self.grid.cell(a2, b2) implies a1
            == a2 && b1 == b2 by {
            let j1 = choose|j: int|
                0 <= j < self.placed && #[trigger] self.hist@[j] == ((a1 as usize, b1 as usize));
            let j2 = choose|j: int|
                0 <= j < self.placed && #[trigger] self.hist@[j] == ((a2 as usize, b2 as usize));
            assert(self.grid.cell(a1, b1) == Some(self.order@[j1]));
            assert(self.grid.cell(a2, b2) == Some(self.order@[j2]));
            if j1 != j2 {
                if j1 < j2 {
                    assert(self.order@[j1] != self.order@[j2]);
                } else {
                    assert(self.order@[j2] != self.order@[j1]);
                }
            }
            assert(j1 == j2);
        }
    }

    /// The completed grid's values, row by row: entry `a * side + b` is
    /// the catalog index placed at cell `(a, b)`.
    pub fn values(&self) -> (r: Vec<usize>)
        requires
            self.inv(),
            self.placed == self.order@.len(),
            self.catalog@.len() == self.side * self.side,
        ensures
            r@.len() == self.side * self.side,
            forall|a: int, b: int|
                in_bounds(self.side as int, a, b) ==> (#[trigger] r@[a * self.side + b])
                    == self.grid.cell(a, b)->0,
            forall|t: int| 0 <= t < r@.len() ==> (#[trigger] r@[t]) < self.catalog@.len(),
            forall|t1: int, t2: int| 0 <= t1 < t2 < r@.len() ==> r@[t1] != r@[t2],
    {
        proof {
            self.lemma_bijection();
        }
        let side = self.side;
        let ghost s = side as int;
        let mut r: Vec<usize> = Vec::new();
        let mut x: usize = 0;
        while x < side
            invariant
                x <= side,
                side == self.side,
                s == side as int,
                self.inv(),
                forall|a: int, b: int|
                    in_bounds(s, a, b) ==> (#[trigger] self.grid.cell(a, b)) is Some,
                r@.len() == x * side,
                forall|a: int, b: int|
                    0 <= a < x && 0 <= b < side ==> (#[trigger] r@[a * s + b]) == self.grid.cell(
                        a,
                        b,
                    )->0,
            decreases side - x,
        {
            let mut y: usize = 0;
            proof {
                assert(x * side + side <= side * side) by (nonlinear_arith)
                    requires x < side;
            }
            while y < side
                invariant
                    y <= side,
                    x < side,
                    side == self.side,
                    s == side as int,
                    self.inv(),
                    forall|a: int, b: int|
                        in_bounds(s, a, b) ==> (#[trigger] self.grid.cell(a, b)) is Some,
                    r@.len() == x * side + y,
                    x * side + side <= side * side,
                    forall|a: int, b: int|
                        (0 <= a < x && 0 <= b < side) || (a == x && 0 <= b < y) ==> (
                        #[trigger] r@[a * s + b]) == self.grid.cell(a, b)->0,
                decreases side - y,
            {
                let ghost r0 = r@;
                let v = self.grid.get(x, y).unwrap();
                r.push(v);
                y += 1;
                proof {
                    assert(forall|q: int| 0 <= q < r0.len() ==> r@[q] == r0[q]);
                    assert forall|a: int, b: int|
                        (0 <= a < x && 0 <= b < side) || (a == x && 0 <= b < y) implies (
                    #[trigger] r@[a * s + b]) == self.grid.cell(a, b)->0 by {
                        if a < x {
                            assert(a * s + b < x * s) by (nonlinear_arith)
                                requires 0 <= a < x, 0 <= b < s;
                            assert(r@[a * s + b] == r0[a * s + b]);
                        } else {
                            assert(a == x);
                            if b < y - 1 {
                                assert(r@[a * s + b] == r0[a * s + b]);
                            } else {
                                assert(a * s + b == r0.len());
                            }
                        }
                    }
                }
            }
            x += 1;
            proof {
                assert((x - 1) * side + side == x * side) by (nonlinear_arith);
            }
        }
        proof {
            assert forall|t: int| 0 <= t < r@.len() implies (#[trigger] r@[t]) < self
                .catalog@
                .len() by {
                let a = t / s;
                let b = t % s;
                vstd::arithmetic::div_mod::lemma_fundamental_div_mod(t, s);
                vstd::arithmetic::div_mod::lemma_mod_division_less_than_divisor(t, s);
                vstd::arithmetic::div_mod::lemma_div_pos_is_pos(t, s);
                assert(a < s) by (nonlinear_arith)
                    requires a * s + b == t, t < s * s, 0 <= b < s, 0 <= a;
                assert(in_bounds(s, a, b));
                assert(r@[a * s + b] == self.grid.cell(a, b)->0);
                assert(filled_at(self.grid, a, b));
            }
            assert forall|t1: int, t2: int| 0 <= t1 < t2 < r@.len() implies r@[t1] != r@[t2] by {
                let a1 = t1 / s;
                let b1 = t1 % s;
                let a2 = t2 / s;
                let b2 = t2 % s;
                vstd::arithmetic::div_mod::lemma_fundamental_div_mod(t1, s);
                vstd::arithmetic::div_mod::lemma_mod_division_less_than_divisor(t1, s);
                vstd::arithmetic::div_mod::lemma_div_pos_is_pos(t1, s);
                vstd::arithmetic::div_mod::lemma_fundamental_div_mod(t2, s);
                vstd::arithmetic::div_mod::lemma_mod_division_less_than_divisor(t2, s);
                vstd::arithmetic::div_mod::lemma_div_pos_is_pos(t2, s);
                assert(a1 < s) by (nonlinear_arith)
                    requires a1 * s + b1 == t1, t1 < s * s, 0 <= b1 < s, 0 <= a1;
                assert(a2 < s) by (nonlinear_arith)
                    requires a2 * s + b2 == t2, t2 < s * s, 0 <= b2 < s, 0 <= a2;
                assert(in_bounds(s, a1, b1) && in_bounds(s, a2, b2));
                assert(r@[a1 * s + b1] == self.grid.cell(a1, b1)->0);
                assert(r@[a2 * s + b2] == self.grid.cell(a2, b2)->0);
                assert((a1, b1) != (a2, b2));
                if r@[t1] == r@[t2] {
                    assert(self.grid.cell(a1, b1) is Some && self.grid.cell(a2, b2) is Some);
                    assert(self.grid.cell(a1, b1) == self.grid.cell(a2, b2));
                    assert(false);
                }
            }
        }
        r
    }

    pub fn grid_cell(&self, x: usize, y: usize) -> (r: Option<usize>)
        requires
            self.inv(),
            in_bounds(self.side as int, x as int, y as int),
        ensures
            r == self.grid.cell(x as int, y as int),
    {
        self.grid.get(x, y)
    }

    pub fn frontier_desired(&self, x: usize, y: usize) -> (r: Option<Lab>)
        requires
            self.inv(),
        ensures
            r == (if self.frontier.as_map().contains_key((x, y)) {
                Some(self.frontier.as_map()[(x, y)])
            } else {
                None::<Lab>
            }),
    {
        self.frontier.get((x, y))
    }

    pub fn frontier_len(&self) -> (r: usize)
        ensures
            r == self.frontier.size(),
    {
        self.frontier.len()
    }

    pub fn placed_count(&self) -> (r: usize)
        ensures
            r == self.placed,
    {
        self.placed
    }

    pub fn total(&self) -> (r: usize)
        ensures
            r == self.order@.len(),
    {
        self.order.len()
    }
}

/// The whole placement computation: build the engine over the catalog and
/// its processing order, run it to completion, and return the grid's
/// values row by row.  On a catalog that exactly fills the grid this
/// always succeeds, and the result lists each catalog index exactly once:
/// the multiset of returned values is exactly `0 .. n`.
pub fn place_all(side: usize, catalog: Vec<Lab>, order: Vec<usize>) -> (r: Vec<usize>)
    requires
        1 <= side <= 4096,
        is_permutation(order@, catalog@.len()),
        forall|q: int| 0 <= q < catalog@.len() ==> (#[trigger] catalog@[q]).wf(),
        catalog@.len() == side * side,
    ensures
        r@.len() == side * side,
        forall|t: int| 0 <= t < r@.len() ==> (#[trigger] r@[t]) < r@.len(),
        forall|t1: int, t2: int| 0 <= t1 < t2 < r@.len() ==> r@[t1] != r@[t2],
        exists|hist: Seq<(usize, usize)>, grids: Seq<Grid>|
            {
                &&& #[trigger] greedy_run(side, catalog@, order@, hist, grids)
                &&& hist.len() == order@.len()
                &&& forall|a: int, b: int|
                    in_bounds(side as int, a, b) ==> (#[trigger] grids[grids.len() - 1].cell(
                        a,
                        b,
                    )) == Some(r@[a * side + b])
            },
{
    match Engine::new(side, catalog, order) {
        Ok(mut e) => {
            e.run();
            let v = e.values();
            proof {
                e.lemma_bijection();
                let hist = e.hist@;
                let grids = e.grids@;
                assert(grids[grids.len() - 1] == e.grid);
                assert forall|a: int, b: int| in_bounds(side as int, a, b) implies (
                #[trigger] grids[grids.len() - 1].cell(a, b)) == Some(v@[a * side + b]) by {
                    assert(v@[a * side + b] == e.grid.cell(a, b)->0);
                    assert(e.grid.cell(a, b) is Some);
                }
                assert({
                    &&& greedy_run(side, catalog@, order@, hist, grids)
                    &&& hist.len() == order@.len()
                    &&& forall|a: int, b: int|
                        in_bounds(side as int, a, b) ==> (#[trigger] grids[grids.len() - 1].cell(
                            a,
                            b,
                        )) == Some(v@[a * side + b])
                });
            }
            v
        },
        Err(_) => {
            proof {
                assert(false);
            }
            Vec::new()
        },
    }
}

} // verus!

