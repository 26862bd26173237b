//! Perceptual color coordinates.
//!
//! A color's position in a perceptually uniform space is held as three
//! fixed-point axes, each a non-negative integer at most [`COORD_MAX`].
//! Squared Euclidean distance between two such points is the measure of
//! how different two colors look.

use vstd::prelude::*;

verus! {

/// Largest value a single perceptual axis may take.
pub const COORD_MAX: u32 = 0x4000_0000;

/// A point in perceptual color space, as three fixed-point axes.
#[derive(Clone, Copy, PartialEq, Eq, Structural, Debug)]
pub struct Lab {
    pub l: u32,
    pub a: u32,
    pub b: u32,
}

impl Lab {
    /// Every axis is within the representable range.
    pub open spec fn wf(self) -> bool {
        self.l <= COORD_MAX && self.a <= COORD_MAX && self.b <= COORD_MAX
    }

    pub fn new(l: u32, a: u32, b: u32) -> (r: Lab)
        requires
            l <= COORD_MAX,
            a <= COORD_MAX,
            b <= COORD_MAX,
        ensures
            r == (Lab { l, a, b }),
            r.wf(),
    {
        Lab { l, a, b }
    }
}

pub open spec fn sq(x: int) -> int {
    x * x
}

/// Squared Euclidean distance between two perceptual points.
pub open spec fn dist2_spec(p: Lab, q: Lab) -> int {
    sq(p.l - q.l) + sq(p.a - q.a) + sq(p.b - q.b)
}

proof fn lemma_axis_dist(x: int, y: int, b: int)
    requires
        0 <= x <= b,
        0 <= y <= b,
    ensures
        sq(x - y) == (if x >= y { (x - y) * (x - y) } else { (y - x) * (y - x) }),
        0 <= sq(x - y) <= b * b,
{
    assert((x - y) * (x - y) == (y - x) * (y - x)) by (nonlinear_arith);
    let d = if x >= y { x - y } else { y - x };
    assert(0 <= d <= b);
    assert(d * d <= b * b) by (nonlinear_arith)
        requires 0 <= d <= b;
}

/// Squared Euclidean distance, exactly as [`dist2_spec`] states it.
pub fn dist2(p: &Lab, q: &Lab) -> (r: u64)
    requires
        p.wf(),
        q.wf(),
    ensures
        r == dist2_spec(*p, *q),
{
    let dl: u64 = if p.l >= q.l { (p.l - q.l) as u64 } else { (q.l - p.l) as u64 };
    let da: u64 = if p.a >= q.a { (p.a - q.a) as u64 } else { (q.a - p.a) as u64 };
    let db: u64 = if p.b >= q.b { (p.b - q.b) as u64 } else { (q.b - p.b) as u64 };
    proof {
        lemma_axis_dist(p.l as int, q.l as int, COORD_MAX as int);
        lemma_axis_dist(p.a as int, q.a as int, COORD_MAX as int);
        lemma_axis_dist(p.b as int, q.b as int, COORD_MAX as int);
    }
    dl * dl + da * da + db * db
}

} // verus!
