//! Packing a grid coordinate into a single integer key.
//!
//! The nearest-neighbor side of the frontier index identifies each entry by
//! one integer, so a coordinate pair is packed into one key and unpacked on
//! the way back.  The scheme reserves a stride of [`Y_LIMIT`] for the `y`
//! component, which therefore must stay below it; grid sides up to
//! [`Y_LIMIT`] are representable.

use vstd::prelude::*;

verus! {

/// Number of `y` values the packing reserves room for.
pub const Y_LIMIT: usize = 4096;

pub open spec fn pack_spec(x: int, y: int) -> int {
    x * 4096 + y
}

pub open spec fn unpack_spec(i: int) -> (int, int) {
    (i / 4096, i % 4096)
}

/// Packing then unpacking returns the coordinate unchanged.
pub proof fn lemma_pack_round_trip(x: int, y: int)
    requires
        0 <= x,
        0 <= y < 4096,
    ensures
        unpack_spec(pack_spec(x, y)).0 == x,
        unpack_spec(pack_spec(x, y)).1 == y,
{
    assert((x * 4096 + y) / 4096 == x) by (nonlinear_arith)
        requires 0 <= x, 0 <= y < 4096;
    assert((x * 4096 + y) % 4096 == y) by (nonlinear_arith)
        requires 0 <= x, 0 <= y < 4096;
}

/// Pack a coordinate pair into a single key.
pub fn coord_to_int(x: usize, y: usize) -> (r: usize)
    requires
        x < Y_LIMIT,
        y < Y_LIMIT,
    ensures
        r == pack_spec(x as int, y as int),
{
    x * 4096 + y
}

/// Unpack a key back into its coordinate pair.
pub fn int_to_coord(i: usize) -> (r: (usize, usize))
    ensures
        r.0 == unpack_spec(i as int).0,
        r.1 == unpack_spec(i as int).1,
{
    (i / 4096, i % 4096)
}

} // verus!
