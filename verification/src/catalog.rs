//! The color catalog and its randomized processing order.
//!
//! The catalog enumerates every color of the 8-bit three-channel format in
//! one fixed lexicographic order, so a catalog index determines its color
//! channels and vice versa.  The processing order is a uniformly random
//! permutation of the catalog indices, drawn once.

use vstd::prelude::*;
use rand::seq::SliceRandom;

verus! {

/// How many distinct colors the 8-bit three-channel format has.
pub const CATALOG_LEN: usize = 0x100_0000;

/// The channels of the catalog entry at `i`: red is the highest byte,
/// blue the lowest.
pub fn rgb_of_index(i: usize) -> (r: (u8, u8, u8))
    requires
        i < CATALOG_LEN,
    ensures
        r.0 == i as int / 0x10000,
        r.1 == (i as int / 0x100) % 0x100,
        r.2 == i as int % 0x100,
{
    proof {
        assert(i as int / 0x10000 < 0x100) by (nonlinear_arith)
            requires i < 0x100_0000;
        assert((i as int / 0x100) % 0x100 < 0x100) by (nonlinear_arith);
    }
    ((i / 0x10000) as u8, ((i / 0x100) % 0x100) as u8, (i % 0x100) as u8)
}

/// `s` lists each of the `n` catalog indices exactly once.
pub open spec fn is_permutation(s: Seq<usize>, n: nat) -> bool {
    &&& s.len() == n
    &&& forall|j: int| 0 <= j < s.len() ==> (#[trigger] s[j]) < n
    &&& forall|j1: int, j2: int| 0 <= j1 < j2 < s.len() ==> s[j1] != s[j2]
    &&& forall|c: usize| c < n ==> #[trigger] s.contains(c)
}

/// Relies on rand's `SliceRandom::shuffle`: it reorders the slice in
/// place, drawing the permutation uniformly; the elements themselves are
/// kept.
#[verifier::external_body]
fn shuffle_in_place(v: &mut Vec<usize>)
    ensures
        final(v)@.to_multiset() == old(v)@.to_multiset(),
{
    v.shuffle(&mut rand::rng());
}

/// A uniformly random processing order: a permutation of `0 .. n`.
pub fn shuffled_order(n: usize) -> (r: Vec<usize>)
    ensures
        is_permutation(r@, n as nat),
{
    let mut v: Vec<usize> = Vec::new();
    let mut i: usize = 0;
    while i < n
        invariant
            i <= n,
            v@.len() == i,
            forall|j: int| 0 <= j < i ==> (#[trigger] v@[j]) == j,
        decreases n - i,
    {
        v.push(i);
        i += 1;
    }
    let ghost v0 = v@;
    proof {
        assert(v0.no_duplicates());
        v0.lemma_multiset_has_no_duplicates();
    }
    shuffle_in_place(&mut v);
    proof {
        broadcast use vstd::seq_lib::group_to_multiset_ensures;
        assert(v@.len() == v@.to_multiset().len());
        assert(v0.len() == v0.to_multiset().len());
        assert forall|j: int| 0 <= j < v@.len() implies (#[trigger] v@[j]) < n by {
            assert(v@.contains(v@[j]));
            assert(v@.to_multiset().count(v@[j]) > 0);
            assert(v0.to_multiset().count(v@[j]) > 0);
            assert(v0.contains(v@[j]));
            let t = choose|t: int| 0 <= t < v0.len() && v0[t] == v@[j];
            assert(v0[t] < n);
        }
        assert forall|x: usize| v@.to_multiset().contains(x) implies v@.to_multiset().count(x)
            == 1 by {
            assert(v0.to_multiset().contains(x));
        }
        v@.lemma_multiset_has_no_duplicates_conv();
        assert(forall|j1: int, j2: int| 0 <= j1 < j2 < v@.len() ==> v@[j1] != v@[j2]);
        assert forall|c: usize| c < n implies #[trigger] v@.contains(c) by {
            assert(v0[c as int] == c);
            assert(v0.contains(c));
            assert(v0.to_multiset().count(c) > 0);
            assert(v@.to_multiset().count(c) > 0);
        }
    }
    v
}

} // verus!
