//! The frontier index: a map from empty grid coordinates to their desired
//! colors, coupled with a nearest-neighbor index over those same desired
//! colors.
//!
//! The two substructures are kept in lockstep: the map holds
//! `(coordinate, desired color)` pairs, the index holds the same entries
//! keyed by the packed coordinate, entry for entry.  `upsert` replaces the
//! index entry under the value that was originally stored before inserting
//! the new one, and `remove` erases both sides, so the pair never diverges.
//! `query_nearest` answers over the index side and returns its payload,
//! unpacked.

use vstd::prelude::*;
use crate::color::{Lab, dist2_spec, dist2};
use crate::coords::{pack_spec, unpack_spec, lemma_pack_round_trip, coord_to_int, int_to_coord};

verus! {

pub open spec fn keys_distinct(s: Seq<((usize, usize), Lab)>) -> bool {
    forall|i: int, j: int| 0 <= i < j < s.len() ==> (#[trigger] s[i]).0 != (#[trigger] s[j]).0
}

/// The association a sequence of `(key, value)` pairs with distinct keys
/// describes.
pub open spec fn seq_map(s: Seq<((usize, usize), Lab)>) -> Map<(usize, usize), Lab> {
    Map::new(
        |k: (usize, usize)| exists|i: int| 0 <= i < s.len() && (#[trigger] s[i]).0 == k,
        |k: (usize, usize)|
            {
                let i = choose|i: int| 0 <= i < s.len() && (#[trigger] s[i]).0 == k;
                s[i].1
            },
    )
}

proof fn lemma_seq_map_entry(s: Seq<((usize, usize), Lab)>, i: int)
    requires
        keys_distinct(s),
        0 <= i < s.len(),
    ensures
        seq_map(s).contains_key(s[i].0),
        seq_map(s)[s[i].0] == s[i].1,
{
    let k = s[i].0;
    assert(seq_map(s).contains_key(k));
    let j = choose|j: int| 0 <= j < s.len() && (#[trigger] s[j]).0 == k;
    if j != i {
        if j < i {
            assert(s[j].0 != s[i].0);
        } else {
            assert(s[i].0 != s[j].0);
        }
    }
    assert(j == i);
}

proof fn lemma_seq_map_absent(s: Seq<((usize, usize), Lab)>, k: (usize, usize))
    requires
        forall|i: int| 0 <= i < s.len() ==> (#[trigger] s[i]).0 != k,
    ensures
        !seq_map(s).contains_key(k),
{
}

/// The coupled pair of coordinate map and nearest-neighbor index.
pub struct Frontier {
    map_vec: Vec<((usize, usize), Lab)>,
    idx_vec: Vec<(usize, Lab)>,
}

impl Frontier {
    /// The map substructure's entries, in storage order.
    pub closed spec fn map_entries(self) -> Seq<((usize, usize), Lab)> {
        self.map_vec@
    }

    /// The nearest-neighbor substructure's entries: packed coordinate and
    /// stored desired color, in storage order.
    pub closed spec fn index_entries(self) -> Seq<(usize, Lab)> {
        self.idx_vec@
    }

    pub closed spec fn wf(self) -> bool {
        &&& self.idx_vec@.len() == self.map_vec@.len()
        &&& keys_distinct(self.map_vec@)
        &&& forall|i: int|
            0 <= i < self.map_vec@.len() ==> {
                &&& (#[trigger] self.map_vec@[i]).0.0 < 4096
                &&& self.map_vec@[i].0.1 < 4096
                &&& self.map_vec@[i].1.wf()
                &&& self.idx_vec@[i].0 == pack_spec(
                    self.map_vec@[i].0.0 as int,
                    self.map_vec@[i].0.1 as int,
                )
                &&& self.idx_vec@[i].1 == self.map_vec@[i].1
            }
    }

    /// What the frontier currently associates: each tracked coordinate's
    /// desired color.
    pub closed spec fn as_map(self) -> Map<(usize, usize), Lab> {
        seq_map(self.map_vec@)
    }

    pub closed spec fn size(self) -> nat {
        self.map_vec@.len()
    }

    /// A tracked coordinate means the frontier is not empty.
    pub proof fn lemma_contains_size(self, k: (usize, usize))
        requires
            self.as_map().contains_key(k),
        ensures
            self.size() > 0,
    {
    }

    /// The map and the nearest-neighbor index never diverge: they hold the
    /// same number of entries, entry `i` of the index carries the packed
    /// key and the very value of entry `i` of the map, and every tracked
    /// coordinate's desired color appears in the index under its packed
    /// key.
    pub proof fn lemma_consistent(self)
        requires
            self.wf(),
        ensures
            self.index_entries().len() == self.map_entries().len(),
            forall|i: int|
                0 <= i < self.map_entries().len() ==> {
                    &&& (#[trigger] self.index_entries()[i]).0 == pack_spec(
                        self.map_entries()[i].0.0 as int,
                        self.map_entries()[i].0.1 as int,
                    )
                    &&& self.index_entries()[i].1 == self.map_entries()[i].1
                    &&& unpack_spec(self.index_entries()[i].0 as int) == (
                        self.map_entries()[i].0.0 as int,
                        self.map_entries()[i].0.1 as int,
                    )
                },
            forall|c: (usize, usize)|
                #[trigger] self.as_map().contains_key(c) ==> exists|i: int|
                    0 <= i < self.index_entries().len() && self.index_entries()[i] == ((
                        pack_spec(c.0 as int, c.1 as int) as usize,
                        self.as_map()[c],
                    )),
    {
        assert forall|i: int| 0 <= i < self.map_entries().len() implies {
            &&& (#[trigger] self.index_entries()[i]).0 == pack_spec(
                self.map_entries()[i].0.0 as int,
                self.map_entries()[i].0.1 as int,
            )
            &&& self.index_entries()[i].1 == self.map_entries()[i].1
            &&& unpack_spec(self.index_entries()[i].0 as int) == (
                self.map_entries()[i].0.0 as int,
                self.map_entries()[i].0.1 as int,
            )
        } by {
            lemma_pack_round_trip(self.map_vec@[i].0.0 as int, self.map_vec@[i].0.1 as int);
        }
        assert forall|c: (usize, usize)| #[trigger] self.as_map().contains_key(c) implies exists|
            i: int,
        |
            0 <= i < self.index_entries().len() && self.index_entries()[i] == ((
                pack_spec(c.0 as int, c.1 as int) as usize,
                self.as_map()[c],
            )) by {
            let wi = choose|i: int| 0 <= i < self.map_vec@.len() && (#[trigger] self.map_vec@[i]).0 == c;
            lemma_seq_map_entry(self.map_vec@, wi);
            assert(self.index_entries()[wi] == ((
                pack_spec(c.0 as int, c.1 as int) as usize,
                self.as_map()[c],
            )));
        }
    }

    pub fn new() -> (r: Frontier)
        ensures
            r.wf(),
            r.size() == 0,
            forall|c: (usize, usize)| !(#[trigger] r.as_map().contains_key(c)),
    {
        let r = Frontier { map_vec: Vec::new(), idx_vec: Vec::new() };
        proof {
            assert forall|c: (usize, usize)| !(#[trigger] r.as_map().contains_key(c)) by {
                lemma_seq_map_absent(r.map_vec@, c);
            }
        }
        r
    }

    fn position_of(&self, k: (usize, usize)) -> (r: Option<usize>)
        ensures
            match r {
                Some(i) => i < self.map_vec@.len() && self.map_vec@[i as int].0 == k,
                None => forall|j: int|
                    0 <= j < self.map_vec@.len() ==> (#[trigger] self.map_vec@[j]).0 != k,
            },
    {
        let mut j: usize = 0;
        while j < self.map_vec.len()
            invariant
                j <= self.map_vec@.len(),
                forall|t: int| 0 <= t < j ==> (#[trigger] self.map_vec@[t]).0 != k,
            decreases self.map_vec@.len() - j,
        {
            let e = self.map_vec[j];
            if e.0.0 == k.0 && e.0.1 == k.1 {
                return Some(j);
            }
            j += 1;
        }
        None
    }

    /// The desired color currently stored for a coordinate, if tracked.
    pub fn get(&self, k: (usize, usize)) -> (r: Option<Lab>)
        requires
            self.wf(),
        ensures
            r == (if self.as_map().contains_key(k) {
                Some(self.as_map()[k])
            } else {
                None::<Lab>
            }),
    {
        match self.position_of(k) {
            Some(i) => {
                proof {
                    lemma_seq_map_entry(self.map_vec@, i as int);
                }
                Some(self.map_vec[i].1)
            },
            None => {
                proof {
                    lemma_seq_map_absent(self.map_vec@, k);
                }
                None
            },
        }
    }

    pub fn len(&self) -> (r: usize)
        ensures
            r == self.size(),
    {
        self.map_vec.len()
    }

    /// Store or replace the desired color for a coordinate.  When the
    /// coordinate is present, the index entry under the old stored value is
    /// replaced; when absent, both sides gain the entry.
    pub fn upsert(&mut self, k: (usize, usize), v: Lab)
        requires
            old(self).wf(),
            k.0 < 4096,
            k.1 < 4096,
            v.wf(),
        ensures
            final(self).wf(),
            final(self).as_map().contains_key(k),
            final(self).as_map()[k] == v,
            forall|c: (usize, usize)|
                c != k ==> #[trigger] final(self).as_map().contains_key(c) == old(
                    self,
                ).as_map().contains_key(c),
            forall|c: (usize, usize)|
                c != k && old(self).as_map().contains_key(c) ==> #[trigger] final(self).as_map()[c]
                    == old(self).as_map()[c],
            final(self).size() == (if old(self).as_map().contains_key(k) {
                old(self).size()
            } else {
                old(self).size() + 1
            }),
    {
        let ghost s0 = self.map_vec@;
        let packed = coord_to_int(k.0, k.1);
        match self.position_of(k) {
            Some(i) => {
                proof {
                    lemma_seq_map_entry(s0, i as int);
                }
                self.map_vec[i] = (k, v);
                self.idx_vec[i] = (packed, v);
                proof {
                    let s1 = self.map_vec@;
                    assert(s1 == s0.update(i as int, ((k, v))));
                    assert(forall|t: int| 0 <= t < s1.len() && t != i ==> s1[t] == s0[t]);
                    assert(final(self).wf()) by {
                        assert(forall|t: int|
                            0 <= t < s1.len() ==> (#[trigger] s1[t]).0 == s0[t].0);
                    }
                    lemma_seq_map_entry(s1, i as int);
                    assert forall|c: (usize, usize)| c != k implies #[trigger] seq_map(
                        s1,
                    ).contains_key(c) == seq_map(s0).contains_key(c) by {
                        assert(forall|t: int|
                            0 <= t < s1.len() ==> (#[trigger] s1[t]).0 == s0[t].0);
                    }
                    assert forall|c: (usize, usize)|
                        c != k && seq_map(s0).contains_key(c) implies #[trigger] seq_map(s1)[c]
                        == seq_map(s0)[c] by {
                        let wi = choose|t: int| 0 <= t < s0.len() && (#[trigger] s0[t]).0 == c;
                        lemma_seq_map_entry(s0, wi);
                        assert(s1[wi] == s0[wi]);
                        lemma_seq_map_entry(s1, wi);
                    }
                }
            },
            None => {
                self.map_vec.push((k, v));
                self.idx_vec.push((packed, v));
                proof {
                    let s1 = self.map_vec@;
                    assert(s1 == s0.push(((k, v))));
                    assert(forall|t: int| 0 <= t < s0.len() ==> s1[t] == s0[t]);
                    assert(s1[s1.len() - 1] == ((k, v)));
                    assert(final(self).wf());
                    lemma_seq_map_entry(s1, s1.len() - 1);
                    assert forall|c: (usize, usize)| c != k implies #[trigger] seq_map(
                        s1,
                    ).contains_key(c) == seq_map(s0).contains_key(c) by {
                        if seq_map(s1).contains_key(c) {
                            let wi = choose|t: int|
                                0 <= t < s1.len() && (#[trigger] s1[t]).0 == c;
                            assert(wi < s0.len());
                            assert(s0[wi].0 == c);
                        }
                    }
                    assert forall|c: (usize, usize)|
                        c != k && seq_map(s0).contains_key(c) implies #[trigger] seq_map(s1)[c]
                        == seq_map(s0)[c] by {
                        let wi = choose|t: int| 0 <= t < s0.len() && (#[trigger] s0[t]).0 == c;
                        lemma_seq_map_entry(s0, wi);
                        assert(s1[wi] == s0[wi]);
                        lemma_seq_map_entry(s1, wi);
                    }
                    lemma_seq_map_absent(s0, k);
                }
            },
        }
    }

    /// Stop tracking a coordinate; both sides drop its entry, the index
    /// side under the value that was stored for it.  A no-op when the
    /// coordinate is absent.
    pub fn remove(&mut self, k: (usize, usize))
        requires
            old(self).wf(),
        ensures
            final(self).wf(),
            !final(self).as_map().contains_key(k),
            forall|c: (usize, usize)|
                c != k ==> #[trigger] final(self).as_map().contains_key(c) == old(
                    self,
                ).as_map().contains_key(c),
            forall|c: (usize, usize)|
                c != k && old(self).as_map().contains_key(c) ==> #[trigger] final(self).as_map()[c]
                    == old(self).as_map()[c],
            final(self).size() == (if old(self).as_map().contains_key(k) {
                (old(self).size() - 1) as nat
            } else {
                old(self).size()
            }),
    {
        let ghost s0 = self.map_vec@;
        match self.position_of(k) {
            Some(i) => {
                proof {
                    lemma_seq_map_entry(s0, i as int);
                }
                self.map_vec.swap_remove(i);
                self.idx_vec.swap_remove(i);
                proof {
                    let s1 = self.map_vec@;
                    let ghost x0 = old(self).idx_vec@;
                    let x1 = self.idx_vec@;
                    assert(s1 == s0.update(i as int, s0.last()).drop_last());
                    assert(x1 == x0.update(i as int, x0.last()).drop_last());
                    assert(forall|t: int|
                        0 <= t < s1.len() ==> #[trigger] s1[t] == (if t == i {
                            s0[s0.len() - 1]
                        } else {
                            s0[t]
                        }));
                    assert(forall|t: int|
                        0 <= t < x1.len() ==> #[trigger] x1[t] == (if t == i {
                            x0[x0.len() - 1]
                        } else {
                            x0[t]
                        }));
                    assert(final(self).wf()) by {
                        assert forall|t: int, u: int| 0 <= t < u < s1.len() implies (
                        #[trigger] s1[t]).0 != (#[trigger] s1[u]).0 by {
                            assert(s1[t] == (if t == i { s0[s0.len() - 1] } else { s0[t] }));
                            assert(s1[u] == (if u == i { s0[s0.len() - 1] } else { s0[u] }));
                        }
                        assert forall|t: int| 0 <= t < s1.len() implies {
                            &&& (#[trigger] s1[t]).0.0 < 4096
                            &&& s1[t].0.1 < 4096
                            &&& s1[t].1.wf()
                            &&& x1[t].0 == pack_spec(s1[t].0.0 as int, s1[t].0.1 as int)
                            &&& x1[t].1 == s1[t].1
                        } by {
                            assert(s1[t] == (if t == i { s0[s0.len() - 1] } else { s0[t] }));
                            assert(x1[t] == (if t == i { x0[x0.len() - 1] } else { x0[t] }));
                        }
                    }
                    assert forall|t: int| 0 <= t < s1.len() implies (#[trigger] s1[t]).0 != k by {
                        if t == i {
                            assert(s1[t] == s0[s0.len() - 1]);
                            assert(i < s0.len() - 1);
                        }
                    }
                    lemma_seq_map_absent(s1, k);
                    assert forall|c: (usize, usize)| c != k implies #[trigger] seq_map(
                        s1,
                    ).contains_key(c) == seq_map(s0).contains_key(c) by {
                        if seq_map(s1).contains_key(c) {
                            let wi = choose|t: int|
                                0 <= t < s1.len() && (#[trigger] s1[t]).0 == c;
                            if wi == i {
                                assert(s0[s0.len() - 1].0 == c);
                            } else {
                                assert(s0[wi].0 == c);
                            }
                        }
                        if seq_map(s0).contains_key(c) {
                            let wj = choose|t: int|
                                0 <= t < s0.len() && (#[trigger] s0[t]).0 == c;
                            assert(wj != i);
                            if wj == s0.len() - 1 {
                                assert(i < s0.len() - 1);
                                assert(s1[i as int].0 == c);
                            } else {
                                assert(s1[wj].0 == c);
                            }
                        }
                    }
                    assert forall|c: (usize, usize)|
                        c != k && seq_map(s0).contains_key(c) implies #[trigger] seq_map(s1)[c]
                        == seq_map(s0)[c] by {
                        let wj = choose|t: int| 0 <= t < s0.len() && (#[trigger] s0[t]).0 == c;
                        lemma_seq_map_entry(s0, wj);
                        assert(wj != i);
                        if wj == s0.len() - 1 {
                            assert(i < s0.len() - 1);
                            assert(s1[i as int] == s0[wj]);
                            lemma_seq_map_entry(s1, i as int);
                        } else {
                            assert(s1[wj] == s0[wj]);
                            lemma_seq_map_entry(s1, wj);
                        }
                    }
                }
            },
            None => {
                proof {
                    lemma_seq_map_absent(s0, k);
                }
            },
        }
    }

    /// The tracked coordinate whose stored desired color is nearest, by
    /// squared Euclidean distance, to the given target.  Ties go to the
    /// entry that was stored first.
    pub fn query_nearest(&self, target: &Lab) -> (r: (usize, usize))
        requires
            self.wf(),
            self.size() > 0,
            target.wf(),
        ensures
            self.as_map().contains_key(r),
            forall|c: (usize, usize)|
                #[trigger] self.as_map().contains_key(c) ==> dist2_spec(
                    *target,
                    self.as_map()[r],
                ) <= dist2_spec(*target, self.as_map()[c]),
    {
        let e0 = self.idx_vec[0];
        proof {
            assert(self.map_vec@[0].1.wf());
        }
        let mut best_i: usize = 0;
        let mut best_d: u64 = dist2(target, &e0.1);
        let mut j: usize = 1;
        while j < self.idx_vec.len()
            invariant
                self.wf(),
                target.wf(),
                self.idx_vec@.len() > 0,
                1 <= j <= self.idx_vec@.len(),
                best_i < j,
                best_d == dist2_spec(*target, self.idx_vec@[best_i as int].1),
                forall|t: int|
                    0 <= t < j ==> best_d <= dist2_spec(*target, (#[trigger] self.idx_vec@[t]).1),
            decreases self.idx_vec@.len() - j,
        {
            let e = self.idx_vec[j];
            proof {
                assert(self.map_vec@[j as int].1.wf());
            }
            let d = dist2(target, &e.1);
            if d < best_d {
                best_d = d;
                best_i = j;
            }
            j += 1;
        }
        let key = self.idx_vec[best_i].0;
        let rc = int_to_coord(key);
        proof {
            let mk = self.map_vec@[best_i as int].0;
            lemma_pack_round_trip(mk.0 as int, mk.1 as int);
            assert(rc == mk);
            lemma_seq_map_entry(self.map_vec@, best_i as int);
            assert forall|c: (usize, usize)| #[trigger] self.as_map().contains_key(c) implies
                dist2_spec(*target, self.as_map()[rc]) <= dist2_spec(*target, self.as_map()[c]) by {
                let wi = choose|t: int|
                    0 <= t < self.map_vec@.len() && (#[trigger] self.map_vec@[t]).0 == c;
                lemma_seq_map_entry(self.map_vec@, wi);
                assert(self.idx_vec@[wi].1 == self.as_map()[c]);
            }
        }
        rc
    }
}

} // verus!
