//! Mex tracking when the number of operations is known in advance.

use std::collections::BTreeSet;
use std::collections::HashMap;
use vstd::prelude::*;

use crate::complement::lemma_range_subset_len;
use crate::complement::set_min;

verus! {

broadcast use
    vstd::std_specs::btree::group_btree_axioms,
    vstd::std_specs::hash::group_hash_axioms,
    vstd::laws_cmp::group_laws_cmp;

/// Tracks the minimum excludant of a multiset when the caller knows a bound
/// `n_queries` on the number of operations it will perform.
///
/// Instead of extending the absence set lazily, the constructor pre-populates
/// it with every value in `[0, n_queries)`; `add` and `remove` then only have
/// to maintain the multiplicity map and the complement. Values at or above
/// the bound never enter the complement at construction, so the reported mex
/// stays below the bound; the caller is responsible for sizing the bound to
/// its workload.
pub struct MexN {
    map: HashMap<usize, usize>,
    complement: BTreeSet<usize>,
    bound: Ghost<usize>,
}

impl MexN {
    /// How many times `v` is currently in the multiset (insertions minus
    /// removals, never below zero).
    pub closed spec fn multiplicity(self, v: usize) -> nat {
        if self.map@.contains_key(v) {
            self.map@[v] as nat
        } else {
            0
        }
    }

    /// Whether `v` is currently in the multiset.
    pub open spec fn contains(self, v: usize) -> bool {
        self.multiplicity(v) > 0
    }

    /// The operation bound the tracker was constructed with.
    pub closed spec fn universe(self) -> usize {
        self.bound@
    }

    /// The number of distinct values currently in the multiset.
    pub closed spec fn occupied(self) -> nat {
        self.map@.dom().len()
    }

    /// `r` is the smallest non-negative integer whose multiplicity is zero.
    pub open spec fn is_mex(self, r: usize) -> bool {
        &&& !self.contains(r)
        &&& forall|v: usize| v < r ==> self.contains(v)
    }

    /// Internal well-formedness: every complement member is absent from the
    /// multiset, every absent value below the bound is in the complement, and
    /// stored multiplicities are positive.
    pub closed spec fn wf(self) -> bool {
        &&& forall|v: usize| #[trigger]
            self.complement@.contains(v) ==> !self.map@.contains_key(v)
        &&& forall|v: usize|
            #![trigger self.map@.contains_key(v)]
            #![trigger self.complement@.contains(v)]
            v < self.bound@ && !self.map@.contains_key(v) ==> self.complement@.contains(v)
        &&& forall|v: usize| #[trigger] self.map@.contains_key(v) ==> 1 <= self.map@[v]
    }

    /// Creates an empty tracker for at most `n_queries` operations: nothing
    /// present, every value in `[0, n_queries)` an absence candidate.
    pub fn new(n_queries: usize) -> (r: Self)
        ensures
            r.wf(),
            r.universe() == n_queries,
            r.occupied() == 0,
            forall|v: usize| r.multiplicity(v) == 0,
    {
        let mut complement: BTreeSet<usize> = BTreeSet::new();
        let mut i: usize = 0;
        while i < n_queries
            invariant
                i <= n_queries,
                forall|v: usize| #[trigger] complement@.contains(v) <==> v < i,
            decreases n_queries - i,
        {
            complement.insert(i);
            i = i + 1;
        }
        let r = MexN { map: HashMap::new(), complement, bound: Ghost(n_queries) };
        proof {
            assert(r.map@.dom() =~= Set::<usize>::empty());
        }
        r
    }

    /// Inserts `element` into the multiset.
    pub fn add(&mut self, element: usize)
        requires
            old(self).wf(),
            old(self).multiplicity(element) < usize::MAX,
        ensures
            final(self).wf(),
            final(self).universe() == old(self).universe(),
            final(self).occupied() <= old(self).occupied() + 1,
            final(self).multiplicity(element) == old(self).multiplicity(element) + 1,
            forall|w: usize|
                w != element ==> final(self).multiplicity(w) == old(self).multiplicity(w),
    {
        proof {
            assert(self.map@.dom().finite());
        }
        let count: usize = match self.map.get(&element) {
            Some(c) => *c,
            None => 0,
        };
        self.map.insert(element, count + 1);
        self.complement.remove(&element);
        proof {
            if old(self).map@.contains_key(element) {
                assert(self.map@.dom() =~= old(self).map@.dom());
            } else {
                assert(self.map@.dom() =~= old(self).map@.dom().insert(element));
            }
        }
    }

    /// Removes one occurrence of `element` from the multiset, if present.
    /// Removing an absent value leaves every multiplicity unchanged: a silent
    /// no-op, not an error.
    pub fn remove(&mut self, element: usize)
        requires
            old(self).wf(),
        ensures
            final(self).wf(),
            final(self).universe() == old(self).universe(),
            final(self).occupied() <= old(self).occupied(),
            final(self).multiplicity(element) == if old(self).multiplicity(element) > 0 {
                (old(self).multiplicity(element) - 1) as nat
            } else {
                0
            },
            forall|w: usize|
                w != element ==> final(self).multiplicity(w) == old(self).multiplicity(w),
    {
        proof {
            assert(self.map@.dom().finite());
        }
        let found: Option<usize> = match self.map.get(&element) {
            Some(c) => Some(*c),
            None => None,
        };
        match found {
            Some(count) => {
                if count == 1 {
                    self.map.remove(&element);
                    self.complement.insert(element);
                    proof {
                        assert(self.map@.dom() =~= old(self).map@.dom().remove(element));
                    }
                } else {
                    self.map.insert(element, count - 1);
                    proof {
                        assert(self.map@.dom() =~= old(self).map@.dom());
                    }
                }
            },
            None => {},
        }
    }

    /// The smallest non-negative integer not currently in the multiset,
    /// provided some value below the bound is still absent. (With every value
    /// below the bound present the complement is empty and there is nothing
    /// to report; the caller keeps within the declared operation count to
    /// avoid that.)
    pub fn mex(&self) -> (r: usize)
        requires
            self.wf(),
            exists|v: usize| v < self.universe() && !self.contains(v),
        ensures
            self.is_mex(r),
            r < self.universe(),
    {
        let m = set_min(&self.complement);
        proof {
            let v = choose|v: usize| v < self.universe() && !self.contains(v);
            assert(!self.map@.contains_key(v));
            assert(self.complement@.contains(v));
            assert(m.is_some());
            let r = m->Some_0;
            assert(!self.map@.contains_key(r));
            assert forall|w: usize| w < r implies self.contains(w) by {
                if !self.map@.contains_key(w) {
                    assert(w < self.universe());
                    assert(self.complement@.contains(w));
                    assert(r <= w);
                }
            }
        }
        m.unwrap()
    }
}

/// Law: the mex can never exceed the number of distinct values currently in
/// the multiset — with only `occupied()` values present, some value in
/// `0 ..= occupied()` is absent. Together with the `occupied()` bounds that
/// `new`, `add` and `remove` ensure, the mex after `k` operations is at most
/// `k`.
pub proof fn lemma_mex_le_occupied(s: MexN, r: usize)
    requires
        s.wf(),
        s.is_mex(r),
    ensures
        r <= s.occupied(),
{
    assert(s.map@.dom().finite());
    assert forall|v: usize| v < r implies #[trigger] s.map@.dom().contains(v) by {
        assert(s.contains(v));
    }
    lemma_range_subset_len(s.map@.dom(), r);
}

/// Law: removing an already-absent value never changes the mex. The requires
/// clauses restate what `remove` ensures when the removed value had
/// multiplicity zero: every multiplicity is unchanged, so any valid mex
/// answer for the state before the removal is still valid after it.
pub proof fn lemma_remove_absent_preserves_mex(pre: MexN, post: MexN, element: usize, r: usize)
    requires
        pre.multiplicity(element) == 0,
        post.multiplicity(element) == 0,
        forall|w: usize| w != element ==> post.multiplicity(w) == pre.multiplicity(w),
        pre.is_mex(r),
    ensures
        post.is_mex(r),
{
    assert forall|w: usize| w < r implies post.contains(w) by {
        assert(pre.contains(w));
        assert(post.multiplicity(w) == pre.multiplicity(w));
    }
}

/// Law: inserting a value and then removing it restores every multiplicity to
/// its pre-insertion state, so the mex returns to its pre-insertion value.
/// `s1` is the state after `add(v)` on `s0`, and `s2` the state after
/// `remove(v)` on `s1`, with no operation in between; the requires clauses
/// restate the two operations' contracts.
pub proof fn lemma_add_remove_round_trip(s0: MexN, s1: MexN, s2: MexN, v: usize, r0: usize, r2: usize)
    requires
        s1.multiplicity(v) == s0.multiplicity(v) + 1,
        forall|w: usize| w != v ==> s1.multiplicity(w) == s0.multiplicity(w),
        s2.multiplicity(v) == if s1.multiplicity(v) > 0 {
            (s1.multiplicity(v) - 1) as nat
        } else {
            0
        },
        forall|w: usize| w != v ==> s2.multiplicity(w) == s1.multiplicity(w),
        s0.is_mex(r0),
        s2.is_mex(r2),
    ensures
        r2 == r0,
{
    assert(forall|w: usize| s2.multiplicity(w) == s0.multiplicity(w));
    if r0 < r2 {
        assert(s2.contains(r0));
        assert(false);
    }
    if r2 < r0 {
        assert(s0.contains(r2));
        assert(false);
    }
}

} // verus!
