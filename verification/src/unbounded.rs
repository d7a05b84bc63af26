//! Mex tracking when the number of operations is not known in advance.

use std::collections::BTreeSet;
use std::collections::HashMap;
use vstd::prelude::*;

use crate::complement::lemma_absent_value_below;
use crate::complement::set_min;

verus! {

broadcast use
    vstd::std_specs::btree::group_btree_axioms,
    vstd::std_specs::hash::group_hash_axioms,
    vstd::laws_cmp::group_laws_cmp;

/// Tracks the minimum excludant of a multiset under an unbounded stream of
/// insertions and removals.
///
/// The multiplicity of each present value lives in `map`; `complement` is an
/// ordered set of values known to be absent, whose minimum answers `mex`.
/// Every operation lazily extends the tracked range by one fresh candidate
/// (the operation count itself), so the complement grows at the same rate as
/// the operations and never runs dry.
pub struct Mex {
    map: HashMap<usize, usize>,
    complement: BTreeSet<usize>,
    processed: usize,
}

impl Mex {
    /// How many times `v` is currently in the multiset (insertions minus
    /// removals, never below zero).
    pub closed spec fn multiplicity(self, v: usize) -> nat {
        if self.map@.contains_key(v) {
            self.map@[v] as nat
        } else {
            0
        }
    }

    /// Whether `v` is currently in the multiset.
    pub open spec fn contains(self, v: usize) -> bool {
        self.multiplicity(v) > 0
    }

    /// The number of operations (insertions and removals) performed so far.
    pub closed spec fn ops(self) -> nat {
        self.processed as nat
    }

    /// `r` is the smallest non-negative integer whose multiplicity is zero.
    pub open spec fn is_mex(self, r: usize) -> bool {
        &&& !self.contains(r)
        &&& forall|v: usize| v < r ==> self.contains(v)
    }

    /// Internal well-formedness: the complement holds exactly the absent
    /// values of the tracked range `0 ..= processed` (plus possibly larger
    /// values that were removed back out of the multiset), stored
    /// multiplicities are positive, and the multiset cannot hold more
    /// distinct values than operations performed.
    pub closed spec fn wf(self) -> bool {
        &&& forall|v: usize| #[trigger]
            self.complement@.contains(v) ==> !self.map@.contains_key(v)
        &&& forall|v: usize|
            #![trigger self.map@.contains_key(v)]
            #![trigger self.complement@.contains(v)]
            v <= self.processed && !self.map@.contains_key(v) ==> self.complement@.contains(v)
        &&& forall|v: usize| #[trigger]
            self.map@.contains_key(v) ==> 1 <= self.map@[v] <= self.processed
        &&& self.map@.dom().len() <= self.processed
    }

    /// Creates an empty tracker: nothing present, no operation performed yet,
    /// and `0` as the only absence candidate.
    pub fn new() -> (r: Self)
        ensures
            r.wf(),
            r.ops() == 0,
            forall|v: usize| r.multiplicity(v) == 0,
    {
        let mut complement = BTreeSet::new();
        complement.insert(0);
        let r = Mex { map: HashMap::new(), complement, processed: 0 };
        proof {
            assert(r.map@.dom() =~= Set::<usize>::empty());
        }
        r
    }

    /// Inserts `element` into the multiset and counts one operation.
    pub fn add(&mut self, element: usize)
        requires
            old(self).wf(),
            old(self).ops() < usize::MAX,
        ensures
            final(self).wf(),
            final(self).ops() == old(self).ops() + 1,
            final(self).multiplicity(element) == old(self).multiplicity(element) + 1,
            forall|w: usize|
                w != element ==> final(self).multiplicity(w) == old(self).multiplicity(w),
    {
        proof {
            assert(self.map@.dom().finite());
        }
        let count: usize = match self.map.get(&element) {
            Some(c) => *c,
            None => 0,
        };
        self.map.insert(element, count + 1);
        self.complement.remove(&element);
        proof {
            if old(self).map@.contains_key(element) {
                assert(self.map@.dom() =~= old(self).map@.dom());
            } else {
                assert(self.map@.dom() =~= old(self).map@.dom().insert(element));
            }
        }
        self.processed = self.processed + 1;
        if self.map.get(&self.processed).is_none() {
            self.complement.insert(self.processed);
        }
    }

    /// Removes one occurrence of `element` from the multiset, if present, and
    /// counts one operation. Removing an absent value leaves every
    /// multiplicity unchanged: a silent no-op, not an error.
    pub fn remove(&mut self, element: usize)
        requires
            old(self).wf(),
            old(self).ops() < usize::MAX,
        ensures
            final(self).wf(),
            final(self).ops() == old(self).ops() + 1,
            final(self).multiplicity(element) == if old(self).multiplicity(element) > 0 {
                (old(self).multiplicity(element) - 1) as nat
            } else {
                0
            },
            forall|w: usize|
                w != element ==> final(self).multiplicity(w) == old(self).multiplicity(w),
    {
        proof {
            assert(self.map@.dom().finite());
        }
        let found: Option<usize> = match self.map.get(&element) {
            Some(c) => Some(*c),
            None => None,
        };
        match found {
            Some(count) => {
                if count == 1 {
                    self.map.remove(&element);
                    self.complement.insert(element);
                    proof {
                        assert(self.map@.dom() =~= old(self).map@.dom().remove(element));
                    }
                } else {
                    self.map.insert(element, count - 1);
                    proof {
                        assert(self.map@.dom() =~= old(self).map@.dom());
                    }
                }
            },
            None => {},
        }
        self.processed = self.processed + 1;
        if self.map.get(&self.processed).is_none() {
            self.complement.insert(self.processed);
        }
    }

    /// The smallest non-negative integer not currently in the multiset.
    /// It can never exceed the number of operations performed so far.
    pub fn mex(&self) -> (r: usize)
        requires
            self.wf(),
        ensures
            self.is_mex(r),
            r <= self.ops(),
    {
        proof {
            assert(self.map@.dom().finite());
            lemma_absent_value_below(self.map@.dom(), self.processed);
        }
        let m = set_min(&self.complement);
        proof {
            let v = choose|v: usize| v <= self.processed && !self.map@.dom().contains(v);
            assert(!self.map@.contains_key(v));
            assert(self.complement@.contains(v));
            assert(m.is_some());
            let r = m->Some_0;
            assert(!self.map@.contains_key(r));
            assert(r <= v);
            assert forall|w: usize| w < r implies self.contains(w) by {
                if !self.map@.contains_key(w) {
                    assert(w <= self.processed);
                    assert(self.complement@.contains(w));
                    assert(r <= w);
                }
            }
        }
        m.unwrap()
    }
}

/// Law: removing an already-absent value never changes the mex. The requires
/// clauses restate what `remove` ensures when the removed value had
/// multiplicity zero: every multiplicity is unchanged, so any valid mex
/// answer for the state before the removal is still valid after it.
pub proof fn lemma_remove_absent_preserves_mex(pre: Mex, post: Mex, element: usize, r: usize)
    requires
        pre.multiplicity(element) == 0,
        post.multiplicity(element) == 0,
        forall|w: usize| w != element ==> post.multiplicity(w) == pre.multiplicity(w),
        pre.is_mex(r),
    ensures
        post.is_mex(r),
{
    assert forall|w: usize| w < r implies post.contains(w) by {
        assert(pre.contains(w));
        assert(post.multiplicity(w) == pre.multiplicity(w));
    }
}

/// Law: inserting a value and then removing it restores every multiplicity to
/// its pre-insertion state, so the mex returns to its pre-insertion value.
/// `s1` is the state after `add(v)` on `s0`, and `s2` the state after
/// `remove(v)` on `s1`, with no operation in between; the requires clauses
/// restate the two operations' contracts.
pub proof fn lemma_add_remove_round_trip(s0: Mex, s1: Mex, s2: Mex, v: usize, r0: usize, r2: usize)
    requires
        s1.multiplicity(v) == s0.multiplicity(v) + 1,
        forall|w: usize| w != v ==> s1.multiplicity(w) == s0.multiplicity(w),
        s2.multiplicity(v) == if s1.multiplicity(v) > 0 {
            (s1.multiplicity(v) - 1) as nat
        } else {
            0
        },
        forall|w: usize| w != v ==> s2.multiplicity(w) == s1.multiplicity(w),
        s0.is_mex(r0),
        s2.is_mex(r2),
    ensures
        r2 == r0,
{
    assert(forall|w: usize| s2.multiplicity(w) == s0.multiplicity(w));
    if r0 < r2 {
        assert(s2.contains(r0));
        assert(false);
    }
    if r2 < r0 {
        assert(s0.contains(r2));
        assert(false);
    }
}

} // verus!
