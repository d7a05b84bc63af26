//! Support for the ordered absence set ("complement") kept by the mex
//! trackers: reading its minimum element, and the counting lemmas that show
//! the set can never run dry.

use std::collections::BTreeSet;
use vstd::prelude::*;
use vstd::set_lib::lemma_len_subset;

verus! {

/// Relies on `BTreeSet::first`: it returns a reference to the minimum element
/// of the set, or `None` exactly when the set is empty.
#[verifier::external_body]
pub(crate) fn set_min(s: &BTreeSet<usize>) -> (r: Option<usize>)
    ensures
        match r {
            Some(v) => s@.contains(v) && (forall|w: usize| s@.contains(w) ==> v <= w),
            None => forall|w: usize| !s@.contains(w),
        },
{
    match s.first() {
        Some(&v) => Some(v),
        None => None,
    }
}

/// The set of machine integers strictly below `n`.
pub open spec fn below(n: nat) -> Set<usize> {
    Set::new(|v: usize| (v as nat) < n)
}

pub proof fn lemma_below_card(n: nat)
    requires
        n <= usize::MAX + 1,
    ensures
        below(n).finite(),
        below(n).len() == n,
    decreases n,
{
    if n == 0 {
        assert(below(0) =~= Set::<usize>::empty());
    } else {
        lemma_below_card((n - 1) as nat);
        assert(below(n) =~= below((n - 1) as nat).insert((n - 1) as usize));
    }
}

/// Pigeonhole: a finite set with at most `n` members misses some value in
/// `0 ..= n`.
pub proof fn lemma_absent_value_below(dom: Set<usize>, n: usize)
    requires
        dom.finite(),
        dom.len() <= n,
    ensures
        exists|v: usize| v <= n && !dom.contains(v),
{
    if forall|v: usize| v <= n ==> #[trigger] dom.contains(v) {
        lemma_below_card(n as nat + 1);
        assert(below(n as nat + 1).subset_of(dom)) by {
            assert forall|v: usize| below(n as nat + 1).contains(v) implies dom.contains(v) by {
                assert(v <= n);
            }
        }
        lemma_len_subset(below(n as nat + 1), dom);
        assert(false);
    }
}

/// A set that holds every value strictly below `r` has at least `r` members.
pub proof fn lemma_range_subset_len(dom: Set<usize>, r: usize)
    requires
        dom.finite(),
        forall|v: usize| v < r ==> #[trigger] dom.contains(v),
    ensures
        r <= dom.len(),
{
    lemma_below_card(r as nat);
    assert(below(r as nat).subset_of(dom));
    lemma_len_subset(below(r as nat), dom);
}

} // verus!
