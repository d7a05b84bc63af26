//! Mex tracking for insert-only workloads over a bounded universe.

use vstd::prelude::*;

verus! {

/// Error returned when a value outside the declared universe is inserted.
#[derive(Clone, Copy, PartialEq, Eq, Structural, Debug)]
pub struct OutOfRange;

/// Tracks the minimum excludant of a set of values in `[0, n]` under
/// insertions only.
///
/// A presence vector of length `n + 1` marks each value with `1` once it has
/// been inserted, and the public `mex` cursor holds the current mex. Since
/// nothing is ever removed, the cursor only moves forward: an insertion at
/// the cursor position advances it through the present prefix, stopping at
/// the first absent slot or at the end of the vector. Total cursor movement
/// over a whole run is at most `n + 1`.
pub struct MexNoDel {
    vec: Vec<usize>,
    /// The current mex: the smallest value not inserted so far.
    pub mex: usize,
}

impl MexNoDel {
    /// The position of the public `mex` cursor.
    pub closed spec fn cursor(self) -> usize {
        self.mex
    }

    /// The largest value the tracker accepts.
    pub closed spec fn universe(self) -> nat {
        (self.vec.len() - 1) as nat
    }

    /// Whether `v` has been inserted so far.
    pub closed spec fn contains(self, v: usize) -> bool {
        v < self.vec.len() && self.vec[v as int] == 1
    }

    /// `r` is the smallest non-negative integer not inserted so far.
    pub open spec fn is_mex(self, r: usize) -> bool {
        &&& !self.contains(r)
        &&& forall|v: usize| v < r ==> self.contains(v)
    }

    /// Internal well-formedness: the cursor sits just past the fully present
    /// prefix, at the first absent slot or at the end of the vector.
    pub closed spec fn wf(self) -> bool {
        &&& self.vec.len() >= 1
        &&& self.mex <= self.vec.len()
        &&& forall|i: int| 0 <= i < self.mex ==> self.vec[i] == 1
        &&& self.mex < self.vec.len() ==> self.vec[self.mex as int] != 1
    }

    /// Creates an empty tracker over the universe `[0, n]`: nothing inserted,
    /// mex `0`.
    pub fn new(n: usize) -> (r: Self)
        requires
            n < usize::MAX,
        ensures
            r.wf(),
            r.universe() == n,
            r.cursor() == 0,
            forall|v: usize| !r.contains(v),
    {
        let mut vec: Vec<usize> = Vec::new();
        let mut i: usize = 0;
        while i < n + 1
            invariant
                n < usize::MAX,
                i <= n + 1,
                vec.len() == i,
                forall|j: int| 0 <= j < i ==> vec[j] == 0,
            decreases n + 1 - i,
        {
            vec.push(0);
            i = i + 1;
        }
        MexNoDel { vec, mex: 0 }
    }

    /// Inserts `element`, if it lies in the universe, and advances the mex
    /// cursor past the present prefix; the cursor never moves backwards.
    /// Inserting a value above the universe changes nothing and reports a
    /// range error, distinct from the silent no-op of re-inserting a value
    /// already present.
    pub fn add(&mut self, element: usize) -> (r: Result<(), OutOfRange>)
        requires
            old(self).wf(),
        ensures
            final(self).wf(),
            final(self).universe() == old(self).universe(),
            r is Ok <==> element <= old(self).universe(),
            r is Ok ==> final(self).contains(element),
            r is Ok ==> forall|w: usize|
                w != element ==> final(self).contains(w) == old(self).contains(w),
            r is Err ==> *final(self) == *old(self),
            final(self).cursor() >= old(self).cursor(),
            final(self).is_mex(final(self).cursor()),
    {
        proof {
            lemma_cursor_is_mex(*self);
        }
        if element >= self.vec.len() {
            return Err(OutOfRange);
        }
        self.vec.set(element, 1);
        if element == self.mex {
            while self.mex < self.vec.len() && self.vec[self.mex] == 1
                invariant
                    self.mex <= self.vec.len(),
                    self.vec@ == old(self).vec@.update(element as int, 1usize),
                    forall|i: int| 0 <= i < self.mex ==> self.vec[i] == 1,
                    self.mex >= old(self).mex,
                decreases self.vec.len() - self.mex,
            {
                self.mex = self.mex + 1;
            }
        }
        proof {
            lemma_cursor_is_mex(*self);
        }
        Ok(())
    }
}

/// Law: for a well-formed tracker the public cursor is exactly the mex — the
/// prefix below it is fully present and the cursor's own slot (or the whole
/// universe, when the cursor sits past its end) is absent.
pub proof fn lemma_cursor_is_mex(s: MexNoDel)
    requires
        s.wf(),
    ensures
        s.is_mex(s.cursor()),
{
}

} // verus!
