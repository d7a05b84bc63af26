//! Mex (minimum excludant) tracking under a stream of insertions and removals
//! of non-negative integers.
//!
//! Three independent variants answer the same query — the smallest
//! non-negative integer not currently in the multiset — with different
//! trade-offs:
//!
//! * [`Mex`] handles an unknown, unbounded number of add/remove operations,
//!   growing its ordered absence set by one candidate per operation.
//! * [`MexN`] handles a known, fixed number of operations, pre-populating the
//!   absence set at construction.
//! * [`MexNoDel`] handles insert-only workloads over a bounded universe with a
//!   presence vector and a monotonically advancing cursor.

pub mod bounded;
pub mod complement;
pub mod insert_only;
pub mod unbounded;

pub use bounded::MexN;
pub use insert_only::MexNoDel;
pub use insert_only::OutOfRange;
pub use unbounded::Mex;
