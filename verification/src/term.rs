use vstd::prelude::*;

verus! {

/// A Raft term: a logical clock that only moves forward.
///
/// Terms are ordered by their number.
#[derive(Debug, Hash, PartialEq, Eq, Structural, Copy, Clone, PartialOrd, Ord)]
pub struct Term(pub u64);

impl Term {
    /// The term before any election has happened.
    pub fn zero() -> (t: Term)
        ensures
            t.0 == 0,
    {
        Term(0)
    }

    /// The next term.
    pub fn increment(self) -> (next: Term)
        requires
            self.0 < u64::MAX,
        ensures
            next.0 == self.0 + 1,
    {
        Term(self.0 + 1)
    }
}

} // verus!
