//! Classification state of an edge.

use vstd::prelude::*;

verus! {

/// State of an edge in the classification state machine.
///
/// Architecture edges go `Undefined` → `Specified` → `Convergent` or
/// `Absent`; implementation and propagated edges go `Undefined` →
/// `Allowed`, `Divergent` or `Unmapped`.
#[derive(Clone, Copy, Debug, PartialEq, Eq, Hash, Structural)]
pub enum EdgeState {
    Undefined,
    Specified,
    Convergent,
    Divergent,
    Absent,
    Allowed,
    Unmapped,
}

impl EdgeState {
    /// A violation is an edge that is implemented but not specified
    /// (`Divergent`) or specified but not implemented (`Absent`).
    pub open spec fn spec_is_violation(self) -> bool {
        self == EdgeState::Divergent || self == EdgeState::Absent
    }

    #[verifier::when_used_as_spec(spec_is_violation)]
    pub fn is_violation(self) -> (b: bool)
        ensures
            b == self.spec_is_violation(),
    {
        match self {
            EdgeState::Divergent => true,
            EdgeState::Absent => true,
            _ => false,
        }
    }
}

} // verus!
