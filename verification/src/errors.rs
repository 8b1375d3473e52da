//! Error types shared by the semiring operations and the FST algorithms.

use vstd::prelude::*;

verus! {

/// Failure of a semiring operation.
#[derive(Clone, Copy, Debug, PartialEq, Eq, Structural)]
pub enum SemiringError {
    /// The restricted string plus was applied to two different label strings.
    NonFunctional,
    /// The requested division side is not defined for this semiring.
    UndefinedDivision,
    /// An arithmetic operation does not fit in the carrier type.
    NumericOverflow,
}

/// Failure of an FST operation.
#[derive(Clone, Copy, Debug, PartialEq, Eq, Structural)]
pub enum FstError {
    /// A state identifier does not refer to an existing state.
    InvalidStateId(crate::StateId),
    /// A relabeling pair list mentions the same old label twice.
    DuplicateRelabelPair(crate::Label),
    /// An arc mapper produced non-epsilon labels for a final arc although it
    /// declared that no superfinal state may be created.
    NonEpsilonSuperfinalLabels,
    /// The FST accepts more than one path although a single one was expected.
    NotLinear,
    /// The path enumeration exhausted its search budget.
    EnumerationLimit,
    /// A weight operation failed.
    Weight(SemiringError),
}

} // verus!
