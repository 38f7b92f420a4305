//! The error type shared by every entry point of the library.

use vstd::prelude::*;

verus! {

/// Why a request was refused.
#[derive(Debug, Clone, Copy, PartialEq, Eq)]
pub enum RslabError {
    /// A vector or matrix has the wrong size.
    DimensionMismatch { expected: usize, got: usize },
    /// The input breaks a documented requirement.
    InvalidInput(&'static str),
    /// No value assignment of this pattern is nonsingular.
    StructurallySingular,
    /// The pivot of this original column is zero or not finite.
    SingularBasis { column: usize },
    /// A supernode received more delayed columns than its budget admits.
    DelayBudgetExceeded { supernode: usize, required: usize, capacity: usize },
    /// A diagonal pivot vanished in a matrix declared quasi-definite.
    SqdContractViolated,
    /// The caller's cancellation flag was raised.
    Interrupted,
}

} // verus!
