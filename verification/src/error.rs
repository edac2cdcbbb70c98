//! The failures a classification call can report.

use vstd::prelude::*;

verus! {

/// Why a call was rejected. No partial result accompanies a failure.
#[derive(Clone, Copy, Debug, PartialEq, Eq, Structural)]
pub enum KnnError {
    /// The shapes of the inputs do not agree with one another.
    DimensionMismatch,
    /// The neighbour count `k` is zero.
    InvalidParameter,
    /// There is no training point to vote.
    EmptyTrainingSet,
}

} // verus!
