//! The errors of the library.

use vstd::prelude::*;

verus! {

/// Why an engine refused its input.
#[derive(Debug, Clone, Copy, PartialEq, Eq, Structural)]
pub enum ClusterError {
    /// The point matrix has no rows.
    EmptyInput,
    /// The point matrix has no columns.
    ZeroDimensions,
    /// A cluster count that cannot be met was asked for: a negative one, or
    /// none at all where the count is not searched.
    InvalidCenters,
    /// The rows handed over do not all have the same length.
    RaggedRows,
    /// A matrix of the requested shape, or a label for every point, does
    /// not fit the machine's integers.
    TooLarge,
    /// More clusters were asked for than the tree has leaves.
    TooManyClusters,
    /// A point belongs to none of the clusters it was to be labelled by.
    UnassignedPoint,
}

} // verus!
