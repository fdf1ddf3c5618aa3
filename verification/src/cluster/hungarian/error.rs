//! Why an assignment was refused.

use vstd::prelude::*;
use crate::float::Double;

verus! {

/// Errors of the assignment functions.
#[derive(Clone, Copy, Debug, PartialEq, Eq, Structural)]
pub enum Error {
    /// The input shape is invalid.
    Shape(ShapeError),
    /// A cost is not usable as a weight.
    NonFinite(NonFiniteError),
}

/// The individual shape violations.
#[derive(Clone, Copy, Debug, PartialEq, Eq, Structural)]
pub enum ShapeError {
    /// There is no chunk, or a cost matrix has an empty side.
    EmptyChunks,
    ZeroSpeakers,
    ZeroClusters,
    /// The chunks differ in shape, or a matrix in size.
    InconsistentChunkShape,
}

/// The individual weight violations.
#[derive(Clone, Copy, Debug, PartialEq, Eq, Structural)]
pub enum NonFiniteError {
    /// An infinite cost, or any cost that is not finite where NaN is not
    /// replaced.
    InfInSoftClusters,
    /// No finite cost to stand in for NaN.
    NoFiniteEntries,
    /// A finite cost beyond the accepted magnitude.
    WeightOutOfBounds { value: Double, max: Double },
}

} // verus!
