//! Why centroids could not be computed.

use vstd::prelude::*;
use crate::float::Double;

verus! {

/// Errors of the weighted centroids.
#[derive(Clone, Copy, Debug, PartialEq, Eq, Structural)]
pub enum Error {
    /// Shapes or settings are invalid.
    Shape(ShapeError),
    /// A value is not finite.
    NonFinite(NonFiniteField),
    /// A speaker's prior is too close to the threshold to decide.
    AmbiguousAliveCluster {
        cluster: usize,
        value: Double,
        threshold: Double,
        lo: Double,
        hi: Double,
    },
}

/// The individual shape violations.
#[derive(Clone, Copy, Debug, PartialEq, Eq, Structural)]
pub enum ShapeError {
    EmptyQ,
    ZeroQClusters,
    SpQClusterMismatch,
    EmbeddingsQRowMismatch,
    ZeroEmbeddingDim,
    EmbeddingsLenOverflow,
    EmbeddingsLenMismatch,
    NonFiniteSpThreshold,
    NoSurvivingClusters,
    NonPositiveTotalWeight,
}

/// The value that is not finite.
#[derive(Clone, Copy, Debug, PartialEq, Eq, Structural)]
pub enum NonFiniteField {
    Q,
    Sp,
    Embeddings,
}

} // verus!
