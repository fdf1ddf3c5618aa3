//! Why the initial clustering was refused.

use vstd::prelude::*;

verus! {

/// Errors of the initial clustering.
#[derive(Clone, Copy, Debug, PartialEq, Eq, Structural)]
pub enum Error {
    /// Shapes or settings are invalid.
    Shape(ShapeError),
    /// A value is not finite.
    NonFinite(NonFiniteField),
}

/// The individual shape violations.
#[derive(Clone, Copy, Debug, PartialEq, Eq, Structural)]
pub enum ShapeError {
    EmptyEmbeddings,
    ZeroEmbeddingDim,
    EmbeddingsSizeOverflow,
    EmbeddingsLenMismatch,
    /// The threshold is not positive and finite.
    InvalidThreshold,
    /// A row's squared norm overflows.
    RowNormOverflow,
    /// A row has no direction.
    ZeroNormRow,
}

/// The value that is not finite.
#[derive(Clone, Copy, Debug, PartialEq, Eq, Structural)]
pub enum NonFiniteField {
    Embeddings,
}

} // verus!
