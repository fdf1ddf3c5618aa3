//! Errors of offline clustering.

use vstd::prelude::*;
use crate::float::Single;

verus! {

#[derive(Clone, Copy, Debug, PartialEq, Eq, Structural)]
pub enum Error {
    /// There is nothing to cluster.
    EmptyInput,
    /// More speakers are asked for than there are embeddings.
    TargetExceedsInput { target: u32, n: usize },
    /// No speaker is asked for.
    TargetTooSmall,
    /// A component is NaN or infinite.
    NonFiniteInput,
    /// The norm of an embedding is zero or nearly so.
    DegenerateEmbedding,
    /// Some embedding has no similarity to any other.
    AllDissimilar,
    /// An eigenvalue is NaN or infinite.
    EigendecompositionFailed,
    /// The threshold is not a number from -1 to 1.
    InvalidSimilarityThreshold(Single),
    /// There are more embeddings than a dense method can take.
    InputTooLarge { n: usize, limit: usize },
}

} // verus!
