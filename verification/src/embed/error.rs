//! Errors of embedding.

use vstd::prelude::*;

verus! {

#[derive(Clone, Copy, Debug, PartialEq, Eq, Structural)]
#[non_exhaustive]
pub enum Error {
    /// The clip is shorter than one feature frame.
    InvalidClip { len: usize, min: usize },
    /// There is not one voice probability per sample.
    WeightShapeMismatch { samples_len: usize, weights_len: usize },
    /// A voice probability is not a number from zero to one.
    InvalidVoiceProbs,
    /// There is not one mask entry per sample.
    MaskShapeMismatch { samples_len: usize, mask_len: usize },
    /// No window has any voice activity.
    AllSilent,
    /// The frame mask has no active frame.
    EmptyOrInactiveMask,
    /// The chunk does not have the length of a segmentation window.
    ChunkSamplesShapeMismatch { expected: usize, got: usize },
    /// The frame mask does not have the length of a segmentation window.
    FrameMaskShapeMismatch { expected: usize, got: usize },
    /// A sample is NaN or infinite.
    NonFiniteInput,
    /// The norm is zero or nearly so.
    DegenerateEmbedding,
    /// The model returned a wrong number of values.
    InferenceShapeMismatch { expected: usize, got: usize },
    /// The model returned NaN or an infinity.
    NonFiniteOutput,
}

} // verus!
