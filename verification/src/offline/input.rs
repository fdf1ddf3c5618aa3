//! Input, output and errors of offline diarization.

use std::sync::Arc;
use vstd::prelude::*;
use crate::cluster::hungarian::layout::ChunkAssignment;
use crate::embed::options::EMBEDDING_DIM;
use crate::float::{Double, Single};
use crate::window::SlidingWindow;

verus! {

/// The largest instantaneous speaker count accepted.
pub const MAX_COUNT_PER_FRAME: u8 = 64;

/// Why an offline run failed: `P`, `A` and `R` are the errors of the projection,
/// assignment and reconstruction stages.
#[derive(Clone, Copy, Debug)]
pub enum Error<P, A, R> {
    /// Input shape or configuration is invalid.
    Shape(ShapeError),
    /// The assignment stage failed.
    Pipeline(A),
    /// Counts are invalid, or the reconstruction stage failed.
    Reconstruct(ReconstructError<R>),
    /// The projection of a raw embedding failed.
    Plda(P),
}

/// Errors of the reconstruction.
#[derive(Clone, Copy, Debug)]
pub enum ReconstructError<R> {
    /// The count tensor is invalid.
    Shape(ReconstructShapeError),
    /// The stage itself failed.
    Stage(R),
}

/// What can be wrong with the counts.
#[derive(Clone, Copy, Debug, PartialEq, Eq, Structural)]
pub enum ReconstructShapeError {
    ZeroNumOutputFrames,
    CountLenMismatch,
    /// A count above [`MAX_COUNT_PER_FRAME`].
    CountAboveMax,
}

/// What can be wrong with shapes and settings.
#[derive(Clone, Copy, Debug, PartialEq, Eq, Structural)]
pub enum ShapeError {
    ZeroNumChunks,
    ZeroNumSpeakers,
    ZeroNumFramesPerChunk,
    RawEmbeddingsOverflow,
    RawEmbeddingsLenMismatch,
    SegmentationsOverflow,
    SegmentationsLenMismatch,
    EmptySamples,
    ZeroStepSamples,
    /// Steps longer than the window would skip samples.
    StepSamplesExceedsWindow { step: u32, window: u32 },
    /// The onset must be finite, above 0 and at most 1.
    OnsetOutOfRange { onset: Single },
    /// Must be finite and not negative.
    MinDurationOffOutOfRange { value: Double },
    /// Must be absent, or finite and not negative.
    SmoothingEpsilonOutOfRange { value: Option<Single> },
}

/// A finite number of seconds, not negative.
pub open spec fn is_duration(v: Double) -> bool {
    v.finite() && Double::zero_spec().at_most(v)
}

/// No smoothing, or a finite epsilon that is not negative.
pub open spec fn is_epsilon(v: Option<Single>) -> bool {
    match v {
        None => true,
        Some(x) => x.finite() && Single::zero_spec().at_most(x),
    }
}

/// Whether `v` is a usable merge gap.
pub fn check_min_duration_off(v: Double) -> (r: bool)
    ensures
        r == is_duration(v),
{
    v.is_finite() && v.ge(Double::zero())
}

/// Whether `v` is a usable smoothing setting.
pub fn check_smoothing_epsilon(v: Option<Single>) -> (r: bool)
    ensures
        r == is_epsilon(v),
{
    match v {
        None => true,
        Some(x) => x.is_finite() && x.ge(Single::zero()),
    }
}

/// What an offline run works on.
#[derive(Clone, Copy, Debug)]
pub struct OfflineInput<'a> {
    /// Raw embeddings, `[chunk][speaker][component]`.
    pub raw_embeddings: &'a [Single],
    pub num_chunks: usize,
    /// Speaker slots per chunk.
    pub num_speakers: usize,
    /// Activity scores, `[chunk][frame][speaker]`.
    pub segmentations: &'a [Double],
    pub num_frames_per_chunk: usize,
    /// Speaker count per output frame.
    pub count: &'a [u8],
    pub num_output_frames: usize,
    pub chunks_sw: SlidingWindow,
    pub frames_sw: SlidingWindow,
    /// Linkage threshold of the initial clustering.
    pub threshold: Double,
    pub fa: Double,
    pub fb: Double,
    pub max_iters: usize,
    /// Gaps of a speaker up to this many seconds are merged.
    pub min_duration_off: Double,
    /// Temporal smoothing of the reconstruction.
    pub smoothing_epsilon: Option<Single>,
}

impl<'a> OfflineInput<'a> {
    /// An input with the default settings: threshold 0.6, Fa 0.07, Fb 0.8, 20
    /// iterations, no merging, no smoothing.
    pub fn new(
        raw_embeddings: &'a [Single],
        num_chunks: usize,
        num_speakers: usize,
        segmentations: &'a [Double],
        num_frames_per_chunk: usize,
        count: &'a [u8],
        num_output_frames: usize,
        chunks_sw: SlidingWindow,
        frames_sw: SlidingWindow,
    ) -> (r: OfflineInput<'a>)
        ensures
            r == (OfflineInput {
                raw_embeddings,
                num_chunks,
                num_speakers,
                segmentations,
                num_frames_per_chunk,
                count,
                num_output_frames,
                chunks_sw,
                frames_sw,
                threshold: Double { bits: 0x3fe3_3333_3333_3333 },
                fa: Double { bits: 0x3fb1_eb85_1eb8_51ec },
                fb: Double { bits: 0x3fe9_9999_9999_999a },
                max_iters: 20,
                min_duration_off: Double { bits: 0 },
                smoothing_epsilon: None,
            }),
    {
        OfflineInput {
            raw_embeddings,
            num_chunks,
            num_speakers,
            segmentations,
            num_frames_per_chunk,
            count,
            num_output_frames,
            chunks_sw,
            frames_sw,
            threshold: Double { bits: 0x3fe3_3333_3333_3333 },
            fa: Double { bits: 0x3fb1_eb85_1eb8_51ec },
            fb: Double { bits: 0x3fe9_9999_9999_999a },
            max_iters: 20,
            min_duration_off: Double { bits: 0 },
            smoothing_epsilon: None,
        }
    }

    /// Sets the linkage threshold.
    #[must_use]
    pub fn with_threshold(self, threshold: Double) -> (r: OfflineInput<'a>)
        ensures
            r == (OfflineInput { threshold, ..self }),
    {
        OfflineInput { threshold, ..self }
    }

    /// Sets Fa.
    #[must_use]
    pub fn with_fa(self, fa: Double) -> (r: OfflineInput<'a>)
        ensures
            r == (OfflineInput { fa, ..self }),
    {
        OfflineInput { fa, ..self }
    }

    /// Sets Fb.
    #[must_use]
    pub fn with_fb(self, fb: Double) -> (r: OfflineInput<'a>)
        ensures
            r == (OfflineInput { fb, ..self }),
    {
        OfflineInput { fb, ..self }
    }

    /// Sets the cap on iterations.
    #[must_use]
    pub fn with_max_iters(self, max_iters: usize) -> (r: OfflineInput<'a>)
        ensures
            r == (OfflineInput { max_iters, ..self }),
    {
        OfflineInput { max_iters, ..self }
    }

    /// Sets the merge gap.
    #[must_use]
    pub fn with_min_duration_off(self, min_duration_off: Double) -> (r: OfflineInput<'a>)
        requires
            is_duration(min_duration_off),
        ensures
            r == (OfflineInput { min_duration_off, ..self }),
    {
        OfflineInput { min_duration_off, ..self }
    }

    /// Sets the smoothing.
    #[must_use]
    pub fn with_smoothing_epsilon(self, smoothing_epsilon: Option<Single>) -> (r: OfflineInput<'a>)
        requires
            is_epsilon(smoothing_epsilon),
        ensures
            r == (OfflineInput { smoothing_epsilon, ..self }),
    {
        OfflineInput { smoothing_epsilon, ..self }
    }

    pub fn raw_embeddings(&self) -> (r: &'a [Single])
        ensures
            r == self.raw_embeddings,
    {
        self.raw_embeddings
    }

    pub fn num_chunks(&self) -> (r: usize)
        ensures
            r == self.num_chunks,
    {
        self.num_chunks
    }

    pub fn num_speakers(&self) -> (r: usize)
        ensures
            r == self.num_speakers,
    {
        self.num_speakers
    }

    pub fn segmentations(&self) -> (r: &'a [Double])
        ensures
            r == self.segmentations,
    {
        self.segmentations
    }

    pub fn num_frames_per_chunk(&self) -> (r: usize)
        ensures
            r == self.num_frames_per_chunk,
    {
        self.num_frames_per_chunk
    }

    pub fn count(&self) -> (r: &'a [u8])
        ensures
            r == self.count,
    {
        self.count
    }

    pub fn num_output_frames(&self) -> (r: usize)
        ensures
            r == self.num_output_frames,
    {
        self.num_output_frames
    }

    pub fn chunks_sw(&self) -> (r: SlidingWindow)
        ensures
            r == self.chunks_sw,
    {
        self.chunks_sw
    }

    pub fn frames_sw(&self) -> (r: SlidingWindow)
        ensures
            r == self.frames_sw,
    {
        self.frames_sw
    }

    pub fn threshold(&self) -> (r: Double)
        ensures
            r == self.threshold,
    {
        self.threshold
    }

    pub fn fa(&self) -> (r: Double)
        ensures
            r == self.fa,
    {
        self.fa
    }

    pub fn fb(&self) -> (r: Double)
        ensures
            r == self.fb,
    {
        self.fb
    }

    pub fn max_iters(&self) -> (r: usize)
        ensures
            r == self.max_iters,
    {
        self.max_iters
    }

    pub fn min_duration_off(&self) -> (r: Double)
        ensures
            r == self.min_duration_off,
    {
        self.min_duration_off
    }

    pub fn smoothing_epsilon(&self) -> (r: Option<Single>)
        ensures
            r == self.smoothing_epsilon,
    {
        self.smoothing_epsilon
    }
}

/// What an offline run gives; the slices are shared. `S` is the type of spans.
#[derive(Clone, Debug)]
pub struct OfflineOutput<S> {
    hard_clusters: Arc<[ChunkAssignment]>,
    discrete_diarization: Arc<[Single]>,
    num_clusters: usize,
    spans: Arc<[S]>,
}

impl<S> OfflineOutput<S> {
    /// The labels of each chunk.
    pub closed spec fn labels(self) -> Seq<ChunkAssignment> {
        self.hard_clusters@
    }

    /// The binary frame grid, `[frame][cluster]`.
    pub closed spec fn grid(self) -> Seq<Single> {
        self.discrete_diarization@
    }

    /// Number of columns of the grid.
    pub closed spec fn clusters(self) -> nat {
        self.num_clusters as nat
    }

    /// The spans found.
    pub closed spec fn span_seq(self) -> Seq<S> {
        self.spans@
    }

    pub fn new(
        hard_clusters: Arc<[ChunkAssignment]>,
        discrete_diarization: Arc<[Single]>,
        num_clusters: usize,
        spans: Arc<[S]>,
    ) -> (r: OfflineOutput<S>)
        ensures
            r.labels() == hard_clusters@,
            r.grid() == discrete_diarization@,
            r.clusters() == num_clusters,
            r.span_seq() == spans@,
    {
        OfflineOutput { hard_clusters, discrete_diarization, num_clusters, spans }
    }

    /// A shared handle on the labels of each chunk.
    pub fn hard_clusters(&self) -> (r: Arc<[ChunkAssignment]>)
        ensures
            r@ == self.labels(),
    {
        Arc::clone(&self.hard_clusters)
    }

    /// The labels of each chunk.
    pub fn hard_clusters_slice(&self) -> (r: &[ChunkAssignment])
        ensures
            r@ == self.labels(),
    {
        &self.hard_clusters
    }

    /// A shared handle on the binary frame grid.
    pub fn discrete_diarization(&self) -> (r: Arc<[Single]>)
        ensures
            r@ == self.grid(),
    {
        Arc::clone(&self.discrete_diarization)
    }

    /// The binary frame grid.
    pub fn discrete_diarization_slice(&self) -> (r: &[Single])
        ensures
            r@ == self.grid(),
    {
        &self.discrete_diarization
    }

    /// Number of clusters in the grid.
    pub fn num_clusters(&self) -> (r: usize)
        ensures
            r == self.clusters(),
    {
        self.num_clusters
    }

    /// A shared handle on the spans.
    pub fn spans(&self) -> (r: Arc<[S]>)
        ensures
            r@ == self.span_seq(),
    {
        Arc::clone(&self.spans)
    }

    /// The spans.
    pub fn spans_slice(&self) -> (r: &[S])
        ensures
            r@ == self.span_seq(),
    {
        &self.spans
    }
}

/// The first check that an offline input fails, if any.
pub open spec fn input_error<P, A, R>(input: OfflineInput) -> Option<Error<P, A, R>> {
    if input.num_chunks == 0 {
        Some(Error::Shape(ShapeError::ZeroNumChunks))
    } else if input.num_speakers == 0 {
        Some(Error::Shape(ShapeError::ZeroNumSpeakers))
    } else if input.num_frames_per_chunk == 0 {
        Some(Error::Shape(ShapeError::ZeroNumFramesPerChunk))
    } else if !is_duration(input.min_duration_off) {
        Some(Error::Shape(ShapeError::MinDurationOffOutOfRange { value: input.min_duration_off }))
    } else if !is_epsilon(input.smoothing_epsilon) {
        Some(
            Error::Shape(ShapeError::SmoothingEpsilonOutOfRange { value: input.smoothing_epsilon }),
        )
    } else if input.num_chunks * input.num_speakers * EMBEDDING_DIM > usize::MAX {
        Some(Error::Shape(ShapeError::RawEmbeddingsOverflow))
    } else if input.raw_embeddings@.len() != input.num_chunks * input.num_speakers * EMBEDDING_DIM {
        Some(Error::Shape(ShapeError::RawEmbeddingsLenMismatch))
    } else if input.num_chunks * input.num_frames_per_chunk * input.num_speakers > usize::MAX {
        Some(Error::Shape(ShapeError::SegmentationsOverflow))
    } else if input.segmentations@.len() != input.num_chunks * input.num_frames_per_chunk
        * input.num_speakers {
        Some(Error::Shape(ShapeError::SegmentationsLenMismatch))
    } else if input.num_output_frames == 0 {
        Some(
            Error::Reconstruct(ReconstructError::Shape(ReconstructShapeError::ZeroNumOutputFrames)),
        )
    } else if input.count@.len() != input.num_output_frames {
        Some(Error::Reconstruct(ReconstructError::Shape(ReconstructShapeError::CountLenMismatch)))
    } else if exists|t: int|
        0 <= t < input.count@.len() && #[trigger] input.count@[t] > MAX_COUNT_PER_FRAME {
        Some(Error::Reconstruct(ReconstructError::Shape(ReconstructShapeError::CountAboveMax)))
    } else {
        None
    }
}

/// Checks an offline input.
pub fn check_input<P, A, R>(input: &OfflineInput) -> (r: Result<(), Error<P, A, R>>)
    ensures
        match input_error::<P, A, R>(*input) {
            Some(e) => r == Err::<(), Error<P, A, R>>(e),
            None => r is Ok,
        },
{
    if input.num_chunks == 0 {
        return Err(Error::Shape(ShapeError::ZeroNumChunks));
    }
    if input.num_speakers == 0 {
        return Err(Error::Shape(ShapeError::ZeroNumSpeakers));
    }
    if input.num_frames_per_chunk == 0 {
        return Err(Error::Shape(ShapeError::ZeroNumFramesPerChunk));
    }
    if !check_min_duration_off(input.min_duration_off) {
        return Err(
            Error::Shape(ShapeError::MinDurationOffOutOfRange { value: input.min_duration_off }),
        );
    }
    if !check_smoothing_epsilon(input.smoothing_epsilon) {
        return Err(
            Error::Shape(ShapeError::SmoothingEpsilonOutOfRange { value: input.smoothing_epsilon }),
        );
    }
    match crate::aggregate::count::checked_product(
        input.num_chunks,
        input.num_speakers,
        EMBEDDING_DIM,
    ) {
        Some(n) => {
            if input.raw_embeddings.len() != n {
                return Err(Error::Shape(ShapeError::RawEmbeddingsLenMismatch));
            }
        },
        None => {
            return Err(Error::Shape(ShapeError::RawEmbeddingsOverflow));
        },
    }
    match crate::aggregate::count::checked_product(
        input.num_chunks,
        input.num_frames_per_chunk,
        input.num_speakers,
    ) {
        Some(n) => {
            if input.segmentations.len() != n {
                return Err(Error::Shape(ShapeError::SegmentationsLenMismatch));
            }
        },
        None => {
            return Err(Error::Shape(ShapeError::SegmentationsOverflow));
        },
    }
    if input.num_output_frames == 0 {
        return Err(
            Error::Reconstruct(ReconstructError::Shape(ReconstructShapeError::ZeroNumOutputFrames)),
        );
    }
    if input.count.len() != input.num_output_frames {
        return Err(
            Error::Reconstruct(ReconstructError::Shape(ReconstructShapeError::CountLenMismatch)),
        );
    }
    let mut t: usize = 0;
    while t < input.count.len()
        invariant
            t <= input.count.len(),
            forall|i: int| 0 <= i < t ==> #[trigger] input.count@[i] <= MAX_COUNT_PER_FRAME,
            input.num_chunks > 0,
            input.num_speakers > 0,
            input.num_frames_per_chunk > 0,
            is_duration(input.min_duration_off),
            is_epsilon(input.smoothing_epsilon),
            input.num_chunks * input.num_speakers * EMBEDDING_DIM <= usize::MAX,
            input.raw_embeddings@.len() == input.num_chunks * input.num_speakers * EMBEDDING_DIM,
            input.num_chunks * input.num_frames_per_chunk * input.num_speakers <= usize::MAX,
            input.segmentations@.len() == input.num_chunks * input.num_frames_per_chunk
                * input.num_speakers,
            input.num_output_frames > 0,
            input.count@.len() == input.num_output_frames,
        decreases input.count.len() - t,
    {
        if input.count[t] > MAX_COUNT_PER_FRAME {
            assert(input.count@[t as int] > MAX_COUNT_PER_FRAME);
            return Err(
                Error::Reconstruct(ReconstructError::Shape(ReconstructShapeError::CountAboveMax)),
            );
        }
        t = t + 1;
    }
    Ok(())
}

} // verus!
