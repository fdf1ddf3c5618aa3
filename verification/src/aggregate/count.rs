//! The per-frame count of active speakers.

use std::sync::Arc;
use vstd::prelude::*;
use crate::float::Double;
use crate::shared::share;
use crate::window::SlidingWindow;

verus! {

/// Most output frames that the aggregation functions accept.
pub const MAX_OUTPUT_FRAMES: usize = 400_000_000;

/// Why an aggregation was refused.
#[derive(Clone, Copy, Debug, PartialEq, Eq, Structural)]
pub enum Error {
    /// Lengths do not match the declared shape, or the geometry is invalid.
    Shape(ShapeError),
}

/// The individual shape violations.
#[derive(Clone, Copy, Debug, PartialEq, Eq, Structural)]
pub enum ShapeError {
    ZeroNumChunks,
    ZeroNumFramesPerChunk,
    ZeroNumSpeakers,
    InvalidChunkDuration,
    InvalidChunkStep,
    InvalidFrameDuration,
    InvalidFrameStep,
    NonFiniteOnset,
    CountTensorSizeOverflow,
    SegmentationsLenMismatch,
    HammingSizeOverflow,
    HammingPerChunkValueLenMismatch,
    InvalidHammingChunkStep,
    InvalidHammingFrameStep,
    /// A window over fewer than two frames has no taper.
    HammingNumFramesPerChunkBelowTwo,
    OutputFrameCountOverflow,
    NonFiniteSegmentations,
    NonFinitePerChunkValue,
    /// The last chunk would start outside the safe frame range.
    HammingDerivedTimingOutOfRange,
    ZeroNumOutputFrames,
    /// The output is too short for the last chunk's frames.
    HammingOutputFrameCountTooSmall { got: usize, required: usize },
    /// More than [`MAX_OUTPUT_FRAMES`] output frames.
    OutputFrameCountAboveMax { got: usize, max: usize },
}

/// A positive finite number.
pub open spec fn positive(x: Double) -> bool {
    x.finite() && Double::zero_spec().below(x)
}

/// Whether `x` is positive and finite.
pub fn is_positive(x: Double) -> (r: bool)
    ensures
        r == positive(x),
{
    x.is_finite() && Double::zero().lt(x)
}

/// The output frame at which chunk `c` starts.
pub open spec fn start_frame(c: nat, chunk_step: Double, frame_step: Double) -> int {
    Double::natural(c).times(chunk_step).over(frame_step).rounded().saturated()
}

pub fn chunk_start_frame(c: usize, chunk_step: Double, frame_step: Double) -> (r: i64)
    ensures
        r == start_frame(c as nat, chunk_step, frame_step),
{
    Double::from_u64(c as u64).mul(chunk_step).div(frame_step).round_ties_even().to_i64()
}

/// The number of output frames that the chunks reach, or why there is none.
pub open spec fn output_frames(
    num_chunks: nat,
    chunk_duration: Double,
    chunk_step: Double,
    frame_step: Double,
) -> Result<usize, ShapeError> {
    let last_chunk_end = chunk_duration.plus(
        Double::natural((num_chunks - 1) as nat).times(chunk_step),
    );
    let frames = last_chunk_end.over(frame_step).rounded();
    if num_chunks == 0 {
        Err(ShapeError::ZeroNumChunks)
    } else if !positive(frame_step) {
        Err(ShapeError::InvalidFrameStep)
    } else if !frames.finite() || frames.below(Double::zero_spec()) || Double::natural(
        usize::MAX as nat,
    ).at_most(frames) || frames.whole() + 1 > usize::MAX {
        Err(ShapeError::OutputFrameCountOverflow)
    } else if frames.whole() + 1 > MAX_OUTPUT_FRAMES {
        Err(
            ShapeError::OutputFrameCountAboveMax {
                got: (frames.whole() + 1) as usize,
                max: MAX_OUTPUT_FRAMES,
            },
        )
    } else {
        Ok((frames.whole() + 1) as usize)
    }
}

/// The number of output frames for `num_chunks` chunks:
/// `round((chunk_duration + (num_chunks - 1) * chunk_step) / frame_step) + 1`.
pub fn try_num_output_frames_pyannote(
    num_chunks: usize,
    chunk_duration: Double,
    chunk_step: Double,
    frame_step: Double,
) -> (r: Result<usize, ShapeError>)
    ensures
        r == output_frames(num_chunks as nat, chunk_duration, chunk_step, frame_step),
{
    if num_chunks == 0 {
        return Err(ShapeError::ZeroNumChunks);
    }
    if !is_positive(frame_step) {
        return Err(ShapeError::InvalidFrameStep);
    }
    let last_chunk_end: Double = chunk_duration.add(
        Double::from_u64((num_chunks - 1) as u64).mul(chunk_step),
    );
    let frames: Double = last_chunk_end.div(frame_step).round_ties_even();
    if !frames.is_finite() || frames.lt(Double::zero()) || frames.ge(
        Double::from_u64(usize::MAX as u64),
    ) {
        return Err(ShapeError::OutputFrameCountOverflow);
    }
    proof {
        crate::float::double::lemma_nonnegative_whole(frames);
    }
    match frames.whole_size() {
        Some(n) => {
            if n >= usize::MAX as u64 {
                return Err(ShapeError::OutputFrameCountOverflow);
            }
            let got: usize = n as usize + 1;
            if got > MAX_OUTPUT_FRAMES {
                Err(ShapeError::OutputFrameCountAboveMax { got, max: MAX_OUTPUT_FRAMES })
            } else {
                Ok(got)
            }
        },
        None => Err(ShapeError::OutputFrameCountOverflow),
    }
}

/// As [`try_num_output_frames_pyannote`], for geometry known to be valid.
pub fn num_output_frames_pyannote(
    num_chunks: usize,
    chunk_duration: Double,
    chunk_step: Double,
    frame_step: Double,
) -> (r: usize)
    requires
        output_frames(num_chunks as nat, chunk_duration, chunk_step, frame_step) is Ok,
    ensures
        output_frames(num_chunks as nat, chunk_duration, chunk_step, frame_step) == Ok::<
            usize,
            ShapeError,
        >(r),
{
    match try_num_output_frames_pyannote(num_chunks, chunk_duration, chunk_step, frame_step) {
        Ok(n) => n,
        Err(_) => vstd::pervasive::unreached(),
    }
}

/// How many of the first `n` scores from `base` on reach the onset.
pub open spec fn active_speakers(segmentations: Seq<Double>, onset: Double, base: int, n: nat) -> nat
    decreases n,
{
    if n == 0 {
        0
    } else {
        active_speakers(segmentations, onset, base, (n - 1) as nat) + (if onset.at_most(
            segmentations[base + n - 1],
        ) { 1nat } else { 0 })
    }
}

/// The input of a count: scores laid out as `[chunk][frame][speaker]`.
pub struct CountGrid {
    pub segmentations: Seq<Double>,
    pub frames_per_chunk: nat,
    pub speakers: nat,
    pub onset: Double,
    pub chunk_step: Double,
    pub frame_step: Double,
}

impl CountGrid {
    /// The frame of chunk `c` that falls on output frame `t`.
    pub open spec fn local(self, c: nat, t: int) -> int {
        t - start_frame(c, self.chunk_step, self.frame_step)
    }

    /// Chunk `c` covers output frame `t`.
    pub open spec fn covers(self, c: nat, t: int) -> bool {
        0 <= self.local(c, t) < self.frames_per_chunk
    }

    /// Number of active speakers in frame `f` of chunk `c`.
    pub open spec fn active(self, c: nat, f: int) -> nat {
        active_speakers(
            self.segmentations,
            self.onset,
            (c * self.frames_per_chunk + f) * self.speakers,
            self.speakers,
        )
    }

    /// Active speakers at output frame `t`, summed over the covering chunks
    /// among the first `n`.
    pub open spec fn total(self, n: nat, t: int) -> nat
        decreases n,
    {
        if n == 0 {
            0
        } else {
            let c = (n - 1) as nat;
            self.total(c, t) + (if self.covers(c, t) { self.active(c, self.local(c, t)) } else { 0 })
        }
    }

    /// Number of chunks among the first `n` that cover output frame `t`.
    pub open spec fn coverage(self, n: nat, t: int) -> nat
        decreases n,
    {
        if n == 0 {
            0
        } else {
            self.coverage((n - 1) as nat, t) + (if self.covers((n - 1) as nat, t) { 1nat } else { 0 })
        }
    }

    /// The count at output frame `t`: the average over the covering chunks,
    /// rounded ties to even, at most 255; 0 where no chunk reaches.
    pub open spec fn count_at(self, num_chunks: nat, t: int) -> u8 {
        average_count(self.total(num_chunks, t), self.coverage(num_chunks, t))
    }
}

/// The rounded average of `total` over `coverage` chunks, saturated to a byte.
pub open spec fn average_count(total: nat, coverage: nat) -> u8 {
    let average = Double::natural(total).over(Double::natural(coverage)).rounded().saturated();
    if coverage == 0 || average < 0 {
        0
    } else if average > 255 {
        255
    } else {
        average as u8
    }
}

fn rounded_average(total: u64, coverage: u64) -> (r: u8)
    ensures
        r == average_count(total as nat, coverage as nat),
{
    if coverage == 0 {
        return 0;
    }
    let average: i64 = Double::from_u64(total).div(
        Double::from_u64(coverage),
    ).round_ties_even().to_i64();
    if average < 0 {
        0
    } else if average > 255 {
        255
    } else {
        average as u8
    }
}

/// The first check that a count input fails, if any.
pub open spec fn count_error(
    segmentations: Seq<Double>,
    num_chunks: nat,
    num_frames_per_chunk: nat,
    num_speakers: nat,
    onset: Double,
    chunks_sw: SlidingWindow,
    frames_sw: SlidingWindow,
) -> Option<ShapeError> {
    if num_chunks == 0 {
        Some(ShapeError::ZeroNumChunks)
    } else if num_frames_per_chunk == 0 {
        Some(ShapeError::ZeroNumFramesPerChunk)
    } else if num_speakers == 0 {
        Some(ShapeError::ZeroNumSpeakers)
    } else if !positive(chunks_sw.length()) {
        Some(ShapeError::InvalidChunkDuration)
    } else if !positive(chunks_sw.stride()) {
        Some(ShapeError::InvalidChunkStep)
    } else if !positive(frames_sw.length()) {
        Some(ShapeError::InvalidFrameDuration)
    } else if !positive(frames_sw.stride()) {
        Some(ShapeError::InvalidFrameStep)
    } else if !onset.finite() {
        Some(ShapeError::NonFiniteOnset)
    } else if num_chunks * num_frames_per_chunk * num_speakers > usize::MAX {
        Some(ShapeError::CountTensorSizeOverflow)
    } else if segmentations.len() != num_chunks * num_frames_per_chunk * num_speakers {
        Some(ShapeError::SegmentationsLenMismatch)
    } else if !all_finite(segmentations) {
        Some(ShapeError::NonFiniteSegmentations)
    } else {
        match output_frames(
            num_chunks,
            chunks_sw.length(),
            chunks_sw.stride(),
            frames_sw.stride(),
        ) {
            Ok(_) => None,
            Err(e) => Some(e),
        }
    }
}

/// Every number is finite.
pub open spec fn all_finite(values: Seq<Double>) -> bool {
    forall|i: int| 0 <= i < values.len() ==> (#[trigger] values[i]).finite()
}

/// Whether every number is finite.
pub fn is_all_finite(values: &[Double]) -> (r: bool)
    ensures
        r == all_finite(values@),
{
    let mut i: usize = 0;
    while i < values.len()
        invariant
            i <= values.len(),
            forall|j: int| 0 <= j < i ==> (#[trigger] values@[j]).finite(),
        decreases values.len() - i,
    {
        if !values[i].is_finite() {
            assert(!values@[i as int].finite());
            return false;
        }
        i += 1;
    }
    true
}

/// The counts of active speakers per output frame, with their frame grid.
///
/// The counts are shared, so that handing them to several consumers copies
/// nothing.
#[derive(Clone, Debug)]
pub struct CountTensor {
    count: Arc<[u8]>,
    frames_sw: SlidingWindow,
}

impl CountTensor {
    /// The counts, one per output frame.
    pub closed spec fn counts(self) -> Seq<u8> {
        self.count@
    }

    /// The output frame grid.
    pub closed spec fn grid(self) -> SlidingWindow {
        self.frames_sw
    }

    /// A shared handle on the counts.
    pub fn count(&self) -> (r: Arc<[u8]>)
        ensures
            r@ == self.counts(),
    {
        Arc::clone(&self.count)
    }

    /// The counts as a slice.
    pub fn count_slice(&self) -> (r: &[u8])
        ensures
            r@ == self.counts(),
    {
        &self.count
    }

    /// The output frame grid. It starts at zero.
    pub fn frames_sw(&self) -> (r: SlidingWindow)
        ensures
            r == self.grid(),
    {
        self.frames_sw
    }

    /// Counts and grid.
    pub fn into_parts(self) -> (r: (Arc<[u8]>, SlidingWindow))
        ensures
            r.0@ == self.counts(),
            r.1 == self.grid(),
    {
        (self.count, self.frames_sw)
    }
}

/// `tensor` is the count of the given input.
pub open spec fn is_count(
    tensor: CountTensor,
    segmentations: Seq<Double>,
    num_chunks: nat,
    num_frames_per_chunk: nat,
    num_speakers: nat,
    onset: Double,
    chunks_sw: SlidingWindow,
    frames_sw: SlidingWindow,
) -> bool {
    let grid = CountGrid {
        segmentations,
        frames_per_chunk: num_frames_per_chunk,
        speakers: num_speakers,
        onset,
        chunk_step: chunks_sw.stride(),
        frame_step: frames_sw.stride(),
    };
    let frames = output_frames(
        num_chunks,
        chunks_sw.length(),
        chunks_sw.stride(),
        frames_sw.stride(),
    );
    &&& frames is Ok
    &&& tensor.counts().len() == frames->Ok_0
    &&& forall|t: int|
        0 <= t < tensor.counts().len() ==> #[trigger] tensor.counts()[t] == grid.count_at(
            num_chunks,
            t,
        )
    &&& tensor.grid().start_at() == Double::zero_spec()
    &&& tensor.grid().length() == frames_sw.length()
    &&& tensor.grid().stride() == frames_sw.stride()
}

/// Counts the active speakers of one frame.
fn count_active(segmentations: &[Double], onset: Double, base: usize, num_speakers: usize) -> (r: u64)
    requires
        base + num_speakers <= segmentations.len(),
    ensures
        r == active_speakers(segmentations@, onset, base as int, num_speakers as nat),
        r <= num_speakers,
{
    let mut n: u64 = 0;
    let mut s: usize = 0;
    while s < num_speakers
        invariant
            s <= num_speakers,
            base + num_speakers <= segmentations.len(),
            n == active_speakers(segmentations@, onset, base as int, s as nat),
            n <= s,
        decreases num_speakers - s,
    {
        if segmentations[base + s].ge(onset) {
            n = n + 1;
        }
        s = s + 1;
    }
    n
}

/// The per-frame sums and coverages that a count averages.
fn accumulate(
    segmentations: &[Double],
    num_chunks: usize,
    num_frames_per_chunk: usize,
    num_speakers: usize,
    onset: Double,
    chunk_step: Double,
    frame_step: Double,
    num_output_frames: usize,
) -> (r: (Vec<u64>, Vec<u64>))
    requires
        num_frames_per_chunk > 0,
        num_speakers > 0,
        segmentations.len() == num_chunks * num_frames_per_chunk * num_speakers,
    ensures
        ({
            let grid = CountGrid {
                segmentations: segmentations@,
                frames_per_chunk: num_frames_per_chunk as nat,
                speakers: num_speakers as nat,
                onset,
                chunk_step,
                frame_step,
            };
            &&& r.0.len() == num_output_frames
            &&& r.1.len() == num_output_frames
            &&& forall|t: int|
                0 <= t < num_output_frames ==> {
                    &&& #[trigger] r.0@[t] == grid.total(num_chunks as nat, t)
                    &&& r.1@[t] == grid.coverage(num_chunks as nat, t)
                }
        }),
{
    let ghost grid = CountGrid {
        segmentations: segmentations@,
        frames_per_chunk: num_frames_per_chunk as nat,
        speakers: num_speakers as nat,
        onset,
        chunk_step,
        frame_step,
    };
    let mut totals: Vec<u64> = vec![0; num_output_frames];
    let mut coverage: Vec<u64> = vec![0; num_output_frames];
    let mut c: usize = 0;
    while c < num_chunks
        invariant
            c <= num_chunks,
            num_frames_per_chunk > 0,
            num_speakers > 0,
            segmentations.len() == num_chunks * num_frames_per_chunk * num_speakers,
            grid == (CountGrid {
                segmentations: segmentations@,
                frames_per_chunk: num_frames_per_chunk as nat,
                speakers: num_speakers as nat,
                onset,
                chunk_step,
                frame_step,
            }),
            totals.len() == num_output_frames,
            coverage.len() == num_output_frames,
            forall|t: int|
                0 <= t < num_output_frames ==> {
                    &&& #[trigger] totals@[t] == grid.total(c as nat, t)
                    &&& coverage@[t] == grid.coverage(c as nat, t)
                    &&& totals@[t] <= c * num_speakers
                    &&& coverage@[t] <= c
                },
        decreases num_chunks - c,
    {
        let start: i64 = chunk_start_frame(c, chunk_step, frame_step);
        let mut f: usize = 0;
        while f < num_frames_per_chunk
            invariant
                f <= num_frames_per_chunk,
                c < num_chunks,
                num_frames_per_chunk > 0,
                num_speakers > 0,
                segmentations.len() == num_chunks * num_frames_per_chunk * num_speakers,
                start == start_frame(c as nat, chunk_step, frame_step),
                grid == (CountGrid {
                    segmentations: segmentations@,
                    frames_per_chunk: num_frames_per_chunk as nat,
                    speakers: num_speakers as nat,
                    onset,
                    chunk_step,
                    frame_step,
                }),
                totals.len() == num_output_frames,
                coverage.len() == num_output_frames,
                forall|t: int|
                    0 <= t < num_output_frames ==> {
                        let here = 0 <= t - start < f;
                        &&& #[trigger] totals@[t] == grid.total(c as nat, t) + (if here {
                            grid.active(c as nat, t - start)
                        } else {
                            0
                        })
                        &&& coverage@[t] == grid.coverage(c as nat, t) + (if here {
                            1nat
                        } else {
                            0
                        })
                        &&& totals@[t] <= c * num_speakers + (if here { num_speakers as int } else { 0 })
                        &&& coverage@[t] <= c + (if here { 1int } else { 0 })
                    },
            decreases num_frames_per_chunk - f,
        {
            let t: i128 = start as i128 + f as i128;
            let ghost totals0 = totals@;
            let ghost coverage0 = coverage@;
            if 0 <= t && t < num_output_frames as i128 {
                let i: usize = t as usize;
                proof {
                    lemma_cell(c as int, f as int, num_chunks as int, num_frames_per_chunk as int, num_speakers as int);
                }
                let base: usize = (c * num_frames_per_chunk + f) * num_speakers;
                let n: u64 = count_active(segmentations, onset, base, num_speakers);
                proof {
                    assert(totals@[i as int] <= c * num_speakers);
                    assert(n == grid.active(c as nat, t - start));
                }
                totals[i] = totals[i] + n;
                coverage[i] = coverage[i] + 1;
            }
            proof {
                assert forall|k: int| 0 <= k < num_output_frames implies {
                    let here = 0 <= k - start < f + 1;
                    &&& #[trigger] totals@[k] == grid.total(c as nat, k) + (if here {
                        grid.active(c as nat, k - start)
                    } else {
                        0
                    })
                    &&& coverage@[k] == grid.coverage(c as nat, k) + (if here { 1nat } else { 0 })
                    &&& totals@[k] <= c * num_speakers + (if here { num_speakers as int } else { 0 })
                    &&& coverage@[k] <= c + (if here { 1int } else { 0 })
                } by {
                    assert(totals0[k] <= c * num_speakers + (if 0 <= k - start < f {
                        num_speakers as int
                    } else {
                        0
                    }));
                    if k != t {
                        assert(totals@[k] == totals0[k]);
                        assert(coverage@[k] == coverage0[k]);
                    }
                }
            }
            f = f + 1;
        }
        proof {
            assert((c + 1) * num_speakers == c * num_speakers + num_speakers) by (nonlinear_arith);
        }
        c = c + 1;
    }
    (totals, coverage)
}

/// Cell `(c, f)` of the input lies inside the flat layout.
proof fn lemma_cell(c: int, f: int, num_chunks: int, frames: int, speakers: int)
    requires
        0 <= c < num_chunks,
        0 <= f < frames,
        speakers > 0,
        num_chunks * frames * speakers <= usize::MAX,
    ensures
        0 <= c * frames <= usize::MAX,
        0 <= c * frames + f <= usize::MAX,
        0 <= (c * frames + f) * speakers,
        (c * frames + f) * speakers + speakers <= num_chunks * frames * speakers,
        0 <= c * speakers,
        c * speakers + speakers <= usize::MAX,
{
    assert(0 <= c * frames && c * frames + frames <= num_chunks * frames) by (nonlinear_arith)
        requires
            0 <= c < num_chunks,
            0 < frames,
    ;
    let k = c * frames + f;
    let n = num_chunks * frames;
    assert(k * speakers + speakers <= n * speakers) by (nonlinear_arith)
        requires
            k + 1 <= n,
            speakers > 0,
    ;
    assert(0 <= k <= k * speakers) by (nonlinear_arith)
        requires
            k >= 0,
            speakers >= 1,
    ;
    assert(0 <= c * speakers && c * speakers + speakers <= num_chunks * speakers) by (nonlinear_arith)
        requires
            0 <= c < num_chunks,
            speakers > 0,
    ;
    assert(num_chunks * speakers <= (num_chunks * frames) * speakers) by (nonlinear_arith)
        requires
            num_chunks > 0,
            frames >= 1,
            speakers > 0,
    ;
}

/// The number of active speakers per output frame.
///
/// A score is active when it reaches `onset`. Each output frame gets the average,
/// over the chunks that cover it, of the number of active speakers in the frame
/// of that chunk, rounded ties to even. `frames_sw_template` gives duration and
/// step of the output grid; its start is ignored, the grid starts at zero.
pub fn try_count_pyannote(
    segmentations: &[Double],
    num_chunks: usize,
    num_frames_per_chunk: usize,
    num_speakers: usize,
    onset: Double,
    chunks_sw: SlidingWindow,
    frames_sw_template: SlidingWindow,
) -> (r: Result<CountTensor, Error>)
    ensures
        match count_error(
            segmentations@,
            num_chunks as nat,
            num_frames_per_chunk as nat,
            num_speakers as nat,
            onset,
            chunks_sw,
            frames_sw_template,
        ) {
            Some(e) => r == Err::<CountTensor, Error>(Error::Shape(e)),
            None => r is Ok && is_count(
                r->Ok_0,
                segmentations@,
                num_chunks as nat,
                num_frames_per_chunk as nat,
                num_speakers as nat,
                onset,
                chunks_sw,
                frames_sw_template,
            ),
        },
{
    if num_chunks == 0 {
        return Err(Error::Shape(ShapeError::ZeroNumChunks));
    }
    if num_frames_per_chunk == 0 {
        return Err(Error::Shape(ShapeError::ZeroNumFramesPerChunk));
    }
    if num_speakers == 0 {
        return Err(Error::Shape(ShapeError::ZeroNumSpeakers));
    }
    let chunk_duration: Double = chunks_sw.duration();
    let chunk_step: Double = chunks_sw.step();
    let frame_duration: Double = frames_sw_template.duration();
    let frame_step: Double = frames_sw_template.step();
    if !is_positive(chunk_duration) {
        return Err(Error::Shape(ShapeError::InvalidChunkDuration));
    }
    if !is_positive(chunk_step) {
        return Err(Error::Shape(ShapeError::InvalidChunkStep));
    }
    if !is_positive(frame_duration) {
        return Err(Error::Shape(ShapeError::InvalidFrameDuration));
    }
    if !is_positive(frame_step) {
        return Err(Error::Shape(ShapeError::InvalidFrameStep));
    }
    if !onset.is_finite() {
        return Err(Error::Shape(ShapeError::NonFiniteOnset));
    }
    let expected: usize = match checked_product(num_chunks, num_frames_per_chunk, num_speakers) {
        Some(n) => n,
        None => {
            return Err(Error::Shape(ShapeError::CountTensorSizeOverflow));
        },
    };
    if segmentations.len() != expected {
        return Err(Error::Shape(ShapeError::SegmentationsLenMismatch));
    }
    if !is_all_finite(segmentations) {
        return Err(Error::Shape(ShapeError::NonFiniteSegmentations));
    }
    let num_output_frames: usize = match try_num_output_frames_pyannote(
        num_chunks,
        chunk_duration,
        chunk_step,
        frame_step,
    ) {
        Ok(n) => n,
        Err(e) => {
            return Err(Error::Shape(e));
        },
    };
    let (totals, coverage) = accumulate(
        segmentations,
        num_chunks,
        num_frames_per_chunk,
        num_speakers,
        onset,
        chunk_step,
        frame_step,
        num_output_frames,
    );
    let ghost grid = CountGrid {
        segmentations: segmentations@,
        frames_per_chunk: num_frames_per_chunk as nat,
        speakers: num_speakers as nat,
        onset,
        chunk_step,
        frame_step,
    };
    let mut counts: Vec<u8> = Vec::with_capacity(num_output_frames);
    let mut t: usize = 0;
    while t < num_output_frames
        invariant
            t <= num_output_frames,
            totals.len() == num_output_frames,
            coverage.len() == num_output_frames,
            counts.len() == t,
            forall|i: int|
                0 <= i < num_output_frames ==> {
                    &&& #[trigger] totals@[i] == grid.total(num_chunks as nat, i)
                    &&& coverage@[i] == grid.coverage(num_chunks as nat, i)
                },
            forall|i: int|
                0 <= i < t ==> #[trigger] counts@[i] == grid.count_at(num_chunks as nat, i),
        decreases num_output_frames - t,
    {
        let total: u64 = totals[t];
        counts.push(rounded_average(total, coverage[t]));
        t = t + 1;
    }
    let frames_sw: SlidingWindow = SlidingWindow::new(Double::zero(), frame_duration, frame_step);
    Ok(CountTensor { count: share(counts), frames_sw })
}

/// The product of three sizes, where it fits.
pub fn checked_product(a: usize, b: usize, c: usize) -> (r: Option<usize>)
    requires
        c > 0,
    ensures
        r is Some <==> a * b * c <= usize::MAX,
        r matches Some(n) ==> n == a * b * c,
{
    match a.checked_mul(b) {
        Some(n) => n.checked_mul(c),
        None => {
            proof {
                assert(a * b * c >= a * b) by (nonlinear_arith)
                    requires
                        a * b >= 0,
                        c >= 1,
                ;
            }
            None
        },
    }
}

/// As [`try_count_pyannote`], for input known to be valid.
pub fn count_pyannote(
    segmentations: &[Double],
    num_chunks: usize,
    num_frames_per_chunk: usize,
    num_speakers: usize,
    onset: Double,
    chunks_sw: SlidingWindow,
    frames_sw_template: SlidingWindow,
) -> (r: CountTensor)
    requires
        count_error(
            segmentations@,
            num_chunks as nat,
            num_frames_per_chunk as nat,
            num_speakers as nat,
            onset,
            chunks_sw,
            frames_sw_template,
        ) is None,
    ensures
        is_count(
            r,
            segmentations@,
            num_chunks as nat,
            num_frames_per_chunk as nat,
            num_speakers as nat,
            onset,
            chunks_sw,
            frames_sw_template,
        ),
{
    match try_count_pyannote(
        segmentations,
        num_chunks,
        num_frames_per_chunk,
        num_speakers,
        onset,
        chunks_sw,
        frames_sw_template,
    ) {
        Ok(tensor) => tensor,
        Err(_) => vstd::pervasive::unreached(),
    }
}

} // verus!
