//! Hamming-weighted aggregation.

use vstd::prelude::*;
use crate::aggregate::count::{all_finite, chunk_start_frame, is_all_finite, is_positive, positive, start_frame, Error, ShapeError, MAX_OUTPUT_FRAMES};
use crate::float::Double;

verus! {

/// The angle of frame `n` in a window over `frames` frames:
/// `2 pi n / (frames - 1)`.
pub open spec fn window_angle(n: nat, frames: nat) -> Double {
    Double { bits: 0x4019_21fb_5444_2d18 }.times(Double::natural(n)).over(
        Double::natural((frames - 1) as nat),
    )
}

/// The window weight at an angle with the given cosine: `0.54 - 0.46 cos`.
pub open spec fn window_weight(cosine: Double) -> Double {
    Double { bits: 0x3fe1_47ae_147a_e148 }.minus(
        Double { bits: 0x3fdd_70a3_d70a_3d71 }.times(cosine),
    )
}

/// The angle of frame `n` in a Hamming window over `frames` frames.
pub fn hamming_angle(n: usize, frames: usize) -> (r: Double)
    requires
        frames >= 1,
    ensures
        r == window_angle(n as nat, frames as nat),
{
    Double::from_bits(0x4019_21fb_5444_2d18).mul(Double::from_u64(n as u64)).div(
        Double::from_u64((frames - 1) as u64),
    )
}

/// The Hamming weight at an angle with the given cosine.
pub fn hamming_weight(cosine: Double) -> (r: Double)
    ensures
        r == window_weight(cosine),
{
    Double::from_bits(0x3fe1_47ae_147a_e148).sub(
        Double::from_bits(0x3fdd_70a3_d70a_3d71).mul(cosine),
    )
}

/// The weighted sum at output frame `t` over the first `n` chunks, added up in
/// chunk order.
pub open spec fn weighted_sum(
    values: Seq<Double>,
    cosines: Seq<Double>,
    chunk_step: Double,
    frame_step: Double,
    n: nat,
    t: int,
) -> Double
    decreases n,
{
    if n == 0 {
        Double::zero_spec()
    } else {
        let before = weighted_sum(values, cosines, chunk_step, frame_step, (n - 1) as nat, t);
        let f = t - start_frame((n - 1) as nat, chunk_step, frame_step);
        if 0 <= f < cosines.len() {
            before.plus(values[(n - 1) * cosines.len() + f].times(window_weight(cosines[f])))
        } else {
            before
        }
    }
}

/// The chunk-start offset of the last chunk in frames, before rounding.
pub open spec fn last_start(num_chunks: nat, chunk_step: Double, frame_step: Double) -> Double {
    last_start_time(num_chunks, chunk_step).over(frame_step)
}

/// The start time of the last chunk.
pub open spec fn last_start_time(num_chunks: nat, chunk_step: Double) -> Double {
    Double::natural(num_chunks).minus(Double { bits: 0x3ff0_0000_0000_0000 }).times(chunk_step)
}

/// The largest frame offset accepted, `2^62`.
pub open spec fn safe_offset() -> Double {
    Double { bits: 0x43d0_0000_0000_0000 }
}

/// Least number of output frames that hold the last chunk, saturated.
pub open spec fn frames_required(start: int, num_frames_per_chunk: nat) -> int {
    if start + num_frames_per_chunk > usize::MAX {
        usize::MAX as int
    } else {
        start + num_frames_per_chunk
    }
}

/// The first check that a Hamming aggregation fails, if any.
pub open spec fn hamming_error(
    values: Seq<Double>,
    num_chunks: nat,
    num_frames_per_chunk: nat,
    chunk_step: Double,
    frame_step: Double,
    num_output_frames: nat,
) -> Option<ShapeError> {
    let offset = last_start(num_chunks, chunk_step, frame_step);
    let start = offset.rounded().saturated();
    if num_chunks == 0 {
        Some(ShapeError::ZeroNumChunks)
    } else if num_frames_per_chunk < 2 {
        Some(ShapeError::HammingNumFramesPerChunkBelowTwo)
    } else if num_frames_per_chunk > MAX_OUTPUT_FRAMES {
        Some(
            ShapeError::OutputFrameCountAboveMax {
                got: num_frames_per_chunk as usize,
                max: MAX_OUTPUT_FRAMES,
            },
        )
    } else if !positive(chunk_step) {
        Some(ShapeError::InvalidHammingChunkStep)
    } else if !positive(frame_step) {
        Some(ShapeError::InvalidHammingFrameStep)
    } else if num_output_frames == 0 {
        Some(ShapeError::ZeroNumOutputFrames)
    } else if num_output_frames > MAX_OUTPUT_FRAMES {
        Some(
            ShapeError::OutputFrameCountAboveMax {
                got: num_output_frames as usize,
                max: MAX_OUTPUT_FRAMES,
            },
        )
    } else if num_chunks * num_frames_per_chunk > usize::MAX {
        Some(ShapeError::HammingSizeOverflow)
    } else if values.len() != num_chunks * num_frames_per_chunk {
        Some(ShapeError::HammingPerChunkValueLenMismatch)
    } else if !all_finite(values) {
        Some(ShapeError::NonFinitePerChunkValue)
    } else if !last_start_time(num_chunks, chunk_step).finite() || !offset.finite() || !(
    safe_offset().negated().at_most(offset) && offset.at_most(safe_offset())) {
        Some(ShapeError::HammingDerivedTimingOutOfRange)
    } else if start > usize::MAX {
        Some(ShapeError::HammingDerivedTimingOutOfRange)
    } else if start >= 0 && num_output_frames < frames_required(start, num_frames_per_chunk) {
        Some(
            ShapeError::HammingOutputFrameCountTooSmall {
                got: num_output_frames as usize,
                required: frames_required(start, num_frames_per_chunk) as usize,
            },
        )
    } else {
        None
    }
}

/// Checks the input of a Hamming aggregation.
pub fn check_hamming(
    per_chunk_value: &[Double],
    num_chunks: usize,
    num_frames_per_chunk: usize,
    chunk_step: Double,
    frame_step: Double,
    num_output_frames: usize,
) -> (r: Result<(), ShapeError>)
    ensures
        match hamming_error(
            per_chunk_value@,
            num_chunks as nat,
            num_frames_per_chunk as nat,
            chunk_step,
            frame_step,
            num_output_frames as nat,
        ) {
            Some(e) => r == Err::<(), ShapeError>(e),
            None => r is Ok,
        },
{
    if num_chunks == 0 {
        return Err(ShapeError::ZeroNumChunks);
    }
    if num_frames_per_chunk < 2 {
        return Err(ShapeError::HammingNumFramesPerChunkBelowTwo);
    }
    if num_frames_per_chunk > MAX_OUTPUT_FRAMES {
        return Err(
            ShapeError::OutputFrameCountAboveMax {
                got: num_frames_per_chunk,
                max: MAX_OUTPUT_FRAMES,
            },
        );
    }
    if !is_positive(chunk_step) {
        return Err(ShapeError::InvalidHammingChunkStep);
    }
    if !is_positive(frame_step) {
        return Err(ShapeError::InvalidHammingFrameStep);
    }
    if num_output_frames == 0 {
        return Err(ShapeError::ZeroNumOutputFrames);
    }
    if num_output_frames > MAX_OUTPUT_FRAMES {
        return Err(
            ShapeError::OutputFrameCountAboveMax { got: num_output_frames, max: MAX_OUTPUT_FRAMES },
        );
    }
    let expected: usize = match num_chunks.checked_mul(num_frames_per_chunk) {
        Some(n) => n,
        None => {
            return Err(ShapeError::HammingSizeOverflow);
        },
    };
    if per_chunk_value.len() != expected {
        return Err(ShapeError::HammingPerChunkValueLenMismatch);
    }
    if !is_all_finite(per_chunk_value) {
        return Err(ShapeError::NonFinitePerChunkValue);
    }
    let one: Double = Double::from_bits(0x3ff0_0000_0000_0000);
    let safe: Double = Double::from_bits(0x43d0_0000_0000_0000);
    let time: Double = Double::from_u64(num_chunks as u64).sub(one).mul(chunk_step);
    let offset: Double = time.div(frame_step);
    if !time.is_finite() || !offset.is_finite() || !(safe.neg().le(offset) && offset.le(safe)) {
        return Err(ShapeError::HammingDerivedTimingOutOfRange);
    }
    let start: i64 = offset.round_ties_even().to_i64();
    if start >= 0 {
        if start as u64 > usize::MAX as u64 {
            return Err(ShapeError::HammingDerivedTimingOutOfRange);
        }
        let first: usize = start as usize;
        let required: usize = if first > usize::MAX - num_frames_per_chunk {
            usize::MAX
        } else {
            first + num_frames_per_chunk
        };
        if num_output_frames < required {
            return Err(
                ShapeError::HammingOutputFrameCountTooSmall { got: num_output_frames, required },
            );
        }
    }
    Ok(())
}

/// The weighted sums for the given window cosines, input known to be valid.
pub fn hamming_sums(
    per_chunk_value: &[Double],
    num_chunks: usize,
    chunk_step: Double,
    frame_step: Double,
    num_output_frames: usize,
    cosines: &[Double],
) -> (out: Vec<Double>)
    requires
        per_chunk_value.len() == num_chunks * cosines.len(),
    ensures
        out.len() == num_output_frames,
        forall|t: int|
            0 <= t < num_output_frames ==> #[trigger] out@[t] == weighted_sum(
                per_chunk_value@,
                cosines@,
                chunk_step,
                frame_step,
                num_chunks as nat,
                t,
            ),
{
    let n: usize = cosines.len();
    let mut weights: Vec<Double> = Vec::with_capacity(n);
    while weights.len() < n
        invariant
            weights.len() <= n,
            n == cosines.len(),
            forall|i: int| 0 <= i < weights.len() ==> #[trigger] weights@[i] == window_weight(cosines@[i]),
        decreases n - weights.len(),
    {
        weights.push(hamming_weight(cosines[weights.len()]));
    }
    let mut out: Vec<Double> = vec![Double::zero(); num_output_frames];
    let mut c: usize = 0;
    while c < num_chunks
        invariant
            c <= num_chunks,
            n == cosines.len(),
            weights.len() == n,
            forall|i: int| 0 <= i < n ==> #[trigger] weights@[i] == window_weight(cosines@[i]),
            per_chunk_value.len() == num_chunks * n,
            out.len() == num_output_frames,
            forall|t: int|
                0 <= t < num_output_frames ==> #[trigger] out@[t] == weighted_sum(
                    per_chunk_value@,
                    cosines@,
                    chunk_step,
                    frame_step,
                    c as nat,
                    t,
                ),
        decreases num_chunks - c,
    {
        let start: i64 = chunk_start_frame(c, chunk_step, frame_step);
        let mut f: usize = 0;
        while f < n
            invariant
                f <= n,
                c < num_chunks,
                n == cosines.len(),
                weights.len() == n,
                forall|i: int| 0 <= i < n ==> #[trigger] weights@[i] == window_weight(cosines@[i]),
                per_chunk_value.len() == num_chunks * n,
                start == start_frame(c as nat, chunk_step, frame_step),
                out.len() == num_output_frames,
                forall|t: int|
                    0 <= t < num_output_frames ==> #[trigger] out@[t] == weighted_sum(
                        per_chunk_value@,
                        cosines@,
                        chunk_step,
                        frame_step,
                        if 0 <= t - start < f { (c + 1) as nat } else { c as nat },
                        t,
                    ),
            decreases n - f,
        {
            let t: i128 = start as i128 + f as i128;
            if 0 <= t && t < num_output_frames as i128 {
                let i: usize = t as usize;
                proof {
                    assert(0 <= c * n && c * n + n <= num_chunks * n) by (nonlinear_arith)
                        requires
                            0 <= c < num_chunks,
                            n >= 0,
                    ;
                }
                out[i] = out[i].add(per_chunk_value[c * n + f].mul(weights[f]));
            }
            f = f + 1;
        }
        c = c + 1;
    }
    out
}

/// What is asked of `cosine`: that it accepts every angle, and gives one result for
/// each.
pub open spec fn is_cosine<F: Fn(Double) -> Double>(cosine: F) -> bool {
    &&& forall|angle: Double| #[trigger] call_requires(cosine, (angle,))
    &&& forall|x: Double, a: Double, b: Double| #[trigger]
        call_ensures(cosine, (x,), a) && #[trigger] call_ensures(cosine, (x,), b) ==> a == b
}

/// `out` is the Hamming aggregate of the input under cosines that `cosine` gave
/// for the window angles.
pub open spec fn is_hamming_aggregate<F: Fn(Double) -> Double>(
    out: Seq<Double>,
    values: Seq<Double>,
    num_chunks: nat,
    num_frames_per_chunk: nat,
    chunk_step: Double,
    frame_step: Double,
    num_output_frames: nat,
    cosine: F,
) -> bool {
    exists|cosines: Seq<Double>|
        {
            &&& #[trigger] cosines.len() == num_frames_per_chunk
            &&& forall|n: int|
                0 <= n < num_frames_per_chunk ==> call_ensures(
                    cosine,
                    (window_angle(n as nat, num_frames_per_chunk),),
                    #[trigger] cosines[n],
                )
            &&& out == Seq::new(
                num_output_frames,
                |t: int| weighted_sum(values, cosines, chunk_step, frame_step, num_chunks, t),
            )
        }
}

/// The unnormalised Hamming-weighted sum of per-chunk values, laid out as
/// `[chunk][frame]`, on the output frame grid. `cosine` computes cosines.
pub fn try_hamming_aggregate<F: Fn(Double) -> Double>(
    per_chunk_value: &[Double],
    num_chunks: usize,
    num_frames_per_chunk: usize,
    chunk_step: Double,
    frame_step: Double,
    num_output_frames: usize,
    cosine: F,
) -> (r: Result<Vec<Double>, Error>)
    requires
        is_cosine(cosine),
    ensures
        match hamming_error(
            per_chunk_value@,
            num_chunks as nat,
            num_frames_per_chunk as nat,
            chunk_step,
            frame_step,
            num_output_frames as nat,
        ) {
            Some(e) => r == Err::<Vec<Double>, Error>(Error::Shape(e)),
            None => r is Ok && is_hamming_aggregate(
                r->Ok_0@,
                per_chunk_value@,
                num_chunks as nat,
                num_frames_per_chunk as nat,
                chunk_step,
                frame_step,
                num_output_frames as nat,
                cosine,
            ),
        },
{
    match check_hamming(
        per_chunk_value,
        num_chunks,
        num_frames_per_chunk,
        chunk_step,
        frame_step,
        num_output_frames,
    ) {
        Ok(()) => {},
        Err(e) => {
            return Err(Error::Shape(e));
        },
    }
    let mut cosines: Vec<Double> = Vec::with_capacity(num_frames_per_chunk);
    while cosines.len() < num_frames_per_chunk
        invariant
            num_frames_per_chunk >= 2,
            cosines.len() <= num_frames_per_chunk,
            is_cosine(cosine),
            forall|n: int|
                0 <= n < cosines.len() ==> call_ensures(
                    cosine,
                    (window_angle(n as nat, num_frames_per_chunk as nat),),
                    #[trigger] cosines@[n],
                ),
        decreases num_frames_per_chunk - cosines.len(),
    {
        let angle: Double = hamming_angle(cosines.len(), num_frames_per_chunk);
        cosines.push(cosine(angle));
    }
    let out: Vec<Double> = hamming_sums(
        per_chunk_value,
        num_chunks,
        chunk_step,
        frame_step,
        num_output_frames,
        &cosines,
    );
    proof {
        assert(out@ =~= Seq::new(
            num_output_frames as nat,
            |t: int|
                weighted_sum(
                    per_chunk_value@,
                    cosines@,
                    chunk_step,
                    frame_step,
                    num_chunks as nat,
                    t,
                ),
        ));
        assert(cosines@.len() == num_frames_per_chunk);
    }
    Ok(out)
}

/// As [`try_hamming_aggregate`], for input known to be valid.
pub fn hamming_aggregate<F: Fn(Double) -> Double>(
    per_chunk_value: &[Double],
    num_chunks: usize,
    num_frames_per_chunk: usize,
    chunk_step: Double,
    frame_step: Double,
    num_output_frames: usize,
    cosine: F,
) -> (out: Vec<Double>)
    requires
        is_cosine(cosine),
        hamming_error(
            per_chunk_value@,
            num_chunks as nat,
            num_frames_per_chunk as nat,
            chunk_step,
            frame_step,
            num_output_frames as nat,
        ) is None,
    ensures
        is_hamming_aggregate(
            out@,
            per_chunk_value@,
            num_chunks as nat,
            num_frames_per_chunk as nat,
            chunk_step,
            frame_step,
            num_output_frames as nat,
            cosine,
        ),
{
    match try_hamming_aggregate(
        per_chunk_value,
        num_chunks,
        num_frames_per_chunk,
        chunk_step,
        frame_step,
        num_output_frames,
        cosine,
    ) {
        Ok(out) => out,
        Err(_) => vstd::pervasive::unreached(),
    }
}

} // verus!
