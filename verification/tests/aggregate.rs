//! Counting active speakers and Hamming-weighted aggregation.

use diaric::aggregate::{Error, ShapeError, MAX_OUTPUT_FRAMES};
use diaric::float::Double;
use diaric::window::SlidingWindow;

fn d(x: f64) -> Double {
    Double::from_bits(x.to_bits())
}

fn ds(values: &[f64]) -> Vec<Double> {
    values.iter().map(|&x| d(x)).collect()
}

fn sw(duration: f64, step: f64) -> SlidingWindow {
    SlidingWindow::new(d(0.0), d(duration), d(step))
}

fn cosine(x: Double) -> Double {
    d(f64::from_bits(x.to_bits()).cos())
}

fn try_num_output_frames_pyannote(
    num_chunks: usize,
    chunk_duration: f64,
    chunk_step: f64,
    frame_step: f64,
) -> Result<usize, ShapeError> {
    diaric::aggregate::try_num_output_frames_pyannote(
        num_chunks,
        d(chunk_duration),
        d(chunk_step),
        d(frame_step),
    )
}

fn try_count_pyannote(
    segmentations: &[f64],
    num_chunks: usize,
    num_frames_per_chunk: usize,
    num_speakers: usize,
    onset: f64,
    chunks_sw: SlidingWindow,
    frames_sw: SlidingWindow,
) -> Result<diaric::aggregate::CountTensor, Error> {
    diaric::aggregate::try_count_pyannote(
        &ds(segmentations),
        num_chunks,
        num_frames_per_chunk,
        num_speakers,
        d(onset),
        chunks_sw,
        frames_sw,
    )
}

fn try_hamming_aggregate(
    per_chunk_value: &[f64],
    num_chunks: usize,
    num_frames_per_chunk: usize,
    chunk_step: f64,
    frame_step: f64,
    num_output_frames: usize,
) -> Result<Vec<f64>, Error> {
    diaric::aggregate::try_hamming_aggregate(
        &ds(per_chunk_value),
        num_chunks,
        num_frames_per_chunk,
        d(chunk_step),
        d(frame_step),
        num_output_frames,
        cosine,
    )
    .map(|v| v.iter().map(|x| f64::from_bits(x.to_bits())).collect())
}

#[test]
fn try_count_pyannote_rejects_short_segmentations() {
    let segs: Vec<f64> = vec![0.0; 23];
    let r = try_count_pyannote(
        &segs,
        3,
        4,
        2,
        0.5,
        sw(10.0, 1.0),
        sw(0.062, 0.0169),
    );
    assert!(matches!(r, Err(Error::Shape(_))), "got {r:?}");
}

#[test]
fn try_count_pyannote_rejects_overflow() {
    let segs: Vec<f64> = vec![0.0; 0];
    let r = try_count_pyannote(
        &segs,
        1 << 30,
        1 << 30,
        1 << 30,
        0.5,
        sw(10.0, 1.0),
        sw(0.062, 0.0169),
    );
    assert!(matches!(r, Err(Error::Shape(_))), "got {r:?}");
}

#[test]
fn try_count_pyannote_rejects_zero_num_chunks() {
    let r = try_count_pyannote(
        &[],
        0,
        4,
        2,
        0.5,
        sw(10.0, 1.0),
        sw(0.062, 0.0169),
    );
    assert!(matches!(r, Err(Error::Shape(_))), "got {r:?}");
}

#[test]
fn try_count_pyannote_rejects_zero_num_frames_per_chunk() {
    let r = try_count_pyannote(
        &[],
        3,
        0,
        2,
        0.5,
        sw(10.0, 1.0),
        sw(0.062, 0.0169),
    );
    assert!(matches!(r, Err(Error::Shape(_))), "got {r:?}");
}

#[test]
fn try_count_pyannote_rejects_zero_num_speakers() {
    let r = try_count_pyannote(
        &[],
        3,
        4,
        0,
        0.5,
        sw(10.0, 1.0),
        sw(0.062, 0.0169),
    );
    assert!(matches!(r, Err(Error::Shape(_))), "got {r:?}");
}

#[test]
fn try_count_pyannote_rejects_zero_frame_step() {
    let segs: Vec<f64> = vec![0.0; 24];
    let r = try_count_pyannote(
        &segs,
        3,
        4,
        2,
        0.5,
        sw(10.0, 1.0),
        sw(0.062, 0.0),
    );
    assert!(matches!(r, Err(Error::Shape(_))), "got {r:?}");
}

#[test]
fn try_count_pyannote_rejects_negative_frame_step() {
    let segs: Vec<f64> = vec![0.0; 24];
    let r = try_count_pyannote(
        &segs,
        3,
        4,
        2,
        0.5,
        sw(10.0, 1.0),
        sw(0.062, -0.0169),
    );
    assert!(matches!(r, Err(Error::Shape(_))), "got {r:?}");
}

#[test]
fn try_count_pyannote_rejects_non_finite_onset() {
    let segs: Vec<f64> = vec![0.0; 24];
    let r = try_count_pyannote(
        &segs,
        3,
        4,
        2,
        f64::NAN,
        sw(10.0, 1.0),
        sw(0.062, 0.0169),
    );
    assert!(matches!(r, Err(Error::Shape(_))), "got {r:?}");
}

#[test]
fn try_count_pyannote_rejects_non_finite_chunk_duration() {
    let segs: Vec<f64> = vec![0.0; 24];
    let r = try_count_pyannote(
        &segs,
        3,
        4,
        2,
        0.5,
        sw(f64::INFINITY, 1.0),
        sw(0.062, 0.0169),
    );
    assert!(matches!(r, Err(Error::Shape(_))), "got {r:?}");
}

#[test]
fn try_num_output_frames_pyannote_rejects_overflow_geometry() {
    let r = try_num_output_frames_pyannote(1, 1.0e15, 1.0, 1.0e-15);
    assert!(
        matches!(r, Err(ShapeError::OutputFrameCountOverflow)),
        "got {r:?}"
    );
}

#[test]
fn try_count_pyannote_rejects_overflow_geometry() {
    let segs: Vec<f64> = vec![0.0; 8];
    let r = try_count_pyannote(
        &segs,
        1,
        4,
        2,
        0.5,
        sw(1.0e15, 1.0),
        sw(0.062, 1.0e-15),
    );
    assert!(
        matches!(r, Err(Error::Shape(ShapeError::OutputFrameCountOverflow))),
        "got {r:?}"
    );
}

#[test]
fn try_num_output_frames_pyannote_rejects_zero_num_chunks() {
    let r = try_num_output_frames_pyannote(0, 10.0, 1.0, 0.0169);
    assert!(matches!(r, Err(ShapeError::ZeroNumChunks)), "got {r:?}");
}

#[test]
fn try_num_output_frames_pyannote_rejects_zero_frame_step() {
    let r = try_num_output_frames_pyannote(3, 10.0, 1.0, 0.0);
    assert!(matches!(r, Err(ShapeError::InvalidFrameStep)), "got {r:?}");
}

#[test]
fn try_hamming_aggregate_rejects_zero_num_frames_per_chunk() {
    let r = try_hamming_aggregate(
        &[],
        3,
        0,
        1.0,
        0.0169,
        8,
    );
    assert!(
        matches!(
            r,
            Err(Error::Shape(ShapeError::HammingNumFramesPerChunkBelowTwo))
        ),
        "got {r:?}"
    );
}

#[test]
fn try_hamming_aggregate_rejects_single_frame_chunk() {
    let r = try_hamming_aggregate(
        &[0.5; 3],
        3,
        1,
        1.0,
        0.0169,
        8,
    );
    assert!(
        matches!(
            r,
            Err(Error::Shape(ShapeError::HammingNumFramesPerChunkBelowTwo))
        ),
        "got {r:?}"
    );
    if let Ok(v) = &r {
        assert!(
            v.iter().all(|x| !x.is_nan()),
            "hamming aggregate emitted NaN for 1-frame chunk: {v:?}"
        );
    }
}

#[test]
fn try_hamming_aggregate_rejects_zero_frame_step() {
    let r = try_hamming_aggregate(
        &[0.0; 12],
        3,
        4,
        1.0,
        0.0,
        8,
    );
    assert!(matches!(r, Err(Error::Shape(_))), "got {r:?}");
}

#[test]
fn try_count_pyannote_rejects_nan_segmentation() {
    let mut segs: Vec<f64> = vec![0.5; 24];
    segs[7] = f64::NAN;
    let r = try_count_pyannote(
        &segs,
        3,
        4,
        2,
        0.5,
        sw(10.0, 1.0),
        sw(0.062, 0.0169),
    );
    assert!(
        matches!(r, Err(Error::Shape(ShapeError::NonFiniteSegmentations))),
        "got {r:?}"
    );
}

#[test]
fn try_count_pyannote_rejects_pos_inf_segmentation() {
    let mut segs: Vec<f64> = vec![0.5; 24];
    segs[0] = f64::INFINITY;
    let r = try_count_pyannote(
        &segs,
        3,
        4,
        2,
        0.5,
        sw(10.0, 1.0),
        sw(0.062, 0.0169),
    );
    assert!(
        matches!(r, Err(Error::Shape(ShapeError::NonFiniteSegmentations))),
        "got {r:?}"
    );
}

#[test]
fn try_count_pyannote_rejects_neg_inf_segmentation() {
    let mut segs: Vec<f64> = vec![0.5; 24];
    segs[15] = f64::NEG_INFINITY;
    let r = try_count_pyannote(
        &segs,
        3,
        4,
        2,
        0.5,
        sw(10.0, 1.0),
        sw(0.062, 0.0169),
    );
    assert!(
        matches!(r, Err(Error::Shape(ShapeError::NonFiniteSegmentations))),
        "got {r:?}"
    );
}

#[test]
fn try_hamming_aggregate_rejects_nan_per_chunk_value() {
    let mut vals: Vec<f64> = vec![0.5; 12];
    vals[5] = f64::NAN;
    let r = try_hamming_aggregate(
        &vals,
        3,
        4,
        1.0,
        0.0169,
        8,
    );
    assert!(
        matches!(r, Err(Error::Shape(ShapeError::NonFinitePerChunkValue))),
        "got {r:?}"
    );
}

#[test]
fn try_hamming_aggregate_rejects_inf_per_chunk_value() {
    let mut vals: Vec<f64> = vec![0.5; 12];
    vals[0] = f64::INFINITY;
    let r = try_hamming_aggregate(
        &vals,
        3,
        4,
        1.0,
        0.0169,
        8,
    );
    assert!(
        matches!(r, Err(Error::Shape(ShapeError::NonFinitePerChunkValue))),
        "got {r:?}"
    );
}

#[test]
fn try_hamming_aggregate_rejects_short_input() {
    let r = try_hamming_aggregate(
        &[0.0; 7],
        3,
        4,
        1.0,
        0.0169,
        100,
    );
    assert!(matches!(r, Err(Error::Shape(_))), "got {r:?}");
}

#[test]
fn try_hamming_aggregate_rejects_extreme_chunk_step_to_frame_step_ratio() {
    let per_chunk = vec![1.0_f64; 2 * 4];
    let r = try_hamming_aggregate(
        &per_chunk,
        2,
        4,
        f64::MAX,
        1.0,
        16,
    );
    assert!(
        matches!(
            r,
            Err(Error::Shape(ShapeError::HammingDerivedTimingOutOfRange))
        ),
        "got {r:?}"
    );
}

#[test]
fn try_hamming_aggregate_rejects_tiny_frame_step_makes_normalized_overflow_i64() {
    let per_chunk = vec![1.0_f64; 2 * 4];
    let r = try_hamming_aggregate(
        &per_chunk,
        2,
        4,
        1e150,
        1e-150,
        16,
    );
    assert!(
        matches!(
            r,
            Err(Error::Shape(ShapeError::HammingDerivedTimingOutOfRange))
        ),
        "got {r:?}"
    );
}

#[test]
fn try_hamming_aggregate_rejects_num_output_frames_above_max() {
    let per_chunk = vec![1.0_f64; 2];
    let r = try_hamming_aggregate(
        &per_chunk,
        1,
        2,
        1.0,
        0.0169,
        MAX_OUTPUT_FRAMES + 1,
    );
    assert!(
        matches!(
            r,
            Err(Error::Shape(ShapeError::OutputFrameCountAboveMax { got, max }))
                if got == MAX_OUTPUT_FRAMES + 1 && max == MAX_OUTPUT_FRAMES
        ),
        "got {r:?}"
    );
}

#[test]
fn try_hamming_aggregate_rejects_zero_num_output_frames() {
    let per_chunk = vec![0.0_f64; 1 * 2];
    let r = try_hamming_aggregate(
        &per_chunk,
        1,
        2,
        1.0,
        0.0169,
        0,
    );
    assert!(
        matches!(r, Err(Error::Shape(ShapeError::ZeroNumOutputFrames))),
        "got {r:?}"
    );
}

#[test]
fn try_hamming_aggregate_rejects_undersized_num_output_frames() {
    let per_chunk = vec![1.0_f64; 2 * 4];
    let r = try_hamming_aggregate(
        &per_chunk,
        2,
        4,
        1.0,
        0.5,
        5,
    );
    assert!(
        matches!(
            r,
            Err(Error::Shape(ShapeError::HammingOutputFrameCountTooSmall {
                got: 5,
                required: 6
            }))
        ),
        "got {r:?}"
    );
}

#[test]
fn try_num_output_frames_pyannote_rejects_above_max() {
    let r = try_num_output_frames_pyannote(1, 1e7, 1.0, 0.01);
    assert!(
        matches!(
            r,
            Err(ShapeError::OutputFrameCountAboveMax { got, max })
                if got > MAX_OUTPUT_FRAMES && max == MAX_OUTPUT_FRAMES
        ),
        "got {r:?}"
    );
}

#[test]
fn try_hamming_aggregate_rejects_zero_num_chunks() {
    let r = try_hamming_aggregate(
        &[],
        0,
        4,
        1.0,
        0.0169,
        16,
    );
    assert!(
        matches!(r, Err(Error::Shape(ShapeError::ZeroNumChunks))),
        "got {r:?}"
    );
}

#[test]
fn try_hamming_aggregate_rejects_huge_num_frames_per_chunk() {
    let huge = MAX_OUTPUT_FRAMES + 1;
    let per_chunk = vec![0.0_f64; 4];
    let r = try_hamming_aggregate(
        &per_chunk,
        1,
        huge,
        1.0,
        0.0169,
        16,
    );
    assert!(
        matches!(
            r,
            Err(Error::Shape(ShapeError::OutputFrameCountAboveMax { got, max }))
                if got == huge && max == MAX_OUTPUT_FRAMES
        ),
        "got {r:?}"
    );
}

/// Counts on native numbers: the mean number of active speakers over the chunks
/// that cover a frame, rounded to even.
fn reference_count(
    segs: &[f64],
    chunks: usize,
    frames: usize,
    speakers: usize,
    onset: f64,
    chunk_step: f64,
    frame_step: f64,
    outputs: usize,
) -> Vec<u8> {
    (0..outputs)
        .map(|t| {
            let (mut active, mut cover) = (0.0, 0.0);
            for c in 0..chunks {
                let start = (c as f64 * chunk_step / frame_step).round_ties_even() as usize;
                if start <= t && t < start + frames {
                    let base = (c * frames + t - start) * speakers;
                    cover += 1.0;
                    active += segs[base..base + speakers].iter().filter(|&&v| v >= onset).count()
                        as f64;
                }
            }
            if cover > 0.0 {
                (active / cover as f64).round_ties_even() as u8
            } else {
                0
            }
        })
        .collect()
}

#[test]
fn counts_are_rounded_means() {
    let (chunks, frames, speakers) = (4, 6, 3);
    let segs: Vec<f64> =
        (0..chunks * frames * speakers).map(|i| ((i * 37 + 11) % 100) as f64 / 100.0).collect();
    let tensor = try_count_pyannote(
        &segs,
        chunks,
        frames,
        speakers,
        0.5,
        sw(3.0, 1.0),
        sw(0.6, 0.5),
    )
    .unwrap();
    let n = try_num_output_frames_pyannote(chunks, 3.0, 1.0, 0.5).unwrap();
    assert_eq!(tensor.count().len(), n);
    assert_eq!(
        tensor.count_slice(),
        reference_count(&segs, chunks, frames, speakers, 0.5, 1.0, 0.5, n)
    );
    assert_eq!(tensor.frames_sw(), sw(0.6, 0.5));
    let (count, grid) = tensor.clone().into_parts();
    assert_eq!(*count, *tensor.count_slice());
    assert_eq!(grid, sw(0.6, 0.5));
}

#[test]
fn unanimous_chunks_are_counted_exactly() {
    let segs = vec![1.0; 3 * 4 * 2];
    let tensor =
        try_count_pyannote(&segs, 3, 4, 2, 0.5, sw(2.0, 1.0), sw(0.5, 0.5)).unwrap();
    let covered = 2 + 2 + 4;
    for (t, &c) in tensor.count_slice().iter().enumerate() {
        assert_eq!(c, if t < covered { 2 } else { 0 }, "frame {t}");
    }
}

#[test]
fn unchecked_variants_agree_with_the_checked_ones() {
    let segs = ds(&vec![1.0; 3 * 4 * 2]);
    let a = diaric::aggregate::count_pyannote(&segs, 3, 4, 2, d(0.5), sw(2.0, 1.0), sw(0.5, 0.5));
    let b = diaric::aggregate::try_count_pyannote(
        &segs, 3, 4, 2, d(0.5), sw(2.0, 1.0), sw(0.5, 0.5),
    );
    assert_eq!(a.count_slice(), b.unwrap().count_slice());
    let frames = diaric::aggregate::num_output_frames_pyannote(3, d(2.0), d(1.0), d(0.5));
    assert_eq!(Ok(frames), try_num_output_frames_pyannote(3, 2.0, 1.0, 0.5));
    let values = ds(&[1.0; 12]);
    let a = diaric::aggregate::hamming_aggregate(&values, 3, 4, d(1.0), d(0.5), 9, cosine);
    let b = try_hamming_aggregate(&[1.0; 12], 3, 4, 1.0, 0.5, 9).unwrap();
    assert_eq!(a, ds(&b));
}

#[test]
fn aggregates_are_window_weighted_sums() {
    let values: Vec<f64> = (0..12).map(|i| (i as f64 * 0.7).sin()).collect();
    let out = try_hamming_aggregate(&values, 3, 4, 1.0, 0.5, 10).unwrap();
    let weight = |n: usize| {
        0.54 - 0.46 * (2.0 * std::f64::consts::PI * n as f64 / 3.0).cos()
    };
    let mut want = vec![0.0; 10];
    for c in 0..3 {
        for n in 0..4 {
            want[2 * c + n] += values[c * 4 + n] * weight(n);
        }
    }
    assert_eq!(out, want);
}

#[test]
fn every_bad_count_input_has_its_error() {
    let segs = vec![0.0; 24];
    let shape = |onset: f64, chunks: SlidingWindow, frames: SlidingWindow| {
        match try_count_pyannote(&segs, 3, 4, 2, onset, chunks, frames) {
            Err(Error::Shape(e)) => e,
            other => panic!("expected an error, got {other:?}"),
        }
    };
    let good = sw(10.0, 1.0);
    let frames = sw(0.062, 0.0169);
    assert_eq!(shape(f64::NAN, good, frames), ShapeError::NonFiniteOnset);
    assert_eq!(shape(0.5, sw(-1.0, 1.0), frames), ShapeError::InvalidChunkDuration);
    assert_eq!(shape(0.5, sw(10.0, 0.0), frames), ShapeError::InvalidChunkStep);
    assert_eq!(shape(0.5, good, sw(f64::NAN, 0.0169)), ShapeError::InvalidFrameDuration);
    assert_eq!(shape(0.5, good, sw(0.062, -1.0)), ShapeError::InvalidFrameStep);
}

#[test]
fn counts_are_at_most_the_speakers() {
    let segs: Vec<f64> = (0..5 * 7 * 3).map(|i| ((i * 53 + 7) % 97) as f64 / 97.0).collect();
    let tensor = try_count_pyannote(&segs, 5, 7, 3, 0.25, sw(3.5, 1.0), sw(0.5, 0.5)).unwrap();
    assert!(tensor.count_slice().iter().all(|&c| c <= 3));
}

#[test]
fn chunks_start_one_after_the_other() {
    let start = |c| diaric::aggregate::count::chunk_start_frame(c, d(1.0), d(0.016875));
    for c in 0..500 {
        assert_eq!(start(c), (c as f64 * 1.0 / 0.016875).round_ties_even() as i64);
        assert!(start(c) <= start(c + 1));
    }
}

#[test]
fn counts_do_not_rise_with_the_onset() {
    let scores: Vec<f64> = (0..4 * 6 * 3).map(|i| ((i * 37) % 100) as f64 / 100.0).collect();
    let count = |onset: f64| {
        try_count_pyannote(&scores, 4, 6, 3, onset, sw(6.0, 2.0), sw(1.0, 1.0))
            .unwrap()
            .count_slice()
            .to_vec()
    };
    let mut before = count(0.0);
    assert!(before.iter().all(|&n| n <= 3));
    for step in 1..=20 {
        let now = count(step as f64 / 20.0);
        assert_eq!(now.len(), before.len());
        assert!(now.iter().zip(&before).all(|(a, b)| a <= b));
        before = now;
    }
    assert!(before.iter().all(|&n| n == 0));
}

#[test]
fn a_longer_hamming_output_only_appends_zeros() {
    let values: Vec<f64> = (0..12).map(|i| i as f64 - 4.0).collect();
    let short = try_hamming_aggregate(&values, 3, 4, 2.0, 1.0, 8).unwrap();
    let long = try_hamming_aggregate(&values, 3, 4, 2.0, 1.0, 13).unwrap();
    assert_eq!(long[..8], short[..]);
    assert_eq!(long[8..], [0.0; 5]);
    assert!(try_hamming_aggregate(&values, 3, 4, 2.0, 1.0, 7).is_err());
}

#[test]
fn the_order_of_speakers_is_of_no_account() {
    let (chunks, frames, speakers) = (4usize, 6usize, 3usize);
    let scores: Vec<f64> =
        (0..chunks * frames * speakers).map(|i| ((i * 37) % 100) as f64 / 100.0).collect();
    let orders = [[0, 1, 2], [2, 0, 1], [1, 0, 2], [2, 1, 0]];
    let mut permuted = scores.clone();
    for c in 0..chunks {
        for f in 0..frames {
            for s in 0..speakers {
                let base = (c * frames + f) * speakers;
                permuted[base + s] = scores[base + orders[c][s]];
            }
        }
    }
    assert_ne!(permuted, scores);
    let count = |values: &[f64], onset: f64| {
        try_count_pyannote(values, chunks, frames, speakers, onset, sw(6.0, 2.0), sw(1.0, 1.0))
            .unwrap()
            .count_slice()
            .to_vec()
    };
    for onset in [0.1, 0.35, 0.5, 0.8] {
        assert_eq!(count(&permuted, onset), count(&scores, onset));
    }
}
