//! The offline flow.

use diaric::cluster::hungarian::ChunkAssignment;
use diaric::embed::EMBEDDING_DIM;
use diaric::float::{Double, Single};
use diaric::offline::algo::{count_clusters, AssignRequest, ReconstructRequest, SpansRequest};
use diaric::offline::filter::filter_embeddings;
use diaric::offline::{
    Error, OfflineInput, OfflineOutput, ReconstructError, ReconstructShapeError, ShapeError,
};
use diaric::window::SlidingWindow;

const MAX_SPEAKER_SLOTS: usize = 3;

fn d(x: f64) -> Double {
    Double::from_bits(x.to_bits())
}

fn single(x: f32) -> Single {
    Single::from_bits(x.to_bits())
}

fn sw(duration: f64, step: f64) -> SlidingWindow {
    SlidingWindow::new(d(0.0), d(duration), d(step))
}

type Outcome = Result<OfflineOutput<(usize, usize)>, Error<String, String, String>>;

fn project(raw: &[Single]) -> Result<Vec<Double>, String> {
    assert_eq!(raw.len(), EMBEDDING_DIM);
    Ok(vec![raw[0].to_double(), raw[1].to_double()])
}

fn assign(request: AssignRequest) -> Result<Vec<ChunkAssignment>, String> {
    Ok(vec![[0, 1, -2]; request.num_chunks])
}

fn reconstruct(request: ReconstructRequest) -> Result<Vec<Single>, String> {
    Ok(vec![single(request.num_output_frames as f32); request.num_output_frames])
}

fn to_spans(request: SpansRequest) -> Result<Vec<(usize, usize)>, String> {
    Ok(vec![(request.num_frames, request.num_clusters)])
}

fn diarize_offline(input: &OfflineInput) -> Outcome {
    diaric::offline::diarize_offline(
        input,
        &[d(1.0), d(2.0)],
        project,
        assign,
        reconstruct,
        to_spans,
    )
}

fn build_input<'a>(
    raw: &'a [Single],
    seg: &'a [Double],
    count: &'a [u8],
    chunks_sw: SlidingWindow,
    frames_sw: SlidingWindow,
    min_duration_off: f64,
    smoothing_epsilon: Option<f32>,
) -> OfflineInput<'a> {
    OfflineInput {
        raw_embeddings: raw,
        num_chunks: 1,
        num_speakers: 3,
        segmentations: seg,
        num_frames_per_chunk: 4,
        count,
        num_output_frames: 4,
        chunks_sw,
        frames_sw,
        threshold: d(0.6),
        fa: d(0.07),
        fb: d(0.8),
        max_iters: 20,
        min_duration_off: d(min_duration_off),
        smoothing_epsilon: smoothing_epsilon.map(single),
    }
}

fn run_with(min_duration_off: f64, smoothing_epsilon: Option<f32>) -> Outcome {
    let raw = vec![single(0.0); 1 * 3 * EMBEDDING_DIM];
    let seg = vec![d(0.0); 1 * 4 * 3];
    let count = vec![0_u8; 4];
    let input = build_input(
        &raw,
        &seg,
        &count,
        sw(10.0, 1.0),
        sw(0.0619375, 0.016875),
        min_duration_off,
        smoothing_epsilon,
    );
    diarize_offline(&input)
}

#[test]
fn diarize_offline_rejects_nan_min_duration_off() {
    let r = run_with(f64::NAN, None);
    assert!(
        matches!(r, Err(Error::Shape(ShapeError::MinDurationOffOutOfRange { .. }))),
        "got {r:?}"
    );
}

#[test]
fn diarize_offline_rejects_inf_min_duration_off() {
    let r = run_with(f64::INFINITY, None);
    assert!(
        matches!(r, Err(Error::Shape(ShapeError::MinDurationOffOutOfRange { .. }))),
        "got {r:?}"
    );
}

#[test]
fn diarize_offline_rejects_negative_min_duration_off() {
    let r = run_with(-0.5, None);
    assert!(
        matches!(r, Err(Error::Shape(ShapeError::MinDurationOffOutOfRange { .. }))),
        "got {r:?}"
    );
}

#[test]
fn diarize_offline_rejects_nan_smoothing_epsilon() {
    let r = run_with(0.0, Some(f32::NAN));
    assert!(
        matches!(r, Err(Error::Shape(ShapeError::SmoothingEpsilonOutOfRange { .. }))),
        "got {r:?}"
    );
}

#[test]
fn diarize_offline_rejects_inf_smoothing_epsilon() {
    let r = run_with(0.0, Some(f32::INFINITY));
    assert!(
        matches!(r, Err(Error::Shape(ShapeError::SmoothingEpsilonOutOfRange { .. }))),
        "got {r:?}"
    );
}

#[test]
fn diarize_offline_rejects_negative_smoothing_epsilon() {
    let r = run_with(0.0, Some(-0.001));
    assert!(
        matches!(r, Err(Error::Shape(ShapeError::SmoothingEpsilonOutOfRange { .. }))),
        "got {r:?}"
    );
}

fn run_counts(bad_count: &[u8], num_output_frames: usize) -> Outcome {
    let num_chunks = 1;
    let num_frames_per_chunk = 4;
    let raw = vec![single(0.5); num_chunks * MAX_SPEAKER_SLOTS * EMBEDDING_DIM];
    let seg = vec![d(0.5); num_chunks * num_frames_per_chunk * MAX_SPEAKER_SLOTS];
    let input = OfflineInput::new(
        &raw,
        num_chunks,
        MAX_SPEAKER_SLOTS,
        &seg,
        num_frames_per_chunk,
        bad_count,
        num_output_frames,
        sw(10.0, 1.0),
        sw(0.0167, 0.0167),
    );
    diarize_offline(&input)
}

#[test]
fn rejects_count_length_mismatch_before_clustering() {
    let r = run_counts(&[], 64);
    assert!(
        matches!(
            r,
            Err(Error::Reconstruct(ReconstructError::Shape(
                ReconstructShapeError::CountLenMismatch
            )))
        ),
        "expected Reconstruct(Shape(CountLenMismatch)), got {r:?}"
    );
}

#[test]
fn rejects_zero_num_output_frames_before_clustering() {
    let r = run_counts(&[], 0);
    assert!(
        matches!(
            r,
            Err(Error::Reconstruct(ReconstructError::Shape(
                ReconstructShapeError::ZeroNumOutputFrames
            )))
        ),
        "expected Reconstruct(Shape(ZeroNumOutputFrames)), got {r:?}"
    );
}

#[test]
fn rejects_count_above_max_before_clustering() {
    let num_output_frames = 64;
    let mut bad_count: Vec<u8> = vec![1; num_output_frames];
    bad_count[5] = u8::MAX;
    let r = run_counts(&bad_count, num_output_frames);
    assert!(
        matches!(
            r,
            Err(Error::Reconstruct(ReconstructError::Shape(ReconstructShapeError::CountAboveMax)))
        ),
        "expected Reconstruct(Shape(CountAboveMax)), got {r:?}"
    );
}

/// Two chunks of five frames with two speakers. Speaker 0 is alone in three frames
/// of the first chunk, speaker 1 in one frame of the second.
fn two_chunks() -> (Vec<Single>, Vec<Double>) {
    let raw = (0..2 * 2 * EMBEDDING_DIM).map(|i| single(i as f32)).collect();
    let seg = [
        0.9, 0.0, 0.8, 0.0, 0.7, 0.0, 0.6, 0.6, 0.0, 0.0, //
        0.5, 0.5, 0.0, 1.0, 0.5, 0.5, 0.5, 0.5, 0.5, 0.5,
    ];
    (raw, seg.map(d).to_vec())
}

#[test]
fn pairs_heard_alone_long_enough_train() {
    let (_, seg) = two_chunks();
    assert_eq!(filter_embeddings(&seg, 2, 5, 2), (vec![0, 1], vec![0, 1]));
    let mut quieter = seg.clone();
    quieter[13] = d(0.99);
    assert_eq!(filter_embeddings(&quieter, 2, 5, 2), (vec![0], vec![0]));
}

#[test]
fn stages_get_what_the_stages_before_them_gave() {
    let (raw, seg) = two_chunks();
    let count = [0u8, 1, 2, 5, 1, 0, 0];
    let input =
        OfflineInput::new(&raw, 2, 2, &seg, 5, &count, 7, sw(5.0, 1.0), sw(1.0, 0.5))
            .with_threshold(d(0.7))
            .with_fa(d(0.1))
            .with_fb(d(0.2))
            .with_max_iters(3)
            .with_min_duration_off(d(0.25))
            .with_smoothing_epsilon(Some(single(0.125)));
    let r = diaric::offline::diarize_offline(
        &input,
        &[d(1.0), d(2.0)],
        project,
        |q: AssignRequest| {
            assert_eq!(q.embeddings.len(), raw.len());
            assert!(q.embeddings.iter().zip(&raw).all(|(x, y)| *x == y.to_double()));
            assert_eq!((q.num_chunks, q.num_speakers, q.num_frames_per_chunk), (2, 2, 5));
            assert_eq!((q.embed_dim, q.plda_dim), (EMBEDDING_DIM, 2));
            assert_eq!(q.post_plda, [0.0, 1.0, 768.0, 769.0].map(d));
            assert_eq!((q.train_chunk_idx, q.train_speaker_idx), (&[0, 1][..], &[0, 1][..]));
            assert_eq!((q.threshold, q.fa, q.fb, q.max_iters), (d(0.7), d(0.1), d(0.2), 3));
            Ok::<_, String>(vec![[4, -2, -2], [0, 1, -2]])
        },
        |q: ReconstructRequest| {
            assert_eq!(q.hard_clusters, [[4, -2, -2], [0, 1, -2]]);
            assert_eq!(q.count, count);
            assert_eq!(q.smoothing_epsilon, Some(single(0.125)));
            Ok::<_, String>(vec![single(2.5); 3])
        },
        |q: SpansRequest| {
            assert_eq!(q.grid, [single(2.5); 3]);
            assert_eq!((q.num_frames, q.num_clusters), (7, 5));
            assert_eq!(q.min_duration_off, d(0.25));
            Ok(vec!['x'])
        },
    );
    let out = r.unwrap();
    assert_eq!(out.hard_clusters_slice(), [[4, -2, -2], [0, 1, -2]]);
    assert_eq!(out.discrete_diarization_slice(), [single(2.5); 3]);
    assert_eq!(out.num_clusters(), 5);
    assert_eq!(out.spans_slice(), ['x']);
    assert_eq!(*out.hard_clusters(), *out.hard_clusters_slice());
    assert_eq!(*out.discrete_diarization(), *out.discrete_diarization_slice());
    assert_eq!(*out.spans(), *out.spans_slice());
}

#[test]
fn a_failing_stage_ends_the_run() {
    let (raw, seg) = two_chunks();
    let input = OfflineInput::new(&raw, 2, 2, &seg, 5, &[1; 3], 3, sw(5.0, 1.0), sw(1.0, 0.5));
    let phi = [d(1.0), d(2.0)];
    let r: Outcome = diaric::offline::diarize_offline(
        &input,
        &phi,
        |_: &[Single]| Err("p".to_string()),
        assign,
        reconstruct,
        to_spans,
    );
    assert!(matches!(r, Err(Error::Plda(ref e)) if e == "p"), "got {r:?}");
    let r: Outcome = diaric::offline::diarize_offline(
        &input,
        &phi,
        project,
        |_: AssignRequest| Err("a".to_string()),
        reconstruct,
        to_spans,
    );
    assert!(matches!(r, Err(Error::Pipeline(ref e)) if e == "a"), "got {r:?}");
    let r: Outcome = diaric::offline::diarize_offline(
        &input,
        &phi,
        project,
        assign,
        |_: ReconstructRequest| Err("r".to_string()),
        to_spans,
    );
    assert!(
        matches!(r, Err(Error::Reconstruct(ReconstructError::Stage(ref e))) if e == "r"),
        "got {r:?}"
    );
    let r: Outcome = diaric::offline::diarize_offline(
        &input,
        &phi,
        project,
        assign,
        reconstruct,
        |_: SpansRequest| Err("s".to_string()),
    );
    assert!(
        matches!(r, Err(Error::Reconstruct(ReconstructError::Stage(ref e))) if e == "s"),
        "got {r:?}"
    );
}

#[test]
fn every_bad_shape_has_its_error() {
    let (raw, seg) = two_chunks();
    let shape = |chunks, speakers, frames, raw: &[Single], seg: &[Double]| {
        let input =
            OfflineInput::new(raw, chunks, speakers, seg, frames, &[1], 1, sw(5.0, 1.0), sw(1.0, 0.5));
        match diarize_offline(&input) {
            Err(Error::Shape(e)) => e,
            other => panic!("expected a shape error, got {other:?}"),
        }
    };
    assert_eq!(shape(0, 2, 5, &raw, &seg), ShapeError::ZeroNumChunks);
    assert_eq!(shape(2, 0, 5, &raw, &seg), ShapeError::ZeroNumSpeakers);
    assert_eq!(shape(2, 2, 0, &raw, &seg), ShapeError::ZeroNumFramesPerChunk);
    assert_eq!(shape(1 << 60, 2, 5, &raw, &seg), ShapeError::RawEmbeddingsOverflow);
    assert_eq!(shape(3, 2, 5, &raw, &seg), ShapeError::RawEmbeddingsLenMismatch);
    assert_eq!(shape(2, 2, 1 << 63, &raw, &seg), ShapeError::SegmentationsOverflow);
    assert_eq!(shape(2, 2, 6, &raw, &seg), ShapeError::SegmentationsLenMismatch);
}

#[test]
fn cluster_columns_cover_labels_and_counts() {
    assert_eq!(count_clusters(&[], &[]), 1);
    assert_eq!(count_clusters(&[[-2, -2, -2]], &[0]), 1);
    assert_eq!(count_clusters(&[[0, 3, -2], [1, 1, 1]], &[2]), 4);
    assert_eq!(count_clusters(&[[0, 3, -2]], &[7, 2]), 7);
}

#[test]
fn inputs_keep_what_is_set() {
    let (raw, seg) = two_chunks();
    let count = [1u8; 3];
    let input = OfflineInput::new(&raw, 2, 2, &seg, 5, &count, 3, sw(5.0, 1.0), sw(1.0, 0.5));
    assert_eq!(input.raw_embeddings(), &raw[..]);
    assert_eq!((input.num_chunks(), input.num_speakers()), (2, 2));
    assert_eq!(input.segmentations(), &seg[..]);
    assert_eq!((input.num_frames_per_chunk(), input.num_output_frames()), (5, 3));
    assert_eq!(input.count(), count);
    assert_eq!((input.chunks_sw(), input.frames_sw()), (sw(5.0, 1.0), sw(1.0, 0.5)));
    assert_eq!((input.threshold(), input.fa(), input.fb()), (d(0.6), d(0.07), d(0.8)));
    assert_eq!(input.max_iters(), 20);
    assert_eq!(input.min_duration_off(), d(0.0));
    assert_eq!(input.smoothing_epsilon(), None);
}

#[test]
fn the_first_failing_projection_is_reported() {
    let (raw, seg) = two_chunks();
    let input = OfflineInput::new(&raw, 2, 2, &seg, 5, &[1; 3], 3, sw(5.0, 1.0), sw(1.0, 0.5));
    let phi = [d(1.0), d(2.0)];
    let fail_from = |least: f32| {
        let r: Outcome = diaric::offline::diarize_offline(
            &input,
            &phi,
            move |raw: &[Single]| {
                if f32::from_bits(raw[0].to_bits()) >= least {
                    Err(format!("{}", f32::from_bits(raw[0].to_bits())))
                } else {
                    project(raw)
                }
            },
            assign,
            reconstruct,
            to_spans,
        );
        match r {
            Err(Error::Plda(e)) => e,
            other => panic!("got {other:?}"),
        }
    };
    assert_eq!(fail_from(0.0), "0");
    assert_eq!(fail_from(1.0), "768");
}
