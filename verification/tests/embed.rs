//! Embeddings and their metadata.

use core::time::Duration;
use diaric::embed::{
    Embedding, EmbedModelOptions, EmbeddingMeta, EmbeddingResult, OptimizationLevel,
    EMBEDDING_DIM, NORM_EPSILON,
};
use diaric::float::Single;

fn single(x: f32) -> Single {
    Single::from_bits(x.to_bits())
}

fn native(x: Single) -> f32 {
    f32::from_bits(x.to_bits())
}

fn normalize_from(v: [f32; EMBEDDING_DIM]) -> Option<Embedding> {
    Embedding::normalize_from(v.map(single))
}

fn as_array(e: &Embedding) -> [f32; EMBEDDING_DIM] {
    e.as_array().map(native)
}

fn similarity(a: &Embedding, b: &Embedding) -> f32 {
    native(a.similarity(b))
}

fn cosine_similarity(a: &Embedding, b: &Embedding) -> f32 {
    native(diaric::embed::cosine_similarity(a, b))
}

#[test]
fn normalize_from_zero_returns_none() {
    assert!(normalize_from([0.0; EMBEDDING_DIM]).is_none());
}

#[test]
fn normalize_from_below_epsilon_returns_none() {
    let mut tiny = [0.0; EMBEDDING_DIM];
    tiny[0] = 1e-13;
    assert!(normalize_from(tiny).is_none());
}

#[test]
fn normalize_from_nan_returns_none() {
    let mut v = [0.5f32; EMBEDDING_DIM];
    v[0] = f32::NAN;
    assert!(normalize_from(v).is_none());
}

#[test]
fn normalize_from_positive_infinity_returns_none() {
    let mut v = [0.5f32; EMBEDDING_DIM];
    v[0] = f32::INFINITY;
    assert!(normalize_from(v).is_none());
}

#[test]
fn normalize_from_negative_infinity_returns_none() {
    let mut v = [0.5f32; EMBEDDING_DIM];
    v[0] = f32::NEG_INFINITY;
    assert!(normalize_from(v).is_none());
}

#[test]
fn normalize_from_mixed_inf_returns_none() {
    let mut v = [0.0f32; EMBEDDING_DIM];
    v[0] = f32::INFINITY;
    v[1] = f32::NEG_INFINITY;
    assert!(normalize_from(v).is_none());
}

#[test]
fn normalize_from_unit_vector_round_trips() {
    let mut v = [0.0; EMBEDDING_DIM];
    v[0] = 1.0;
    let e = normalize_from(v).unwrap();
    let n2: f32 = as_array(&e).iter().map(|x| x * x).sum();
    assert!((n2 - 1.0).abs() < 1e-6, "||result|| ≈ 1, got n2 = {n2}");
    assert!((as_array(&e)[0] - 1.0).abs() < 1e-6);
}

#[test]
fn normalize_from_arbitrary_vector_norms_to_one() {
    let mut raw = [0.0; EMBEDDING_DIM];
    for (i, v) in raw.iter_mut().enumerate() {
        *v = (i as f32) * 0.01 + 0.1;
    }
    let e = normalize_from(raw).unwrap();
    let n2: f32 = as_array(&e).iter().map(|x| x * x).sum();
    assert!((n2 - 1.0).abs() < 1e-5, "n2 = {n2}");
}

#[test]
fn similarity_self_is_one() {
    let mut v = [0.0; EMBEDDING_DIM];
    v[0] = 1.0;
    let e = normalize_from(v).unwrap();
    assert!((similarity(&e, &e) - 1.0).abs() < 1e-6);
}

#[test]
fn similarity_orthogonal_is_zero() {
    let mut a = [0.0; EMBEDDING_DIM];
    a[0] = 1.0;
    let mut b = [0.0; EMBEDDING_DIM];
    b[1] = 1.0;
    let ea = normalize_from(a).unwrap();
    let eb = normalize_from(b).unwrap();
    assert!(similarity(&ea, &eb).abs() < 1e-6);
}

#[test]
fn similarity_antipodal_is_negative_one() {
    let mut a = [0.0; EMBEDDING_DIM];
    a[0] = 1.0;
    let mut b = [0.0; EMBEDDING_DIM];
    b[0] = -1.0;
    let ea = normalize_from(a).unwrap();
    let eb = normalize_from(b).unwrap();
    assert!((similarity(&ea, &eb) + 1.0).abs() < 1e-6);
}

#[test]
fn similarity_symmetric() {
    let mut a = [0.0; EMBEDDING_DIM];
    a[0] = 0.6;
    a[1] = 0.8;
    let mut b = [0.0; EMBEDDING_DIM];
    b[0] = 0.8;
    b[1] = 0.6;
    let ea = normalize_from(a).unwrap();
    let eb = normalize_from(b).unwrap();
    assert!((similarity(&ea, &eb) - similarity(&eb, &ea)).abs() < 1e-7);
}

#[test]
fn cosine_similarity_matches_method() {
    let mut a = [0.0; EMBEDDING_DIM];
    let mut b = [0.0; EMBEDDING_DIM];
    for (i, (av, bv)) in a.iter_mut().zip(b.iter_mut()).enumerate() {
        *av = (i as f32 * 0.01).sin();
        *bv = (i as f32 * 0.013).cos();
    }
    let ea = normalize_from(a).unwrap();
    let eb = normalize_from(b).unwrap();
    assert_eq!(cosine_similarity(&ea, &eb), similarity(&ea, &eb));
}

#[test]
fn embedding_meta_unit_default() {
    let m: EmbeddingMeta = EmbeddingMeta::default();
    assert_eq!(m.audio_id(), &());
    assert_eq!(m.track_id(), &());
    assert_eq!(m.correlation_id(), None);
}

#[test]
fn embedding_meta_typed() {
    let m = EmbeddingMeta::new("audio_42".to_string(), 7u32);
    assert_eq!(m.audio_id(), "audio_42");
    assert_eq!(m.track_id(), &7u32);
    assert_eq!(m.correlation_id(), None);
}

#[test]
fn embedding_meta_with_correlation_id() {
    let m = EmbeddingMeta::new((), ()).with_correlation_id(123);
    assert_eq!(m.correlation_id(), Some(123));
}

#[test]
fn embedding_result_unit_meta_construction() {
    let mut v = [0.0; EMBEDDING_DIM];
    v[0] = 1.0;
    let e = normalize_from(v).unwrap();
    let r: EmbeddingResult = EmbeddingResult::new(
        e,
        Duration::from_millis(1500),
        1,
        single(1.0),
        EmbeddingMeta::default(),
    );
    assert_eq!(r.embedding(), &e);
    assert_eq!(r.windows_used(), 1);
    assert!((native(r.total_weight()) - 1.0).abs() < 1e-7);
}

#[test]
fn embedding_result_typed_meta() {
    let mut v = [0.0; EMBEDDING_DIM];
    v[0] = 1.0;
    let e = normalize_from(v).unwrap();
    let r = EmbeddingResult::new(
        e,
        Duration::from_millis(2000),
        2,
        single(1.5),
        EmbeddingMeta::new("clip_3".to_string(), 9u32).with_correlation_id(42),
    );
    assert_eq!(r.audio_id(), "clip_3");
    assert_eq!(r.track_id(), &9u32);
    assert_eq!(r.correlation_id(), Some(42));
}

#[test]
fn norm_epsilon_is_a_trillionth() {
    assert_eq!(f32::from_bits(NORM_EPSILON), 1e-12);
}

/// Vectors with components of very different sizes.
fn samples() -> Vec<[f32; EMBEDDING_DIM]> {
    let mut all = Vec::new();
    for scale in [1e-11f32, 1e-3, 1.0, 1e10, 1e30] {
        let mut v = [0.0f32; EMBEDDING_DIM];
        for (i, x) in v.iter_mut().enumerate() {
            *x = (i as f32 * 0.37 + scale.log10()).sin() * scale;
        }
        all.push(v);
    }
    all
}

#[test]
fn normalize_from_divides_by_the_rounded_norm() {
    for v in samples() {
        let sum: f64 = v.iter().map(|&x| x as f64 * x as f64).sum();
        let norm = sum.sqrt() as f32;
        let e = normalize_from(v).unwrap();
        assert_eq!(as_array(&e), v.map(|x| x / norm));
    }
}

#[test]
fn similarity_adds_up_in_order() {
    let all: Vec<Embedding> = samples().into_iter().map(|v| normalize_from(v).unwrap()).collect();
    for a in &all {
        for b in &all {
            let (x, y) = (as_array(a), as_array(b));
            let sum: f32 = x.iter().zip(&y).map(|(p, q)| p * q).sum();
            assert_eq!(similarity(a, b).to_bits(), sum.to_bits());
        }
    }
}

#[test]
fn components_of_embeddings_are_at_most_one() {
    for v in samples() {
        let e = normalize_from(v).unwrap();
        assert!(as_array(&e).iter().all(|x| x.abs() <= 1.0));
    }
}

#[test]
fn embeddings_pass_the_check_of_clustering() {
    let all: Vec<Embedding> = samples().into_iter().map(|v| normalize_from(v).unwrap()).collect();
    let n = diaric::cluster::offline::validate_offline_input(&all, None);
    assert_eq!(n.ok(), Some(all.len()));
}

#[test]
fn similarity_is_symmetric_to_the_last_bit() {
    let all: Vec<Embedding> = samples().into_iter().map(|v| normalize_from(v).unwrap()).collect();
    for a in &all {
        for b in &all {
            assert_eq!(a.similarity(b), b.similarity(a));
        }
    }
}

#[test]
fn slices_and_arrays_hold_the_same() {
    let e = normalize_from(samples()[2]).unwrap();
    assert_eq!(e.as_slice(), e.as_array().as_slice());
}

#[test]
fn results_clone_with_their_metadata() {
    let e = normalize_from(samples()[2]).unwrap();
    let meta = EmbeddingMeta::new(3u8, 4u8).with_correlation_id(5);
    let r = EmbeddingResult::new(e, Duration::from_millis(20), 6, single(0.5), meta).clone();
    assert_eq!(r.source_duration(), Duration::from_millis(20));
    assert_eq!(r.windows_used(), 6);
    assert_eq!(native(r.total_weight()), 0.5);
    assert_eq!((*r.audio_id(), *r.track_id(), r.correlation_id()), (3, 4, Some(5)));
}

#[test]
fn model_options_default_to_repeatable_runs() {
    let (level, providers, intra, inter) = EmbedModelOptions::<u8>::new().into_parts();
    assert_eq!(level, OptimizationLevel::Disable);
    assert!(providers.is_empty());
    assert_eq!((intra, inter), (1, 1));
}

#[test]
fn model_options_keep_what_is_set() {
    let mut opts = EmbedModelOptions::new()
        .with_optimization_level(OptimizationLevel::Level2)
        .with_providers(vec!["a", "b"])
        .with_intra_threads(3)
        .with_inter_threads(4);
    opts.set_intra_threads(5).set_inter_threads(6);
    let (level, providers, intra, inter) = opts.into_parts();
    assert_eq!(level, OptimizationLevel::Level2);
    assert_eq!(providers, vec!["a", "b"]);
    assert_eq!((intra, inter), (5, 6));
    let mut opts = EmbedModelOptions::new();
    opts.set_optimization_level(OptimizationLevel::Level3).set_providers(vec![7u8]);
    let (level, providers, _, _) = opts.into_parts();
    assert_eq!(level, OptimizationLevel::Level3);
    assert_eq!(providers, vec![7]);
}

#[test]
fn embeddings_have_unit_norm() {
    for v in samples() {
        let e = normalize_from(v).unwrap();
        let sum: f64 = as_array(&e).iter().map(|&x| x as f64 * x as f64).sum();
        let norm = sum.sqrt() as f32;
        assert!((norm as f64 - 1.0).abs() <= 1.0 / 1_048_576.0, "norm {norm}");
    }
}

#[test]
fn cloned_results_keep_every_id() {
    let e = normalize_from([1.0; EMBEDDING_DIM]).unwrap();
    let meta = EmbeddingMeta::new("call".to_string(), 7u8).with_correlation_id(42);
    let r = EmbeddingResult::new(e, Duration::from_secs(2), 1, single(1.0), meta);
    let c = r.clone();
    assert_eq!(c.audio_id(), "call");
    assert_eq!(*c.track_id(), 7);
    assert_eq!(c.correlation_id(), Some(42));
    assert_eq!(c.embedding(), r.embedding());
}

#[test]
fn similarity_exceeds_one_by_rounding_only() {
    let all: Vec<Embedding> = samples().into_iter().map(|v| normalize_from(v).unwrap()).collect();
    for a in &all {
        for b in &all {
            assert!(similarity(a, b).abs() <= 1.0 + 1.0 / 16_384.0);
        }
        assert!((similarity(a, a) - 1.0).abs() <= 1.0 / 16_384.0);
    }
}
