//! Offline clustering and its two methods.

use diaric::cluster::offline::validate_offline_input;
use diaric::cluster::spectral::Eigen;
use diaric::cluster::{
    Error, Linkage, OfflineClusterOptions, OfflineMethod, MAX_OFFLINE_INPUT,
};
use nalgebra::DMatrix;
use diaric::embed::{Embedding, EMBEDDING_DIM};
use diaric::float::{Double, Single};
use diaric::matrix::DoubleMatrix;

fn d(x: f64) -> Double {
    Double::from_bits(x.to_bits())
}

fn f(x: Double) -> f64 {
    f64::from_bits(x.to_bits())
}

fn single(x: f32) -> Single {
    Single::from_bits(x.to_bits())
}

fn normalize_from(v: [f32; EMBEDDING_DIM]) -> Option<Embedding> {
    Embedding::normalize_from(v.map(single))
}

fn to_matrix(m: &DMatrix<f64>) -> DoubleMatrix {
    let mut cells = Vec::new();
    for i in 0..m.nrows() {
        for j in 0..m.ncols() {
            cells.push(d(m[(i, j)]));
        }
    }
    DoubleMatrix::from_row_vec(m.nrows(), m.ncols(), cells)
}

fn from_matrix(m: &DoubleMatrix) -> DMatrix<f64> {
    let (rows, columns) = m.shape();
    DMatrix::from_fn(rows, columns, |i, j| f(m.get(i, j)))
}

fn decompose(m: &DoubleMatrix) -> Eigen {
    let sym = nalgebra::SymmetricEigen::new(from_matrix(m));
    Eigen {
        values: sym.eigenvalues.iter().map(|&x| d(x)).collect(),
        vectors: to_matrix(&sym.eigenvectors),
    }
}

fn perturbed_unit(i: usize, scale: f32) -> Embedding {
    let mut v = [0.0f32; EMBEDDING_DIM];
    v[i] = 1.0;
    v[(i + 1) % EMBEDDING_DIM] = scale;
    normalize_from(v).unwrap()
}

fn unit(i: usize) -> Embedding {
    perturbed_unit(i, 0.0)
}

fn raw(v: [f32; EMBEDDING_DIM]) -> Embedding {
    Embedding(v.map(single))
}

fn cluster_offline(
    embeddings: &[Embedding],
    opts: &OfflineClusterOptions,
) -> Result<Vec<u64>, Error> {
    diaric::cluster::cluster_offline(embeddings, opts, decompose)
}

fn agglomerate(
    embeddings: &[Embedding],
    linkage: Linkage,
    opts: &OfflineClusterOptions,
) -> Result<Vec<u64>, Error> {
    diaric::cluster::agglomerative::cluster(embeddings, linkage, opts)
}

fn opt_agg(linkage: Linkage) -> OfflineClusterOptions {
    OfflineClusterOptions::default().with_method(OfflineMethod::Agglomerative { linkage })
}

#[test]
fn three_identical_one_cluster() {
    let e = vec![unit(0), unit(0), unit(0)];
    let r = agglomerate(&e, Linkage::Single, &opt_agg(Linkage::Single)).unwrap();
    assert_eq!(r, vec![0, 0, 0]);
}

#[test]
fn three_orthogonal_three_clusters() {
    let e = vec![unit(0), unit(1), unit(2)];
    let r = agglomerate(&e, Linkage::Single, &opt_agg(Linkage::Single)).unwrap();
    let mut sorted = r.clone();
    sorted.sort();
    assert_eq!(sorted, vec![0, 1, 2]);
}

#[test]
fn two_groups_separated() {
    let mut samples = Vec::new();
    for delta in [0.0, 0.05, 0.1] {
        let mut v = [0.0f32; EMBEDDING_DIM];
        v[0] = 1.0;
        v[1] = delta;
        samples.push(normalize_from(v).unwrap());
    }
    for delta in [0.0, 0.05, 0.1] {
        let mut v = [0.0f32; EMBEDDING_DIM];
        v[1] = 1.0;
        v[0] = delta;
        samples.push(normalize_from(v).unwrap());
    }
    let r = agglomerate(&samples, Linkage::Average, &opt_agg(Linkage::Average)).unwrap();
    assert_eq!(r[0], r[1]);
    assert_eq!(r[1], r[2]);
    assert_eq!(r[3], r[4]);
    assert_eq!(r[4], r[5]);
    assert_ne!(r[0], r[3]);
}

#[test]
fn target_speakers_forces_count() {
    let e: Vec<_> = (0..5).map(unit).collect();
    let r = agglomerate(
        &e,
        Linkage::Average,
        &opt_agg(Linkage::Average).with_target_speakers(2),
    )
    .unwrap();
    let unique: std::collections::HashSet<_> = r.iter().copied().collect();
    assert_eq!(unique.len(), 2);
}

#[test]
fn empty_input_errors() {
    let r = cluster_offline(&[], &OfflineClusterOptions::default());
    assert!(matches!(r, Err(Error::EmptyInput)));
}

#[test]
fn target_speakers_zero_errors() {
    let r = cluster_offline(
        &[unit(0)],
        &OfflineClusterOptions::default().with_target_speakers(0),
    );
    assert!(matches!(r, Err(Error::TargetTooSmall)));
}

#[test]
fn target_speakers_exceeds_input_errors() {
    let r = cluster_offline(
        &[unit(0), unit(1)],
        &OfflineClusterOptions::default().with_target_speakers(5),
    );
    assert!(matches!(
        r,
        Err(Error::TargetExceedsInput { target: 5, n: 2 })
    ));
}

#[test]
fn fast_path_n_eq_1() {
    let r = cluster_offline(&[unit(0)], &OfflineClusterOptions::default()).unwrap();
    assert_eq!(r, vec![0]);
}

#[test]
fn fast_path_n_eq_2_similar() {
    let mut v = [0.0f32; EMBEDDING_DIM];
    v[0] = 1.0;
    let e = normalize_from(v).unwrap();
    let r = cluster_offline(&[e, e], &OfflineClusterOptions::default()).unwrap();
    assert_eq!(r, vec![0, 0]);
}

#[test]
fn fast_path_n_eq_2_dissimilar() {
    let r = cluster_offline(&[unit(0), unit(1)], &OfflineClusterOptions::default()).unwrap();
    assert_eq!(r, vec![0, 1]);
}

#[test]
fn fast_path_n_eq_2_target_forces() {
    let r1 = cluster_offline(
        &[unit(0), unit(0)],
        &OfflineClusterOptions::default().with_target_speakers(2),
    )
    .unwrap();
    assert_eq!(
        r1,
        vec![0, 1],
        "target=2 forces 2 clusters even when identical"
    );
    let r2 = cluster_offline(
        &[unit(0), unit(1)],
        &OfflineClusterOptions::default().with_target_speakers(1),
    )
    .unwrap();
    assert_eq!(
        r2,
        vec![0, 0],
        "target=1 forces 1 cluster even when orthogonal"
    );
}

#[test]
fn nan_input_errors() {
    let mut v = [0.0f32; EMBEDDING_DIM];
    v[0] = f32::NAN;
    let e = raw(v);
    let r = cluster_offline(&[e, unit(0)], &OfflineClusterOptions::default());
    assert!(matches!(r, Err(Error::NonFiniteInput)));
}

#[test]
fn zero_norm_input_errors() {
    let e = raw([0.0f32; EMBEDDING_DIM]);
    let r = cluster_offline(&[e, unit(0)], &OfflineClusterOptions::default());
    assert!(matches!(r, Err(Error::DegenerateEmbedding)));
}

#[test]
fn validate_returns_n_on_valid_no_target() {
    let n = validate_offline_input(&[unit(0), unit(1), unit(2)], None).unwrap();
    assert_eq!(n, 3);
}

#[test]
fn validate_returns_n_on_valid_with_target() {
    let n = validate_offline_input(&[unit(0), unit(1), unit(2)], Some(2)).unwrap();
    assert_eq!(n, 3);
}

#[test]
fn spectral_falls_back_on_all_dissimilar_no_target() {
    let inputs = vec![unit(0), unit(1), unit(2)];
    let opts = OfflineClusterOptions::default().with_method(OfflineMethod::Spectral);
    let labels = cluster_offline(&inputs, &opts).expect("fallback to agglomerative");
    assert_eq!(labels.len(), 3);
    let unique: std::collections::HashSet<u64> = labels.iter().copied().collect();
    assert_eq!(
        unique.len(),
        3,
        "expected 3 distinct speakers, got {labels:?}"
    );
}

#[test]
fn spectral_falls_back_on_all_dissimilar_with_target() {
    let inputs = vec![unit(0), unit(1), unit(2)];
    let opts = OfflineClusterOptions::default()
        .with_method(OfflineMethod::Spectral)
        .with_target_speakers(2);
    let labels = cluster_offline(&inputs, &opts).expect("fallback to agglomerative");
    let unique: std::collections::HashSet<u64> = labels.iter().copied().collect();
    assert_eq!(
        unique.len(),
        2,
        "target_speakers=2 must yield 2 clusters; got {labels:?}"
    );
}

#[test]
fn input_too_large_errors() {
    let one = unit(0);
    let inputs = vec![one; MAX_OFFLINE_INPUT + 1];
    let r = cluster_offline(&inputs, &OfflineClusterOptions::default());
    match r {
        Err(Error::InputTooLarge { n, limit }) => {
            assert_eq!(n, MAX_OFFLINE_INPUT + 1);
            assert_eq!(limit, MAX_OFFLINE_INPUT);
        }
        other => panic!("expected InputTooLarge, got {other:?}"),
    }
}

#[test]
fn validate_target_equals_n_ok() {
    let n = validate_offline_input(&[unit(0), unit(1)], Some(2)).unwrap();
    assert_eq!(n, 2);
}

#[test]
fn spectral_ignores_similarity_threshold_for_n_ge_3() {
    fn mix(a: usize, b: usize, w: f32) -> Embedding {
        let mut v = [0.0f32; EMBEDDING_DIM];
        v[a] = w;
        v[b] = (1.0 - w * w).sqrt();
        normalize_from(v).unwrap()
    }
    let inputs = vec![
        mix(0, 1, 0.95),
        mix(0, 1, 0.93),
        mix(2, 3, 0.95),
        mix(2, 3, 0.91),
        mix(0, 2, 0.6),
    ];

    let opts_strict = OfflineClusterOptions::default()
        .with_method(OfflineMethod::Spectral)
        .with_similarity_threshold(single(0.99))
        .with_seed(42);
    let opts_loose = OfflineClusterOptions::default()
        .with_method(OfflineMethod::Spectral)
        .with_similarity_threshold(single(0.01))
        .with_seed(42);

    let labels_strict = cluster_offline(&inputs, &opts_strict).expect("strict ok");
    let labels_loose = cluster_offline(&inputs, &opts_loose).expect("loose ok");

    assert_eq!(
        labels_strict, labels_loose,
        "OfflineMethod::Spectral must produce identical labels regardless of \
          similarity_threshold for N >= 3 — the threshold is currently a no-op \
          for this method (see OfflineMethod docs). If this assertion fails, \
          the threshold has been wired into spectral and the docs need updating."
    );
}

#[test]
fn cluster_offline_rejects_serde_bypassed_out_of_range_threshold() {
    for t in [2.0f32, -1.5] {
        let opts =
            OfflineClusterOptions::from_parts(OfflineMethod::Spectral, single(t), None, None);
        let r = cluster_offline(&[unit(0), unit(1)], &opts);
        assert!(
            matches!(r, Err(Error::InvalidSimilarityThreshold(x)) if x == single(t)),
            "got {r:?}"
        );
    }
}

#[test]
fn cluster_offline_accepts_boundary_thresholds() {
    let opts = OfflineClusterOptions::default().with_similarity_threshold(single(-1.0));
    let _ = cluster_offline(&[unit(0), unit(1)], &opts).expect("threshold = -1.0 ok");
    let opts = OfflineClusterOptions::default().with_similarity_threshold(single(1.0));
    let _ = cluster_offline(&[unit(0), unit(1)], &opts).expect("threshold = 1.0 ok");
}

#[test]
fn agglomerative_average_matches_two_groups() {
    let mut e = Vec::new();
    for s in [0.0, 0.05, -0.05] {
        e.push(perturbed_unit(0, s));
    }
    for s in [0.0, 0.05, -0.05] {
        e.push(perturbed_unit(10, s));
    }
    let labels = cluster_offline(
        &e,
        &OfflineClusterOptions::default().with_method(OfflineMethod::Agglomerative {
            linkage: Linkage::Average,
        }),
    )
    .unwrap();
    assert_eq!(labels[0], labels[1]);
    assert_eq!(labels[1], labels[2]);
    assert_eq!(labels[3], labels[4]);
    assert_eq!(labels[4], labels[5]);
    assert_ne!(
        labels[0], labels[3],
        "two well-separated groups must end up in different clusters"
    );
}

#[test]
fn thresholds_that_are_no_number_are_rejected() {
    for t in [f32::NAN, f32::INFINITY, f32::NEG_INFINITY] {
        let opts =
            OfflineClusterOptions::from_parts(OfflineMethod::Spectral, single(t), None, None);
        let r = cluster_offline(&[unit(0)], &opts);
        assert!(matches!(r, Err(Error::InvalidSimilarityThreshold(_))), "got {r:?}");
    }
}

#[test]
fn the_first_faulty_embedding_decides_the_error() {
    let mut nan = [0.0f32; EMBEDDING_DIM];
    nan[255] = f32::NAN;
    let zero = [0.0f32; EMBEDDING_DIM];
    let opts = OfflineClusterOptions::default();
    let r = cluster_offline(&[unit(0), raw(zero), raw(nan)], &opts);
    assert!(matches!(r, Err(Error::DegenerateEmbedding)), "got {r:?}");
    let r = cluster_offline(&[unit(0), raw(nan), raw(zero)], &opts);
    assert!(matches!(r, Err(Error::NonFiniteInput)), "got {r:?}");
}

#[test]
fn options_keep_what_is_set() {
    let opts = OfflineClusterOptions::default();
    assert_eq!(opts.method(), OfflineMethod::Spectral);
    assert_eq!(opts.similarity_threshold(), single(0.5));
    assert_eq!(opts.target_speakers(), None);
    assert_eq!(opts.seed(), None);
    let opts = opt_agg(Linkage::Complete)
        .with_similarity_threshold(single(0.25))
        .with_target_speakers(7)
        .with_seed(9);
    assert_eq!(opts.method(), OfflineMethod::Agglomerative { linkage: Linkage::Complete });
    assert_eq!(opts.similarity_threshold(), single(0.25));
    assert_eq!(opts.target_speakers(), Some(7));
    assert_eq!(opts.seed(), Some(9));
}

/// Points on a circle at the given angles.
fn fan(angles: &[f32]) -> Vec<Embedding> {
    angles
        .iter()
        .map(|a| {
            let mut v = [0.0f32; EMBEDDING_DIM];
            v[0] = a.cos();
            v[1] = a.sin();
            normalize_from(v).unwrap()
        })
        .collect()
}

#[test]
fn linkages_differ_on_a_chain() {
    let at = |angles: &[f32], linkage| {
        let opts = opt_agg(linkage).with_similarity_threshold(single(0.8));
        agglomerate(&fan(angles), linkage, &opts).unwrap()
    };
    let short = [0.0, 0.4, 0.75];
    assert_eq!(at(&short, Linkage::Single), vec![0, 0, 0]);
    assert_eq!(at(&short, Linkage::Complete), vec![0, 1, 1]);
    assert_eq!(at(&short, Linkage::Average), vec![0, 0, 0]);
    let long = [0.0, 0.4, 0.85, 1.35];
    assert_eq!(at(&long, Linkage::Single), vec![0, 0, 0, 0]);
    assert_eq!(at(&long, Linkage::Complete), vec![0, 0, 1, 1]);
    assert_eq!(at(&long, Linkage::Average), vec![0, 0, 1, 1]);
}

#[test]
fn clusters_without_target_stay_apart() {
    let e = fan(&[0.0, 0.1, 0.9, 1.0, 1.5]);
    for linkage in [Linkage::Single, Linkage::Complete, Linkage::Average] {
        let labels = agglomerate(&e, linkage, &opt_agg(linkage)).unwrap();
        let k = *labels.iter().max().unwrap() + 1;
        for c in 0..k {
            assert!(labels.contains(&c), "label {c} missing in {labels:?}");
        }
        for i in 0..e.len() {
            for j in 0..e.len() {
                let sim = f32::from_bits(e[i].similarity(&e[j]).to_bits());
                if labels[i] != labels[j] && linkage == Linkage::Single {
                    assert!(1.0 - sim >= 0.5, "{i} and {j} are close: {labels:?}");
                }
                if labels[i] == labels[j] && linkage == Linkage::Complete {
                    assert!(1.0 - sim < 0.5, "{i} and {j} are far: {labels:?}");
                }
            }
        }
    }
}

#[test]
fn every_target_is_met() {
    let e = fan(&[0.0, 0.3, 0.6, 0.9, 1.2, 1.5]);
    for k in 1..=6u32 {
        let opts = opt_agg(Linkage::Average).with_target_speakers(k);
        let mut labels = cluster_offline(&e, &opts).unwrap();
        labels.sort_unstable();
        labels.dedup();
        assert_eq!(labels, (0..k as u64).collect::<Vec<_>>());
    }
}
