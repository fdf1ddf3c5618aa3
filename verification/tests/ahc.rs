//! Agglomerative initialisation.

use diaric::cluster::ahc::error::ShapeError;
use diaric::cluster::ahc::tree::{check_dendrogram, Step};
use diaric::cluster::ahc::Error;
use diaric::float::Double;
use kodama::{linkage, Method};
use nalgebra::DMatrix;

fn d(x: f64) -> Double {
    Double::from_bits(x.to_bits())
}

fn f(x: Double) -> f64 {
    f64::from_bits(x.to_bits())
}

/// Centroid linkage of distances in condensed form.
fn link(distances: &[Double], n: usize) -> Vec<Step> {
    let mut condensed: Vec<f64> = distances.iter().map(|&x| f(x)).collect();
    linkage(&mut condensed, n, Method::Centroid)
        .steps()
        .iter()
        .map(|s| Step {
            cluster1: s.cluster1,
            cluster2: s.cluster2,
            dissimilarity: d(s.dissimilarity),
        })
        .collect()
}

fn ahc_init_dm(m: &DMatrix<f64>, threshold: f64) -> Result<Vec<usize>, Error> {
    let (n, dims) = m.shape();
    let mut cells = Vec::with_capacity(n * dims);
    for r in 0..n {
        for c in 0..dims {
            cells.push(d(m[(r, c)]));
        }
    }
    diaric::cluster::ahc::ahc_init(&cells, n, dims, d(threshold), link)
}

#[test]
fn rejects_empty_embeddings() {
    let m = DMatrix::<f64>::zeros(0, 4);
    assert!(matches!(
        ahc_init_dm(&m, 0.5),
        Err(Error::Shape(_))
    ));
}

#[test]
fn rejects_zero_dimension() {
    let m = DMatrix::<f64>::zeros(3, 0);
    assert!(matches!(
        ahc_init_dm(&m, 0.5),
        Err(Error::Shape(_))
    ));
}

#[test]
fn rejects_non_positive_threshold() {
    let m = DMatrix::<f64>::from_element(3, 4, 1.0);
    assert!(matches!(
        ahc_init_dm(&m, 0.0),
        Err(Error::Shape(_))
    ));
    assert!(matches!(
        ahc_init_dm(&m, -0.1),
        Err(Error::Shape(_))
    ));
}

#[test]
fn rejects_non_finite_threshold() {
    let m = DMatrix::<f64>::from_element(3, 4, 1.0);
    assert!(matches!(
        ahc_init_dm(&m, f64::NAN),
        Err(Error::Shape(_))
    ));
    assert!(matches!(
        ahc_init_dm(
            &m,
            f64::INFINITY),
        Err(Error::Shape(_))
    ));
}

#[test]
fn rejects_nan_in_embedding() {
    let mut m = DMatrix::<f64>::from_element(3, 4, 1.0);
    m[(1, 2)] = f64::NAN;
    assert!(matches!(
        ahc_init_dm(&m, 0.5),
        Err(Error::NonFinite(_))
    ));
}

#[test]
fn rejects_inf_in_embedding() {
    let mut m = DMatrix::<f64>::from_element(3, 4, 1.0);
    m[(0, 0)] = f64::INFINITY;
    assert!(matches!(
        ahc_init_dm(&m, 0.5),
        Err(Error::NonFinite(_))
    ));
}

#[test]
fn rejects_zero_norm_row() {
    let mut m = DMatrix::<f64>::from_element(3, 4, 1.0);
    for c in 0..4 {
        m[(1, c)] = 0.0;
    }
    assert!(matches!(
        ahc_init_dm(&m, 0.5),
        Err(Error::Shape(_))
    ));
}

#[test]
fn rejects_finite_row_with_overflowing_norm() {
    let big = 1.0e154_f64;
    let mut m = DMatrix::<f64>::from_element(3, 4, 1.0);
    for c in 0..4 {
        m[(1, c)] = big;
    }
    let r = ahc_init_dm(&m, 0.5);
    assert!(
        matches!(r, Err(Error::Shape(ShapeError::RowNormOverflow))),
        "got {r:?}"
    );
}

#[test]
fn single_row_returns_single_cluster() {
    let m = DMatrix::<f64>::from_row_slice(1, 3, &[1.0, 0.0, 0.0]);
    let labels = ahc_init_dm(&m, 0.5).expect("ahc_init");
    assert_eq!(labels, vec![0]);
}

#[test]
fn merges_close_pair_separates_far_row() {
    let m = DMatrix::<f64>::from_row_slice(3, 3, &[1.0, 0.0, 0.0, 100.0, 1.0, 0.0, 0.0, 1.0, 0.0]);
    let labels = ahc_init_dm(&m, 0.5).expect("ahc_init");
    assert_eq!(
        labels[0], labels[1],
        "rows 0 and 1 should share a cluster (got {labels:?})"
    );
    assert_ne!(
        labels[0], labels[2],
        "row 2 should be its own cluster (got {labels:?})"
    );
}

#[test]
fn all_identical_normed_rows_collapse_to_one_cluster() {
    let m = DMatrix::<f64>::from_row_slice(
        4,
        2,
        &[
            1.0, 0.0, 2.0, 0.0,
            3.0, 0.0, 0.5, 0.0,
        ],
    );
    let labels =
        ahc_init_dm(&m, 0.001).expect("ahc_init");
    assert_eq!(labels, vec![0, 0, 0, 0]);
}

#[test]
fn tiny_threshold_keeps_every_row_isolated() {
    let m = DMatrix::<f64>::from_row_slice(3, 3, &[1.0, 0.0, 0.0, 0.0, 1.0, 0.0, 0.0, 0.0, 1.0]);
    let labels = ahc_init_dm(&m, 0.1).expect("ahc_init");
    let mut sorted = labels.clone();
    sorted.sort_unstable();
    sorted.dedup();
    assert_eq!(
        sorted,
        vec![0, 1, 2],
        "expected 3 distinct singleton clusters, got {labels:?}"
    );
}

#[test]
fn labels_are_contiguous_after_canonicalization() {
    let m = DMatrix::<f64>::from_row_slice(
        6,
        3,
        &[
            1.0, 0.0, 0.0,
            0.0, 1.0, 0.0,
            0.0, 0.0, 1.0,
            1.001, 0.0, 0.0,
            0.0, 1.001, 0.0,
            1.0, 1.0, 1.0,
        ],
    );
    let labels = ahc_init_dm(&m, 0.1).expect("ahc_init");
    assert_eq!(
        labels[0], labels[3],
        "rows 0,3 should share (got {labels:?})"
    );
    assert_eq!(
        labels[1], labels[4],
        "rows 1,4 should share (got {labels:?})"
    );
    assert_ne!(labels[0], labels[1]);
    assert_ne!(labels[0], labels[2]);
    assert_ne!(labels[0], labels[5]);
    assert_ne!(labels[1], labels[2]);
    assert_ne!(labels[1], labels[5]);
    assert_ne!(labels[2], labels[5]);
    let max = *labels.iter().max().unwrap();
    let mut seen = vec![false; max + 1];
    for &l in &labels {
        seen[l] = true;
    }
    assert!(seen.iter().all(|&s| s), "labels {labels:?} not contiguous");
}

#[test]
fn centroid_linkage_inversion_matches_scipy() {
    let alpha = 2.0_f64 * (0.65_f64 / 2.0).asin();
    let p0 = (1.0_f64, 0.0_f64, 0.0_f64);
    let p1 = (alpha.cos(), alpha.sin(), 0.0_f64);
    let cdota = 1.0 - 0.66_f64.powi(2) / 2.0;
    let cy = (cdota - p1.0 * cdota) / p1.1;
    let cz = (1.0_f64 - cdota * cdota - cy * cy).sqrt();
    let p2 = (cdota, cy, cz);
    let p3 = (-1.0_f64, 0.0_f64, 0.0_f64);

    let m = DMatrix::<f64>::from_row_slice(
        4,
        3,
        &[
            p0.0, p0.1, p0.2, p1.0, p1.1, p1.2, p2.0, p2.1, p2.2, p3.0, p3.1, p3.2,
        ],
    );

    let labels = ahc_init_dm(&m, 0.6).expect("ahc_init");

    let mut sorted = labels.clone();
    sorted.sort_unstable();
    sorted.dedup();
    assert_eq!(
        sorted,
        vec![0, 1, 2, 3],
        "a subtree whose largest distance exceeds the threshold is split (got {labels:?})"
    );
}

#[test]
fn deterministic_on_repeated_calls() {
    let m = DMatrix::<f64>::from_fn(8, 4, |i, j| ((i * 7 + j * 13) as f64 * 0.1).sin() + 1.0);
    let a = ahc_init_dm(&m, 0.5).expect("a");
    let b = ahc_init_dm(&m, 0.5).expect("b");
    assert_eq!(a, b);
}

#[test]
fn wrong_length_is_rejected() {
    let r = diaric::cluster::ahc::ahc_init(&[d(1.0); 5], 2, 3, d(0.5), link);
    assert_eq!(r, Err(Error::Shape(ShapeError::EmbeddingsLenMismatch)));
}

#[test]
fn oversized_shape_is_rejected() {
    let r = diaric::cluster::ahc::ahc_init(&[d(1.0); 5], 1 << 40, 1 << 40, d(0.5), link);
    assert_eq!(r, Err(Error::Shape(ShapeError::EmbeddingsSizeOverflow)));
}

#[test]
fn labels_follow_the_dendrogram() {
    let steps = |_: &[Double], _: usize| {
        vec![
            Step { cluster1: 1, cluster2: 3, dissimilarity: d(0.1) },
            Step { cluster1: 0, cluster2: 4, dissimilarity: d(0.2) },
            Step { cluster1: 2, cluster2: 5, dissimilarity: d(0.9) },
        ]
    };
    let rows = [d(1.0), d(2.0), d(3.0), d(4.0)];
    let labels = |t: f64| diaric::cluster::ahc::ahc_init(&rows, 4, 1, d(t), steps).unwrap();
    assert_eq!(labels(1.0), vec![0, 0, 0, 0]);
    let split = labels(0.5);
    assert_eq!(split[0], split[1]);
    assert_eq!(split[1], split[3]);
    assert_ne!(split[0], split[2]);
    let finer = labels(0.15);
    assert_eq!(finer[1], finer[3]);
    assert_ne!(finer[0], finer[1]);
    assert_eq!(labels(0.1)[1], labels(0.1)[3]);
    let mut all = labels(0.05);
    all.sort_unstable();
    assert_eq!(all, vec![0, 1, 2, 3]);
}

#[test]
fn distances_are_condensed_row_by_row() {
    let rows = [0.0, 0.0, 3.0, 4.0, 0.0, 1.0].map(d);
    let got = diaric::cluster::ahc::algo::pdist_euclidean(&rows, 3, 2);
    let expected = [5.0, 1.0, 18.0_f64.sqrt()].map(d);
    assert_eq!(got, expected);
    assert!(diaric::cluster::ahc::algo::pdist_euclidean(&rows[..2], 1, 2).is_empty());
}

#[test]
fn only_dendrograms_are_taken_for_one() {
    let merges = |pairs: &[(usize, usize)]| -> Vec<Step> {
        pairs
            .iter()
            .map(|&(cluster1, cluster2)| Step { cluster1, cluster2, dissimilarity: d(1.0) })
            .collect()
    };
    assert!(check_dendrogram(&merges(&[(1, 3), (0, 4), (2, 5)]), 4));
    assert!(check_dendrogram(&merges(&[(0, 1), (2, 3), (4, 5)]), 4));
    assert!(check_dendrogram(&[], 1));
    assert!(!check_dendrogram(&[], 0));
    assert!(!check_dendrogram(&[], 2));
    assert!(!check_dendrogram(&merges(&[(0, 1), (2, 3)]), 4));
    assert!(!check_dendrogram(&merges(&[(0, 0)]), 2));
    assert!(!check_dendrogram(&merges(&[(0, 2)]), 2));
    assert!(!check_dendrogram(&merges(&[(0, 1), (1, 2)]), 3));
    assert!(!check_dendrogram(&merges(&[(0, 1), (2, 4)]), 3));
}
