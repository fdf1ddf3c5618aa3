//! Weighted centroids.

use diaric::cluster::centroid::error::ShapeError;
use diaric::cluster::centroid::Error;
use diaric::float::Double;
use diaric::matrix::DoubleMatrix;
use nalgebra::{DMatrix, DVector};

const SP_ALIVE_THRESHOLD: f64 = f64::from_bits(diaric::cluster::centroid::SP_ALIVE_THRESHOLD);

fn d(x: f64) -> Double {
    Double::from_bits(x.to_bits())
}

fn to_matrix(m: &DMatrix<f64>) -> DoubleMatrix {
    let mut cells = Vec::new();
    for i in 0..m.nrows() {
        for j in 0..m.ncols() {
            cells.push(d(m[(i, j)]));
        }
    }
    DoubleMatrix::from_row_vec(m.nrows(), m.ncols(), cells)
}

fn weighted_centroids(
    q: &DMatrix<f64>,
    sp: &[f64],
    embeddings: &[f64],
    n: usize,
    dim: usize,
    threshold: f64,
) -> Result<DMatrix<f64>, Error> {
    let sp: Vec<Double> = sp.iter().map(|&x| d(x)).collect();
    let embeddings: Vec<Double> = embeddings.iter().map(|&x| d(x)).collect();
    let c = diaric::cluster::centroid::weighted_centroids(
        &to_matrix(q),
        &sp,
        &embeddings,
        n,
        dim,
        d(threshold),
    )?;
    let (rows, columns) = c.shape();
    Ok(DMatrix::from_fn(rows, columns, |i, j| f64::from_bits(c.get(i, j).to_bits())))
}

fn weighted_centroids_dm(
    q: &DMatrix<f64>,
    sp: &DVector<f64>,
    emb: &DMatrix<f64>,
    sp_threshold: f64,
) -> Result<DMatrix<f64>, Error> {
    let (n, dim) = emb.shape();
    let rows: Vec<f64> = (0..n * dim).map(|t| emb[(t / dim, t % dim)]).collect();
    weighted_centroids(q, sp.as_slice(), &rows, n, dim, sp_threshold)
}

#[test]
fn rejects_empty_q() {
    let q = DMatrix::<f64>::zeros(0, 2);
    let sp = DVector::<f64>::from_vec(vec![1.0, 0.0]);
    let emb = DMatrix::<f64>::zeros(0, 4);
    assert!(matches!(
        weighted_centroids_dm(&q, &sp, &emb, SP_ALIVE_THRESHOLD),
        Err(Error::Shape(_))
    ));
}

#[test]
fn rejects_sp_q_dim_mismatch() {
    let q = DMatrix::<f64>::from_element(3, 2, 0.5);
    let sp = DVector::<f64>::from_vec(vec![1.0]);
    let emb = DMatrix::<f64>::from_element(3, 4, 1.0);
    assert!(matches!(
        weighted_centroids_dm(&q, &sp, &emb, SP_ALIVE_THRESHOLD),
        Err(Error::Shape(_))
    ));
}

#[test]
fn rejects_q_emb_row_mismatch() {
    let q = DMatrix::<f64>::from_element(3, 2, 0.5);
    let sp = DVector::<f64>::from_vec(vec![1.0, 1.0]);
    let emb = DMatrix::<f64>::from_element(4, 4, 1.0);
    assert!(matches!(
        weighted_centroids_dm(&q, &sp, &emb, SP_ALIVE_THRESHOLD),
        Err(Error::Shape(_))
    ));
}

#[test]
fn rejects_no_surviving_clusters() {
    let q = DMatrix::<f64>::from_element(3, 2, 0.5);
    let sp = DVector::<f64>::from_vec(vec![1.0e-12, 1.0e-13]);
    let emb = DMatrix::<f64>::from_element(3, 4, 1.0);
    assert!(matches!(
        weighted_centroids_dm(&q, &sp, &emb, SP_ALIVE_THRESHOLD),
        Err(Error::Shape(_))
    ));
}

#[test]
fn rejects_sp_in_simd_guard_band_above_threshold() {
    let q = DMatrix::<f64>::from_element(3, 2, 0.5);
    let sp = DVector::<f64>::from_vec(vec![1.5e-7, 0.99]);
    let emb = DMatrix::<f64>::from_element(3, 4, 1.0);
    let err =
        weighted_centroids_dm(&q, &sp, &emb, SP_ALIVE_THRESHOLD).expect_err("guard band must reject");
    assert!(
        matches!(err, Error::AmbiguousAliveCluster { cluster: 0, .. }),
        "got unexpected error: {err:?}"
    );
}

#[test]
fn rejects_sp_in_simd_guard_band_below_threshold() {
    let q = DMatrix::<f64>::from_element(3, 2, 0.5);
    let sp = DVector::<f64>::from_vec(vec![0.99, 7.0e-8]);
    let emb = DMatrix::<f64>::from_element(3, 4, 1.0);
    let err =
        weighted_centroids_dm(&q, &sp, &emb, SP_ALIVE_THRESHOLD).expect_err("guard band must reject");
    assert!(
        matches!(err, Error::AmbiguousAliveCluster { cluster: 1, .. }),
        "got unexpected error: {err:?}"
    );
}

#[test]
fn accepts_sp_clearly_alive_above_2x_threshold() {
    let q = DMatrix::<f64>::from_row_slice(3, 2, &[1.0, 0.0, 0.0, 0.0, 0.0, 1.0]);
    let sp = DVector::<f64>::from_vec(vec![5.0e-7, 1.0e-14]);
    let emb = DMatrix::<f64>::from_row_slice(3, 2, &[1.0, 2.0, 3.0, 4.0, 5.0, 6.0]);
    weighted_centroids_dm(&q, &sp, &emb, SP_ALIVE_THRESHOLD)
        .expect("clearly-alive 5e-7 must not fire the guard");
}

#[test]
fn accepts_sp_clearly_squashed_below_half_threshold() {
    let q = DMatrix::<f64>::from_row_slice(3, 2, &[1.0, 0.0, 0.0, 0.0, 0.0, 1.0]);
    let sp = DVector::<f64>::from_vec(vec![0.99, 1.0e-8]);
    let emb = DMatrix::<f64>::from_row_slice(3, 2, &[1.0, 2.0, 3.0, 4.0, 5.0, 6.0]);
    weighted_centroids_dm(&q, &sp, &emb, SP_ALIVE_THRESHOLD)
        .expect("clearly-squashed 1e-8 must not fire the guard");
}

#[test]
fn accepts_sp_at_band_boundary_2x_threshold() {
    let q = DMatrix::<f64>::from_row_slice(3, 2, &[1.0, 0.0, 0.0, 0.0, 0.0, 1.0]);
    let sp = DVector::<f64>::from_vec(vec![2.0e-7, 1.0e-14]);
    let emb = DMatrix::<f64>::from_row_slice(3, 2, &[1.0, 2.0, 3.0, 4.0, 5.0, 6.0]);
    weighted_centroids_dm(&q, &sp, &emb, SP_ALIVE_THRESHOLD)
        .expect("boundary 2e-7 must not fire the guard");
}

#[test]
fn accepts_sp_at_band_boundary_half_threshold() {
    let q = DMatrix::<f64>::from_row_slice(3, 2, &[1.0, 0.0, 0.0, 0.0, 0.0, 1.0]);
    let sp = DVector::<f64>::from_vec(vec![0.99, 5.0e-8]);
    let emb = DMatrix::<f64>::from_row_slice(3, 2, &[1.0, 2.0, 3.0, 4.0, 5.0, 6.0]);
    weighted_centroids_dm(&q, &sp, &emb, SP_ALIVE_THRESHOLD)
        .expect("boundary 5e-8 must not fire the guard");
}

#[test]
fn rejects_sp_exactly_at_threshold() {
    let q = DMatrix::<f64>::from_element(3, 2, 0.5);
    let sp = DVector::<f64>::from_vec(vec![SP_ALIVE_THRESHOLD, 0.99]);
    let emb = DMatrix::<f64>::from_element(3, 4, 1.0);
    let err =
        weighted_centroids_dm(&q, &sp, &emb, SP_ALIVE_THRESHOLD).expect_err("guard band must reject");
    assert!(
        matches!(err, Error::AmbiguousAliveCluster { cluster: 0, .. }),
        "got unexpected error: {err:?}"
    );
}

#[test]
fn accepts_sp_well_outside_guard_band() {
    let q = DMatrix::<f64>::from_row_slice(3, 2, &[1.0, 0.0, 0.0, 0.0, 0.0, 1.0]);
    let sp = DVector::<f64>::from_vec(vec![0.85, 1.76e-14]);
    let emb = DMatrix::<f64>::from_row_slice(3, 2, &[1.0, 2.0, 3.0, 4.0, 5.0, 6.0]);
    let c = weighted_centroids_dm(&q, &sp, &emb, SP_ALIVE_THRESHOLD)
        .expect("realistic captured-fixture sp must pass");
    assert_eq!(c.shape(), (1, 2));
}

#[test]
fn rejects_non_finite_q() {
    let mut q = DMatrix::<f64>::from_element(3, 2, 0.5);
    q[(0, 0)] = f64::NAN;
    let sp = DVector::<f64>::from_vec(vec![1.0, 0.0]);
    let emb = DMatrix::<f64>::from_element(3, 4, 1.0);
    assert!(matches!(
        weighted_centroids_dm(&q, &sp, &emb, SP_ALIVE_THRESHOLD),
        Err(Error::NonFinite(_))
    ));
}

#[test]
fn rejects_non_finite_sp() {
    let q = DMatrix::<f64>::from_element(3, 2, 0.5);
    let sp = DVector::<f64>::from_vec(vec![1.0, f64::INFINITY]);
    let emb = DMatrix::<f64>::from_element(3, 4, 1.0);
    assert!(matches!(
        weighted_centroids_dm(&q, &sp, &emb, SP_ALIVE_THRESHOLD),
        Err(Error::NonFinite(_))
    ));
}

#[test]
fn rejects_non_finite_embeddings() {
    let q = DMatrix::<f64>::from_element(3, 2, 0.5);
    let sp = DVector::<f64>::from_vec(vec![1.0, 1.0]);
    let mut emb = DMatrix::<f64>::from_element(3, 4, 1.0);
    emb[(2, 1)] = f64::NEG_INFINITY;
    assert!(matches!(
        weighted_centroids_dm(&q, &sp, &emb, SP_ALIVE_THRESHOLD),
        Err(Error::NonFinite(_))
    ));
}

#[test]
fn single_alive_cluster_uniform_q_returns_mean() {
    let q = DMatrix::<f64>::from_element(4, 1, 0.25);
    let sp = DVector::<f64>::from_vec(vec![1.0]);
    let emb = DMatrix::<f64>::from_row_slice(
        4,
        3,
        &[
            1.0, 2.0, 3.0, 4.0, 5.0, 6.0, 7.0, 8.0, 9.0, 10.0, 11.0, 12.0,
        ],
    );
    let c = weighted_centroids_dm(&q, &sp, &emb, SP_ALIVE_THRESHOLD).expect("ok");
    assert_eq!(c.shape(), (1, 3));
    assert!((c[(0, 0)] - 5.5).abs() < 1e-12);
    assert!((c[(0, 1)] - 6.5).abs() < 1e-12);
    assert!((c[(0, 2)] - 7.5).abs() < 1e-12);
}

#[test]
fn filter_drops_dead_clusters() {
    let q = DMatrix::<f64>::from_row_slice(3, 3, &[1.0, 0.0, 0.0, 0.0, 0.0, 0.0, 0.0, 0.0, 1.0]);
    let sp = DVector::<f64>::from_vec(vec![0.6, 1.0e-10, 0.4]);
    let emb = DMatrix::<f64>::from_row_slice(3, 2, &[1.0, 2.0, 3.0, 4.0, 5.0, 6.0]);
    let c = weighted_centroids_dm(&q, &sp, &emb, SP_ALIVE_THRESHOLD).expect("ok");
    assert_eq!(c.shape(), (2, 2));
    assert!((c[(0, 0)] - 1.0).abs() < 1e-12);
    assert!((c[(0, 1)] - 2.0).abs() < 1e-12);
    assert!((c[(1, 0)] - 5.0).abs() < 1e-12);
    assert!((c[(1, 1)] - 6.0).abs() < 1e-12);
}

#[test]
fn weighted_mean_normalizes_by_total_weight() {
    let q = DMatrix::<f64>::from_row_slice(3, 1, &[0.6, 0.3, 0.1]);
    let sp = DVector::<f64>::from_vec(vec![1.0]);
    let emb = DMatrix::<f64>::from_row_slice(3, 2, &[10.0, 20.0, 100.0, 200.0, 1000.0, 2000.0]);
    let c = weighted_centroids_dm(&q, &sp, &emb, SP_ALIVE_THRESHOLD).expect("ok");
    assert!((c[(0, 0)] - 136.0).abs() < 1e-12);
    assert!((c[(0, 1)] - 272.0).abs() < 1e-12);
}

#[test]
fn zero_total_weight_in_alive_cluster_errors() {
    let q = DMatrix::<f64>::zeros(3, 1);
    let sp = DVector::<f64>::from_vec(vec![0.5]);
    let emb = DMatrix::<f64>::from_element(3, 2, 1.0);
    assert!(matches!(
        weighted_centroids_dm(&q, &sp, &emb, SP_ALIVE_THRESHOLD),
        Err(Error::Shape(_))
    ));
}

#[test]
fn centroids_are_deterministic_on_repeated_calls() {
    let q = DMatrix::<f64>::from_fn(8, 3, |i, j| {
        ((i * 7 + j * 13) as f64 * 0.05).sin().abs() + 0.01
    });
    let sp = DVector::<f64>::from_vec(vec![0.4, 0.4, 0.2]);
    let emb = DMatrix::<f64>::from_fn(8, 5, |i, j| ((i + 2 * j) as f64 * 0.1).cos());
    let a = weighted_centroids_dm(&q, &sp, &emb, SP_ALIVE_THRESHOLD).expect("a");
    let b = weighted_centroids_dm(&q, &sp, &emb, SP_ALIVE_THRESHOLD).expect("b");
    for r in 0..a.nrows() {
        for c in 0..a.ncols() {
            assert_eq!(a[(r, c)], b[(r, c)]);
        }
    }
}

#[test]
fn alive_threshold_is_a_ten_millionth() {
    assert_eq!(SP_ALIVE_THRESHOLD, 1e-7);
}

#[test]
fn means_are_weighted_sums_over_totals() {
    let q = DMatrix::<f64>::from_row_slice(3, 2, &[0.7, 0.3, 0.2, 0.8, 0.4, 0.6]);
    let emb = [1.5, -2.0, 0.25, 4.0, 8.0, 0.5];
    let c = weighted_centroids(&q, &[0.6, 0.4], &emb, 3, 2, 1e-7).unwrap();
    for k in 0..2 {
        let mut total = 0.0;
        for t in 0..3 {
            total += q[(t, k)];
        }
        for j in 0..2 {
            let mut sum = 0.0;
            for t in 0..3 {
                sum += q[(t, k)] * emb[t * 2 + j];
            }
            assert_eq!(c[(k, j)], sum / total);
        }
    }
}

#[test]
fn every_bad_centroid_input_has_its_error() {
    let q = DMatrix::<f64>::from_element(2, 1, 0.5);
    let shape = |q: &DMatrix<f64>, sp: &[f64], emb: &[f64], n, dim, t| {
        match weighted_centroids(q, sp, emb, n, dim, t) {
            Err(Error::Shape(e)) => e,
            other => panic!("expected a shape error, got {other:?}"),
        }
    };
    let none = DMatrix::<f64>::zeros(0, 1);
    assert_eq!(shape(&none, &[1.0], &[], 0, 1, 1e-7), ShapeError::EmptyQ);
    let flat = DMatrix::<f64>::zeros(2, 0);
    assert_eq!(shape(&flat, &[], &[1.0; 2], 2, 1, 1e-7), ShapeError::ZeroQClusters);
    assert_eq!(shape(&q, &[1.0; 2], &[1.0; 2], 2, 1, 1e-7), ShapeError::SpQClusterMismatch);
    assert_eq!(shape(&q, &[1.0], &[1.0; 3], 3, 1, 1e-7), ShapeError::EmbeddingsQRowMismatch);
    assert_eq!(shape(&q, &[1.0], &[], 2, 0, 1e-7), ShapeError::ZeroEmbeddingDim);
    assert_eq!(shape(&q, &[1.0], &[], 2, 1 << 63, 1e-7), ShapeError::EmbeddingsLenOverflow);
    assert_eq!(shape(&q, &[1.0], &[1.0; 5], 2, 2, 1e-7), ShapeError::EmbeddingsLenMismatch);
    assert_eq!(shape(&q, &[1.0], &[1.0; 2], 2, 1, f64::NAN), ShapeError::NonFiniteSpThreshold);
    assert_eq!(shape(&q, &[1e-9], &[1.0; 2], 2, 1, 1e-7), ShapeError::NoSurvivingClusters);
    let minus = DMatrix::<f64>::from_element(2, 1, -0.5);
    assert_eq!(shape(&minus, &[1.0], &[1.0; 2], 2, 1, 1e-7), ShapeError::NonPositiveTotalWeight);
}
