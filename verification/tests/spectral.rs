//! Spectral clustering and k-means.

use diaric::cluster::kmeans::{pick_by_weight, MAX_ROUNDS};
use diaric::cluster::spectral::{sort_eigen, Eigen};
use diaric::cluster::{Error, OfflineClusterOptions, MAX_AUTO_SPEAKERS};
use nalgebra::DMatrix;
use rand::distr::{Distribution, Uniform};
use rand::{RngExt, SeedableRng};
use rand_chacha::ChaCha8Rng;
use diaric::embed::{Embedding, EMBEDDING_DIM};
use diaric::float::{Double, Single};
use diaric::matrix::DoubleMatrix;

fn d(x: f64) -> Double {
    Double::from_bits(x.to_bits())
}

fn f(x: Double) -> f64 {
    f64::from_bits(x.to_bits())
}

fn single(x: f32) -> Single {
    Single::from_bits(x.to_bits())
}

fn normalize_from(v: [f32; EMBEDDING_DIM]) -> Option<Embedding> {
    Embedding::normalize_from(v.map(single))
}

fn to_matrix(m: &DMatrix<f64>) -> DoubleMatrix {
    let mut cells = Vec::new();
    for i in 0..m.nrows() {
        for j in 0..m.ncols() {
            cells.push(d(m[(i, j)]));
        }
    }
    DoubleMatrix::from_row_vec(m.nrows(), m.ncols(), cells)
}

fn from_matrix(m: &DoubleMatrix) -> DMatrix<f64> {
    let (rows, columns) = m.shape();
    DMatrix::from_fn(rows, columns, |i, j| f(m.get(i, j)))
}

fn decompose(m: &DoubleMatrix) -> Eigen {
    let sym = nalgebra::SymmetricEigen::new(from_matrix(m));
    Eigen {
        values: sym.eigenvalues.iter().map(|&x| d(x)).collect(),
        vectors: to_matrix(&sym.eigenvectors),
    }
}

fn perturbed_unit(i: usize, scale: f32) -> Embedding {
    let mut v = [0.0f32; EMBEDDING_DIM];
    v[i] = 1.0;
    v[(i + 1) % EMBEDDING_DIM] = scale;
    normalize_from(v).unwrap()
}

fn unit(i: usize) -> Embedding {
    perturbed_unit(i, 0.0)
}

fn build_affinity(embeddings: &[Embedding]) -> DMatrix<f64> {
    from_matrix(&diaric::cluster::spectral::build_affinity(embeddings))
}

fn compute_degrees(a: &DMatrix<f64>) -> Result<Vec<f64>, Error> {
    diaric::cluster::spectral::compute_degrees(&to_matrix(a))
        .map(|degrees| degrees.into_iter().map(f).collect())
}

fn normalized_laplacian(a: &DMatrix<f64>, degrees: &[f64]) -> DMatrix<f64> {
    let degrees: Vec<Double> = degrees.iter().map(|&x| d(x)).collect();
    from_matrix(&diaric::cluster::spectral::normalized_laplacian(&to_matrix(a), &degrees))
}

fn eigendecompose(m: DMatrix<f64>) -> Result<(Vec<f64>, DMatrix<f64>), Error> {
    sort_eigen(&decompose(&to_matrix(&m)))
        .map(|(values, vectors)| (values.into_iter().map(f).collect(), from_matrix(&vectors)))
}

fn pick_k(eigenvalues: &[f64], n: usize, target: Option<u32>) -> usize {
    let own: Vec<Double> = eigenvalues.iter().map(|&x| d(x)).collect();
    diaric::cluster::spectral::pick_k(&own, n, target)
}

fn kmeans_pp_seed(mat: &DMatrix<f64>, k: usize, seed: u64) -> Vec<Vec<f64>> {
    diaric::cluster::kmeans::kmeans_pp_seed(&to_matrix(mat), k, seed)
        .into_iter()
        .map(|row| row.into_iter().map(f).collect())
        .collect()
}

fn kmeans_lloyd(mat: &DMatrix<f64>, centroids: Vec<Vec<f64>>) -> Vec<usize> {
    let own = centroids.into_iter().map(|c| c.into_iter().map(d).collect()).collect();
    diaric::cluster::kmeans::kmeans_lloyd(&to_matrix(mat), own)
}

fn cluster(
    embeddings: &[Embedding],
    opts: &OfflineClusterOptions,
) -> Result<Vec<u64>, Error> {
    diaric::cluster::spectral::cluster(embeddings, opts, decompose)
}

#[test]
fn same_seed_same_picks() {
    let mat = DMatrix::<f64>::from_row_slice(4, 2, &[0.0, 0.0, 1.0, 0.0, 0.0, 1.0, 1.0, 1.0]);
    let a = kmeans_pp_seed(&mat, 2, 42);
    let b = kmeans_pp_seed(&mat, 2, 42);
    assert_eq!(a, b, "same seed must produce identical centroid picks");
}

#[test]
fn kmeans_pp_seed_byte_determinism_fixture() {
    let mat = DMatrix::<f64>::from_row_slice(4, 2, &[0.0, 0.0, 1.0, 0.0, 0.0, 1.0, 10.0, 10.0]);
    let centroids = kmeans_pp_seed(&mat, 2, 42);
    assert_eq!(centroids.len(), 2);
    assert_eq!(centroids[0].len(), 2);
    assert_eq!(centroids[1].len(), 2);

    let expected: [[f64; 2]; 2] = [[0.0, 0.0], [10.0, 10.0]];
    assert_eq!(
        centroids[0], expected[0],
        "centroid 0 byte-determinism drift: expected {:?}, got {:?}",
        expected[0], centroids[0]
    );
    assert_eq!(
        centroids[1], expected[1],
        "centroid 1 byte-determinism drift: expected {:?}, got {:?}",
        expected[1], centroids[1]
    );
}

#[test]
fn different_seeds_can_pick_differently() {
    let mat = DMatrix::<f64>::from_row_slice(
        8,
        2,
        &[
            0.0, 0.0, 0.1, 0.0, 0.0, 0.1, 0.1, 0.1, 5.0, 5.0, 5.1, 5.0, 5.0, 5.1, 5.1, 5.1,
        ],
    );
    let a = kmeans_pp_seed(&mat, 2, 0);
    let b = kmeans_pp_seed(&mat, 2, 999);
    assert_eq!(a.len(), 2);
    assert_eq!(b.len(), 2);
    assert_eq!(a[0].len(), 2);
    assert_eq!(b[0].len(), 2);
}

#[test]
fn k_equals_n_picks_all_points() {
    let mat = DMatrix::<f64>::from_row_slice(3, 1, &[0.0, 1.0, 2.0]);
    let centroids = kmeans_pp_seed(&mat, 3, 7);
    assert_eq!(centroids.len(), 3);
    let mut sorted_picks: Vec<f64> = centroids.iter().map(|c| c[0]).collect();
    sorted_picks.sort_by(|a, b| a.total_cmp(b));
    assert_eq!(sorted_picks, vec![0.0, 1.0, 2.0]);
}

#[test]
fn eigendecompose_identity_yields_unit_eigenvalues() {
    let id = DMatrix::<f64>::identity(4, 4);
    let (vals, _) = eigendecompose(id).unwrap();
    assert_eq!(vals.len(), 4);
    for v in vals {
        assert!(
            (v - 1.0).abs() < 1e-10,
            "identity should have all eigenvalues = 1.0; got {v}"
        );
    }
}

#[test]
fn eigendecompose_diagonal_sorts_ascending() {
    let mut m = DMatrix::<f64>::zeros(3, 3);
    m[(0, 0)] = 3.0;
    m[(1, 1)] = 1.0;
    m[(2, 2)] = 2.0;
    let (vals, _) = eigendecompose(m).unwrap();
    assert_eq!(vals.len(), 3);
    assert!((vals[0] - 1.0).abs() < 1e-10);
    assert!((vals[1] - 2.0).abs() < 1e-10);
    assert!((vals[2] - 3.0).abs() < 1e-10);
}

#[test]
fn eigendecompose_rejects_non_finite_eigenvalues() {
    let mut m = DMatrix::<f64>::zeros(3, 3);
    m[(0, 0)] = f64::NAN;
    m[(1, 1)] = 1.0;
    m[(2, 2)] = 2.0;
    let r = eigendecompose(m);
    assert!(
        matches!(r, Err(Error::EigendecompositionFailed)),
        "expected Err(EigendecompositionFailed) for NaN-containing input, got {r:?}"
    );
}

#[test]
fn pick_k_target_speakers_overrides_eigengap() {
    let eigs = vec![0.0, 0.5, 0.6, 0.95];
    assert_eq!(pick_k(&eigs, 4, Some(3)), 3);
    assert_eq!(pick_k(&eigs, 4, Some(1)), 1);
}

#[test]
fn pick_k_eigengap_picks_largest_jump() {
    let eigs = vec![0.0, 0.01, 0.02, 0.9];
    assert_eq!(pick_k(&eigs, 4, None), 3);
}

#[test]
fn pick_k_caps_at_max_auto_speakers() {
    let eigs: Vec<f64> = (0..30).map(|i| i as f64 * 0.01).collect();
    let k = pick_k(&eigs, 30, None);
    assert!(
        k <= MAX_AUTO_SPEAKERS as usize,
        "K must be ≤ MAX_AUTO_SPEAKERS = {}, got {k}",
        MAX_AUTO_SPEAKERS
    );
}

#[test]
fn pick_k_target_equals_n_returns_n() {
    let eigs = vec![0.0, 0.5, 0.6, 0.95];
    assert_eq!(pick_k(&eigs, 4, Some(4)), 4);
}

#[test]
fn pipeline_two_clear_clusters_separates_eigenvalues() {

    let mut e = Vec::new();
    for s in [0.0, 0.05, -0.05] {
        e.push(perturbed_unit(0, s));
    }
    for s in [0.0, 0.05, -0.05] {
        e.push(perturbed_unit(10, s));
    }

    let aff = build_affinity(&e);
    let d =
        compute_degrees(&aff).expect("two well-separated clusters → AllDissimilar should not fire");
    let l = normalized_laplacian(&aff, &d);
    let (vals, vecs) = eigendecompose(l).expect("symmetric Laplacian must decompose cleanly");

    assert_eq!(vals.len(), 6);
    assert_eq!(vecs.nrows(), 6);
    assert_eq!(vecs.ncols(), 6);

    let tolerance = 1e-9;
    for (k, v) in vals.iter().enumerate() {
        assert!(v.is_finite(), "eigenvalue {k} = {v} should be finite");
        assert!(
            *v >= -tolerance,
            "eigenvalue {k} = {v} should be >= 0 (PSD Laplacian)"
        );
    }

    for w in vals.windows(2) {
        assert!(w[0] <= w[1], "eigenvalues must be sorted ascending");
    }

    assert!(
        vals[0].abs() < 1e-6,
        "λ_0 should be ≈ 0 for the connected/disconnected-component normalized Laplacian; got {}",
        vals[0]
    );
}

#[test]
fn affinity_diagonal_is_zero() {
    let e = vec![unit(0), unit(1), unit(2)];
    let a = build_affinity(&e);
    for i in 0..3 {
        assert_eq!(a[(i, i)], 0.0);
    }
}

#[test]
fn affinity_relu_clamps_negatives() {
    let mut neg = [0.0f32; EMBEDDING_DIM];
    neg[0] = -1.0;
    let e = vec![unit(0), normalize_from(neg).unwrap(), unit(1)];
    let a = build_affinity(&e);
    assert_eq!(a[(0, 1)], 0.0);
    assert_eq!(a[(1, 0)], 0.0);
    assert_eq!(a[(0, 2)], 0.0);
}

#[test]
fn affinity_identical_embeddings_is_one() {
    let e = vec![unit(0), unit(0), unit(0)];
    let a = build_affinity(&e);
    for i in 0..3 {
        for j in 0..3 {
            if i == j {
                assert_eq!(a[(i, j)], 0.0, "diagonal must stay 0");
            } else {
                assert!(
                    (a[(i, j)] - 1.0).abs() < 1e-6,
                    "identical embeddings: A[{i}][{j}] should be ~1.0; got {}",
                    a[(i, j)]
                );
            }
        }
    }
}

#[test]
fn isolated_node_triggers_alldissimilar() {
    let mut close_to_0 = [0.0f32; EMBEDDING_DIM];
    close_to_0[0] = 0.9;
    close_to_0[1] = 0.1;
    let e = vec![
        unit(0),
        normalize_from(close_to_0).unwrap(),
        unit(2),
    ];
    let a = build_affinity(&e);
    let r = compute_degrees(&a);
    assert!(matches!(r, Err(Error::AllDissimilar)));
}

#[test]
fn all_zero_affinity_triggers_alldissimilar() {
    let e = vec![unit(0), unit(1), unit(2)];
    let a = build_affinity(&e);
    let r = compute_degrees(&a);
    assert!(matches!(r, Err(Error::AllDissimilar)));
}

#[test]
fn laplacian_diag_is_one_off_diag_negative() {
    let mut a_vec = [0.0f32; EMBEDDING_DIM];
    a_vec[0] = 0.9;
    a_vec[1] = 0.4;
    let mut b_vec = [0.0f32; EMBEDDING_DIM];
    b_vec[0] = 0.4;
    b_vec[1] = 0.9;
    let e = vec![
        normalize_from(a_vec).unwrap(),
        normalize_from(b_vec).unwrap(),
        unit(0),
    ];
    let aff = build_affinity(&e);
    let d = compute_degrees(&aff).unwrap();
    let l = normalized_laplacian(&aff, &d);
    for i in 0..3 {
        assert!(
            (l[(i, i)] - 1.0).abs() < 1e-12,
            "L_sym diagonal must be exactly 1.0; got {}",
            l[(i, i)]
        );
    }
    assert!(
        l[(0, 1)] < 0.0,
        "L_sym off-diagonal where A>0 must be negative; got {}",
        l[(0, 1)]
    );
}

#[test]
fn lloyd_separates_two_clusters() {
    let mat = DMatrix::<f64>::from_row_slice(
        6,
        2,
        &[0.0, 0.0, 0.1, 0.0, 0.0, 0.1, 5.0, 5.0, 5.1, 5.0, 5.0, 5.1],
    );
    let centroids = kmeans_pp_seed(&mat, 2, 0);
    let labels = kmeans_lloyd(&mat, centroids);
    assert_eq!(labels[0], labels[1]);
    assert_eq!(labels[1], labels[2]);
    assert_eq!(labels[3], labels[4]);
    assert_eq!(labels[4], labels[5]);
    assert_ne!(labels[0], labels[3]);
}

#[test]
fn lloyd_converges_on_clean_input() {
    let mat = DMatrix::<f64>::from_row_slice(4, 2, &[0.0, 0.0, 0.0, 0.0, 5.0, 5.0, 5.0, 5.0]);
    let centroids = vec![vec![0.0, 0.0], vec![5.0, 5.0]];
    let labels = kmeans_lloyd(&mat, centroids);
    assert_eq!(labels[0], labels[1]);
    assert_eq!(labels[2], labels[3]);
    assert_ne!(labels[0], labels[2]);
}

#[test]
fn spectral_separates_two_groups() {
    let mut e = Vec::new();
    for s in [0.0, 0.05, -0.05] {
        e.push(perturbed_unit(0, s));
    }
    for s in [0.0, 0.05, -0.05] {
        e.push(perturbed_unit(10, s));
    }
    let labels = cluster(&e, &OfflineClusterOptions::default()).unwrap();
    assert_eq!(labels[0], labels[1]);
    assert_eq!(labels[1], labels[2]);
    assert_eq!(labels[3], labels[4]);
    assert_eq!(labels[4], labels[5]);
    assert_ne!(labels[0], labels[3]);
}

#[test]
fn spectral_target_speakers_forces_k() {
    let mut e = Vec::new();
    for i in 0..6 {
        e.push(perturbed_unit(i, 0.1));
    }
    let labels = cluster(
        &e,
        &OfflineClusterOptions::default().with_target_speakers(2),
    )
    .unwrap();
    let unique: std::collections::HashSet<_> = labels.iter().copied().collect();
    assert_eq!(unique.len(), 2);
}

#[test]
fn spectral_seed_determinism() {
    let mut e = Vec::new();
    for s in [0.0, 0.05, -0.05] {
        e.push(perturbed_unit(0, s));
    }
    for s in [0.0, 0.05, -0.05] {
        e.push(perturbed_unit(10, s));
    }
    let r1 = cluster(&e, &OfflineClusterOptions::default()).unwrap();
    let r2 = cluster(&e, &OfflineClusterOptions::default()).unwrap();
    assert_eq!(r1, r2, "spectral cluster output must be deterministic");
}

#[test]
fn eigengap_caps_at_max_auto_speakers() {
    let mut e = Vec::new();
    for i in 0..(MAX_AUTO_SPEAKERS as usize + 5) {
        let mut v = [0.01f32; EMBEDDING_DIM];
        v[i] = 0.95;
        v[(i + 1) % EMBEDDING_DIM] = 0.31;
        e.push(normalize_from(v).unwrap());
    }
    let labels = cluster(&e, &OfflineClusterOptions::default()).unwrap();
    let unique: std::collections::HashSet<_> = labels.iter().copied().collect();
    assert!(
        unique.len() <= MAX_AUTO_SPEAKERS as usize,
        "got {} clusters, cap is {}",
        unique.len(),
        MAX_AUTO_SPEAKERS
    );
}

/// The seeding drawn from one generator, written out on native numbers.
fn reference_seed(mat: &DMatrix<f64>, k: usize, seed: u64) -> Vec<Vec<f64>> {
    let n = mat.nrows();
    let row = |i: usize| -> Vec<f64> { mat.row(i).iter().copied().collect() };
    let mut rng = ChaCha8Rng::seed_from_u64(seed);
    let first = Uniform::new(0usize, n).unwrap().sample(&mut rng);
    let mut chosen = vec![first];
    while chosen.len() < k {
        let weights: Vec<f64> = (0..n)
            .map(|j| {
                chosen
                    .iter()
                    .map(|&c| {
                        (0..mat.ncols())
                            .map(|x| (mat[(j, x)] - mat[(c, x)]) * (mat[(j, x)] - mat[(c, x)]))
                            .sum::<f64>()
                    })
                    .fold(f64::INFINITY, |a, b| if b < a { b } else { a })
            })
            .collect();
        let total: f64 = weights.iter().sum();
        if total == 0.0 {
            let free: Vec<usize> = (0..n).filter(|j| !chosen.contains(j)).collect();
            let i = Uniform::new(0usize, free.len()).unwrap().sample(&mut rng);
            chosen.push(free[i]);
            continue;
        }
        let t = rng.random::<f64>() * total;
        let mut running = 0.0;
        let mut pick = n - 1;
        for (j, &w) in weights.iter().enumerate() {
            running += w;
            if running > t {
                pick = j;
                break;
            }
        }
        chosen.push(pick);
    }
    chosen.into_iter().map(row).collect()
}

#[test]
fn seeding_draws_from_one_stream() {
    let mat = DMatrix::<f64>::from_fn(9, 3, |i, j| ((i * 7 + j * 5) as f64 * 0.71).sin());
    for seed in 0..25u64 {
        for k in [1, 2, 5, 9] {
            assert_eq!(kmeans_pp_seed(&mat, k, seed), reference_seed(&mat, k, seed));
        }
    }
}

#[test]
fn seeding_duplicates_draws_from_those_left() {
    let mat = DMatrix::<f64>::from_row_slice(5, 2, &[1.0; 10]);
    for seed in 0..10u64 {
        assert_eq!(kmeans_pp_seed(&mat, 5, seed), reference_seed(&mat, 5, seed));
    }
    let mixed = DMatrix::<f64>::from_row_slice(5, 1, &[1.0, 1.0, 2.0, 2.0, 2.0]);
    for seed in 0..10u64 {
        assert_eq!(kmeans_pp_seed(&mixed, 4, seed), reference_seed(&mixed, 4, seed));
    }
}

#[test]
fn weights_pick_in_proportion() {
    let weights = [d(0.0), d(1.0), d(0.0), d(3.0)];
    assert_eq!(pick_by_weight(&weights, 0), 1);
    assert_eq!(pick_by_weight(&weights, u64::MAX / 8), 1);
    assert_eq!(pick_by_weight(&weights, u64::MAX / 2), 3);
    assert_eq!(pick_by_weight(&weights, u64::MAX), 3);
}

#[test]
fn no_running_sum_above_picks_the_last() {
    assert_eq!(pick_by_weight(&[d(f64::NAN), d(1.0), d(1.0)], 12345), 2);
}

#[test]
fn empty_cluster_keeps_its_centroid() {
    let mat = DMatrix::<f64>::from_row_slice(3, 1, &[0.0, 1.0, 2.0]);
    let labels = kmeans_lloyd(&mat, vec![vec![1.0], vec![100.0]]);
    assert_eq!(labels, vec![0, 0, 0]);
}

#[test]
fn rows_that_are_no_number_go_to_the_first_point() {
    assert_eq!(MAX_ROUNDS, 100);
    let mat = DMatrix::<f64>::from_row_slice(2, 1, &[0.0, f64::NAN]);
    let labels = kmeans_lloyd(&mat, vec![vec![5.0], vec![0.25]]);
    assert_eq!(labels, vec![1, 0]);
}

#[test]
fn equal_gaps_give_the_last() {
    assert_eq!(pick_k(&[0.0, 1.0, 2.0, 3.0], 4, None), 3);
    assert_eq!(pick_k(&[0.5], 1, None), 1);
    assert_eq!(pick_k(&[], 0, None), 1);
    let even: Vec<f64> = (0..40).map(|i| i as f64).collect();
    assert_eq!(pick_k(&even, 40, None), MAX_AUTO_SPEAKERS as usize);
}

#[test]
fn equal_eigenvalues_keep_their_order() {
    let eigen = Eigen {
        values: [0.5, -0.0, 0.5, 0.0, -2.0].map(d).to_vec(),
        vectors: to_matrix(&DMatrix::from_fn(5, 5, |i, j| (10 * i + j) as f64)),
    };
    let (values, vectors) = sort_eigen(&eigen).unwrap();
    let values: Vec<f64> = values.into_iter().map(f).collect();
    assert_eq!(values, vec![-2.0, -0.0, 0.0, 0.5, 0.5]);
    assert!(values[1].is_sign_negative());
    let first_row: Vec<f64> = (0..5).map(|j| f(vectors.get(0, j))).collect();
    assert_eq!(first_row, vec![4.0, 1.0, 3.0, 0.0, 2.0]);
}

#[test]
fn laplacian_has_the_stated_cells() {
    let a = DMatrix::<f64>::from_row_slice(2, 2, &[0.0, 0.25, 0.25, 0.0]);
    let degrees = compute_degrees(&a).unwrap();
    assert_eq!(degrees, vec![0.25, 0.25]);
    let l = normalized_laplacian(&a, &degrees);
    assert_eq!(l, DMatrix::from_row_slice(2, 2, &[1.0, -1.0, -1.0, 1.0]));
}

#[test]
fn rows_are_scaled_to_unit_length() {
    let v = to_matrix(&DMatrix::from_row_slice(2, 3, &[3.0, 4.0, 9.0, 1e-13, 0.0, 9.0]));
    let u = from_matrix(&diaric::cluster::spectral::normalize_rows(&v, 2));
    assert_eq!(u, DMatrix::from_row_slice(2, 2, &[3.0 * 0.2, 4.0 * 0.2, 1e-13, 0.0]));
}

#[test]
fn random_words_map_to_the_unit_interval() {
    let map = diaric::cluster::random::to_unit_interval;
    assert_eq!(f(map(0)), 0.0);
    assert_eq!(f(map(1 << 63)), 0.5);
    assert_eq!(f(map(u64::MAX)), 1.0 - f64::EPSILON / 2.0);
}

#[test]
fn seeding_never_repeats_a_row_while_others_differ() {
    let mat = DMatrix::<f64>::from_fn(7, 2, |i, j| (i * i + j) as f64);
    for seed in 0..40u64 {
        let mut rows = kmeans_pp_seed(&mat, 7, seed);
        rows.sort_by(|a, b| a[0].total_cmp(&b[0]));
        rows.dedup();
        assert_eq!(rows.len(), 7, "seed {seed}");
    }
}

#[test]
fn labels_run_below_the_number_of_clusters() {
    let mut e = Vec::new();
    for i in 0..8 {
        let mut v = [0.02f32; EMBEDDING_DIM];
        v[i] = 1.0;
        e.push(normalize_from(v).unwrap());
    }
    for k in 1..=8u32 {
        let opts = OfflineClusterOptions::default().with_target_speakers(k).with_seed(k as u64);
        let labels = cluster(&e, &opts).unwrap();
        assert!(labels.iter().all(|&l| l < k as u64), "{labels:?}");
    }
}

#[test]
fn seeds_are_distinct_rows() {
    let mat = DMatrix::<f64>::from_row_slice(
        6,
        2,
        &[0.0, 0.0, 1.0, 0.5, -2.0, 3.0, 4.0, 4.0, 0.25, -1.0, 9.0, 2.0],
    );
    for seed in 0..40u64 {
        for k in 1..=6 {
            let seeds = kmeans_pp_seed(&mat, k, seed);
            assert_eq!(seeds.len(), k);
            for a in 0..k {
                for b in 0..a {
                    assert_ne!(seeds[a], seeds[b]);
                }
            }
            assert_eq!(seeds, kmeans_pp_seed(&mat, k, seed));
        }
    }
}

#[test]
fn equal_rows_are_each_chosen_once() {
    let mat = DMatrix::<f64>::from_row_slice(4, 1, &[5.0, 5.0, 5.0, 8.0]);
    for seed in 0..40u64 {
        let mut seeds: Vec<f64> =
            kmeans_pp_seed(&mat, 4, seed).into_iter().map(|row| row[0]).collect();
        seeds.sort_by(f64::total_cmp);
        assert_eq!(seeds, vec![5.0, 5.0, 5.0, 8.0]);
    }
}

#[test]
fn settled_labels_are_nearest_to_their_own_means() {
    let values: Vec<f64> = (0..24).map(|i| ((i * 17) % 24) as f64 + ((i % 3) * 40) as f64).collect();
    let mat = DMatrix::<f64>::from_row_slice(24, 1, &values);
    for start in [[0.0, 1.0, 2.0], [5.0, 60.0, 61.0], [100.0, 3.0, 50.0]] {
        let labels = kmeans_lloyd(&mat, start.iter().map(|&x| vec![x]).collect());
        let means: Vec<Vec<Double>> = (0..3)
            .map(|c| {
                let own: Vec<f64> =
                    (0..24).filter(|&j| labels[j] == c).map(|j| values[j]).collect();
                assert!(!own.is_empty());
                vec![d(own.iter().sum::<f64>() / own.len() as f64)]
            })
            .collect();
        assert_eq!(diaric::cluster::kmeans::assign(&to_matrix(&mat), &means), labels);
    }
}
