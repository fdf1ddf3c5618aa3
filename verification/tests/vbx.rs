//! Variational Bayes clustering.

use diaric::cluster::vbx::error::{NonFiniteField, ShapeError};
use diaric::cluster::vbx::round::logsumexp_rows as rows_of_log_sums;
use diaric::cluster::vbx::{Error, Kernels, StopReason, MAX_ITERS_CAP};
use diaric::float::Double;
use diaric::matrix::DoubleMatrix;
use nalgebra::{DMatrix, DMatrixView, DVector};

fn d(x: f64) -> Double {
    Double::from_bits(x.to_bits())
}

fn f(x: Double) -> f64 {
    f64::from_bits(x.to_bits())
}

fn to_matrix(m: &DMatrix<f64>) -> DoubleMatrix {
    let mut cells = Vec::new();
    for i in 0..m.nrows() {
        for j in 0..m.ncols() {
            cells.push(d(m[(i, j)]));
        }
    }
    DoubleMatrix::from_row_vec(m.nrows(), m.ncols(), cells)
}

fn from_matrix(m: &DoubleMatrix) -> DMatrix<f64> {
    let (rows, columns) = m.shape();
    DMatrix::from_fn(rows, columns, |i, j| f(m.get(i, j)))
}

fn dot(a: &[Double], b: &[Double]) -> Double {
    d(a.iter().zip(b).map(|(x, y)| f(*x) * f(*y)).sum())
}

fn log_sum_exp(row: &[Double]) -> Double {
    let max = row.iter().map(|x| f(*x)).fold(f64::NEG_INFINITY, f64::max);
    if !max.is_finite() {
        return d(max);
    }
    d(row.iter().map(|x| (f(*x) - max).exp()).sum::<f64>().ln() + max)
}

fn ln(x: Double) -> Double {
    d(f(x).ln())
}

fn exp(x: Double) -> Double {
    d(f(x).exp())
}

fn product(a: &DoubleMatrix, b: &DoubleMatrix) -> DoubleMatrix {
    to_matrix(&(from_matrix(a) * from_matrix(b)))
}

fn logsumexp_rows(m: &DMatrix<f64>) -> Vec<f64> {
    rows_of_log_sums(&to_matrix(m), &log_sum_exp).into_iter().map(f).collect()
}

#[derive(Debug)]
struct Output {
    gamma: DMatrix<f64>,
    pi: Vec<f64>,
    elbo_trajectory: Vec<f64>,
    stop_reason: StopReason,
}

impl Output {
    fn gamma(&self) -> &DMatrix<f64> {
        &self.gamma
    }

    fn pi(&self) -> &[f64] {
        &self.pi
    }

    fn elbo_trajectory(&self) -> &[f64] {
        &self.elbo_trajectory
    }

    fn stop_reason(&self) -> StopReason {
        self.stop_reason
    }
}

fn vbx_iterate(
    x: DMatrixView<f64>,
    phi: &DVector<f64>,
    qinit: &DMatrix<f64>,
    fa: f64,
    fb: f64,
    max_iters: usize,
) -> Result<Output, Error> {
    let kernels = Kernels { dot, log_sum_exp, ln, exp, product };
    let phi: Vec<Double> = phi.iter().map(|&p| d(p)).collect();
    let out = diaric::cluster::vbx::vbx_iterate(
        &to_matrix(&x.into_owned()),
        &phi,
        &to_matrix(qinit),
        d(fa),
        d(fb),
        max_iters,
        &kernels,
    )?;
    Ok(Output {
        gamma: from_matrix(out.gamma()),
        pi: out.pi().iter().map(|&p| f(p)).collect(),
        elbo_trajectory: out.elbo_trajectory().iter().map(|&e| f(e)).collect(),
        stop_reason: out.stop_reason(),
    })
}

#[derive(Debug, PartialEq)]
enum ElboStep {
    Continue,
    Converged,
    Regressed(f64),
}

fn classify_elbo_step(delta: f64, prev: f64, elbo: f64, epsilon: f64) -> ElboStep {
    match diaric::cluster::vbx::step::classify_elbo_step(d(delta), d(prev), d(elbo), d(epsilon)) {
        diaric::cluster::vbx::step::ElboStep::Continue => ElboStep::Continue,
        diaric::cluster::vbx::step::ElboStep::Converged => ElboStep::Converged,
        diaric::cluster::vbx::step::ElboStep::Regressed(delta) => ElboStep::Regressed(f(delta)),
    }
}

fn deterministic_qinit(t: usize, s: usize) -> DMatrix<f64> {
    assert!(s > 1, "deterministic_qinit requires S > 1");
    let off = 0.05 / (s - 1) as f64;
    DMatrix::<f64>::from_fn(t, s, |tt, sj| if sj == tt % s { 0.95 } else { off })
}

#[test]
fn logsumexp_rows_matches_scipy_reference() {
    let m = DMatrix::<f64>::from_row_slice(2, 3, &[1.0, 2.0, 3.0, -100.0, -101.0, -102.0]);
    let lse = logsumexp_rows(&m);
    assert!((lse[0] - 3.40760596).abs() < 1e-8, "row0: {}", lse[0]);
    assert!(
        (lse[1] - (-99.592_394_035_555_61)).abs() < 1e-10,
        "row1: {}",
        lse[1]
    );
}

#[test]
fn logsumexp_rows_all_neg_inf_returns_neg_inf() {
    let m = DMatrix::<f64>::from_row_slice(
        1,
        3,
        &[f64::NEG_INFINITY, f64::NEG_INFINITY, f64::NEG_INFINITY],
    );
    let lse = logsumexp_rows(&m);
    assert!(lse[0].is_infinite() && lse[0] < 0.0, "got {}", lse[0]);
}

#[test]
fn vbx_rejects_phi_with_non_positive_entry() {
    let x = DMatrix::<f64>::zeros(5, 4);
    let mut phi = DVector::<f64>::from_element(4, 1.0);
    phi[2] = -0.5;
    let qinit = DMatrix::<f64>::from_element(5, 2, 0.5);
    let result = vbx_iterate(x.as_view(), &phi, &qinit, 0.07, 0.8, 20);
    assert!(
        matches!(result, Err(Error::NonPositivePhi(_, 2))),
        "got {result:?}"
    );
}

#[test]
fn vbx_rejects_shape_mismatch_x_vs_qinit() {
    let x = DMatrix::<f64>::zeros(5, 4);
    let phi = DVector::<f64>::from_element(4, 1.0);
    let qinit = DMatrix::<f64>::from_element(6, 2, 0.5);
    let result = vbx_iterate(x.as_view(), &phi, &qinit, 0.07, 0.8, 20);
    assert!(matches!(result, Err(Error::Shape(_))), "got {result:?}");
}

#[test]
fn vbx_rejects_shape_mismatch_phi_vs_x() {
    let x = DMatrix::<f64>::zeros(5, 4);
    let phi = DVector::<f64>::from_element(3, 1.0);
    let qinit = DMatrix::<f64>::from_element(5, 2, 0.5);
    let result = vbx_iterate(x.as_view(), &phi, &qinit, 0.07, 0.8, 20);
    assert!(matches!(result, Err(Error::Shape(_))), "got {result:?}");
}

#[test]
fn vbx_rejects_qinit_with_zero_clusters() {
    let x = DMatrix::<f64>::zeros(5, 4);
    let phi = DVector::<f64>::from_element(4, 1.0);
    let qinit = DMatrix::<f64>::zeros(5, 0);
    let result = vbx_iterate(x.as_view(), &phi, &qinit, 0.07, 0.8, 20);
    assert!(matches!(result, Err(Error::Shape(_))), "got {result:?}");
}

#[test]
fn vbx_elbo_is_monotonically_non_decreasing() {
    let t = 50;
    let d = 8;
    let s = 3;
    let mut x = DMatrix::<f64>::zeros(t, d);
    for i in 0..t {
        for j in 0..d {
            x[(i, j)] = ((i * 7 + j * 13) as f64 % 11.0) - 5.0;
        }
    }
    let phi = DVector::<f64>::from_element(d, 2.0);
    let qinit = deterministic_qinit(t, s);
    let out = vbx_iterate(x.as_view(), &phi, &qinit, 0.07, 0.8, 20).expect("vbx_iterate");
    for w in out.elbo_trajectory().windows(2) {
        assert!(
            w[1] - w[0] > -1.0e-6,
            "ELBO must not decrease: {} → {}",
            w[0],
            w[1]
        );
    }
}

#[test]
fn vbx_gamma_rows_sum_to_one() {
    let t = 30;
    let d = 4;
    let s = 4;
    let mut x = DMatrix::<f64>::zeros(t, d);
    for i in 0..t {
        for j in 0..d {
            x[(i, j)] = ((i + j) as f64).sin();
        }
    }
    let phi = DVector::<f64>::from_element(d, 1.5);
    let qinit = deterministic_qinit(t, s);
    let out = vbx_iterate(x.as_view(), &phi, &qinit, 0.1, 0.5, 10).expect("vbx_iterate");
    for r in 0..t {
        let row_sum: f64 = (0..s).map(|c| out.gamma()[(r, c)]).sum();
        assert!(
            (row_sum - 1.0).abs() < 1e-12,
            "gamma row {r} sums to {row_sum}"
        );
    }
}

#[test]
fn vbx_pi_sums_to_one() {
    let t = 20;
    let d = 4;
    let s = 5;
    let x = DMatrix::<f64>::from_fn(t, d, |i, j| ((i * 3 + j) as f64).cos());
    let phi = DVector::<f64>::from_element(d, 1.0);
    let qinit = deterministic_qinit(t, s);
    let out = vbx_iterate(x.as_view(), &phi, &qinit, 0.07, 0.8, 20).expect("vbx_iterate");
    let pi_sum: f64 = out.pi().iter().sum();
    assert!((pi_sum - 1.0).abs() < 1e-12, "pi sums to {pi_sum}");
}

#[test]
fn vbx_rejects_zero_feature_dim() {
    let t = 5;
    let s = 2;
    let x = DMatrix::<f64>::zeros(t, 0);
    let phi = DVector::<f64>::zeros(0);
    let qinit = deterministic_qinit(t, s);
    let r = vbx_iterate(x.as_view(), &phi, &qinit, 0.07, 0.8, 5);
    assert!(
        matches!(
            r,
            Err(Error::Shape(
                ShapeError::ZeroXFeatureDim
            ))
        ),
        "expected Shape(ZeroXFeatureDim) for d=0 input, got {r:?}"
    );
}

#[test]
fn vbx_is_deterministic() {
    let t = 15;
    let d = 4;
    let s = 3;
    let x = DMatrix::<f64>::from_fn(t, d, |i, j| (i + 2 * j) as f64 * 0.1);
    let phi = DVector::<f64>::from_element(d, 2.0);
    let qinit = deterministic_qinit(t, s);
    let a = vbx_iterate(x.as_view(), &phi, &qinit, 0.07, 0.8, 10).expect("a");
    let b = vbx_iterate(x.as_view(), &phi, &qinit, 0.07, 0.8, 10).expect("b");
    assert_eq!(a.elbo_trajectory(), b.elbo_trajectory());
    for r in 0..t {
        for c in 0..s {
            assert_eq!(a.gamma()[(r, c)], b.gamma()[(r, c)]);
        }
    }
    for c in 0..s {
        assert_eq!(a.pi()[c], b.pi()[c]);
    }
}

#[test]
fn vbx_rejects_qinit_with_nan_entry() {
    let t = 5;
    let s = 2;
    let x = DMatrix::<f64>::zeros(t, 4);
    let phi = DVector::<f64>::from_element(4, 1.0);
    let mut qinit = DMatrix::<f64>::from_element(t, s, 0.5);
    qinit[(2, 1)] = f64::NAN;
    let result = vbx_iterate(x.as_view(), &phi, &qinit, 0.07, 0.8, 20);
    assert!(
        matches!(
            result,
            Err(Error::NonFinite(
                NonFiniteField::Qinit
            ))
        ),
        "got {result:?}"
    );
}

#[test]
fn vbx_rejects_qinit_with_inf_entry() {
    let t = 5;
    let s = 2;
    let x = DMatrix::<f64>::zeros(t, 4);
    let phi = DVector::<f64>::from_element(4, 1.0);
    let mut qinit = DMatrix::<f64>::from_element(t, s, 0.5);
    qinit[(0, 0)] = f64::INFINITY;
    let result = vbx_iterate(x.as_view(), &phi, &qinit, 0.07, 0.8, 20);
    assert!(
        matches!(
            result,
            Err(Error::NonFinite(
                NonFiniteField::Qinit
            ))
        ),
        "got {result:?}"
    );
}

#[test]
fn vbx_rejects_qinit_with_negative_entry() {
    let t = 5;
    let s = 2;
    let x = DMatrix::<f64>::zeros(t, 4);
    let phi = DVector::<f64>::from_element(4, 1.0);
    let mut qinit = DMatrix::<f64>::from_element(t, s, 0.5);
    qinit[(0, 0)] = -0.1;
    qinit[(0, 1)] = 1.1;
    let result = vbx_iterate(x.as_view(), &phi, &qinit, 0.07, 0.8, 20);
    assert!(matches!(result, Err(Error::Shape(_))), "got {result:?}");
}

#[test]
fn vbx_rejects_qinit_with_unnormalized_row() {
    let t = 5;
    let s = 2;
    let x = DMatrix::<f64>::zeros(t, 4);
    let phi = DVector::<f64>::from_element(4, 1.0);
    let mut qinit = DMatrix::<f64>::from_element(t, s, 0.5);
    qinit[(3, 1)] = 0.4;
    let result = vbx_iterate(x.as_view(), &phi, &qinit, 0.07, 0.8, 20);
    assert!(matches!(result, Err(Error::Shape(_))), "got {result:?}");
}

#[test]
fn vbx_rejects_zero_fa() {
    let t = 5;
    let s = 2;
    let x = DMatrix::<f64>::zeros(t, 4);
    let phi = DVector::<f64>::from_element(4, 1.0);
    let qinit = DMatrix::<f64>::from_element(t, s, 0.5);
    let result = vbx_iterate(x.as_view(), &phi, &qinit, 0.0, 0.8, 20);
    assert!(matches!(result, Err(Error::Shape(_))), "got {result:?}");
}

#[test]
fn vbx_rejects_negative_fa() {
    let t = 5;
    let s = 2;
    let x = DMatrix::<f64>::zeros(t, 4);
    let phi = DVector::<f64>::from_element(4, 1.0);
    let qinit = DMatrix::<f64>::from_element(t, s, 0.5);
    let result = vbx_iterate(x.as_view(), &phi, &qinit, -0.1, 0.8, 20);
    assert!(matches!(result, Err(Error::Shape(_))), "got {result:?}");
}

#[test]
fn vbx_rejects_nan_fa() {
    let t = 5;
    let s = 2;
    let x = DMatrix::<f64>::zeros(t, 4);
    let phi = DVector::<f64>::from_element(4, 1.0);
    let qinit = DMatrix::<f64>::from_element(t, s, 0.5);
    let result = vbx_iterate(x.as_view(), &phi, &qinit, f64::NAN, 0.8, 20);
    assert!(matches!(result, Err(Error::Shape(_))), "got {result:?}");
}

#[test]
fn vbx_rejects_zero_fb() {
    let t = 5;
    let s = 2;
    let x = DMatrix::<f64>::zeros(t, 4);
    let phi = DVector::<f64>::from_element(4, 1.0);
    let qinit = DMatrix::<f64>::from_element(t, s, 0.5);
    let result = vbx_iterate(x.as_view(), &phi, &qinit, 0.07, 0.0, 20);
    assert!(matches!(result, Err(Error::Shape(_))), "got {result:?}");
}

#[test]
fn vbx_rejects_inf_fb() {
    let t = 5;
    let s = 2;
    let x = DMatrix::<f64>::zeros(t, 4);
    let phi = DVector::<f64>::from_element(4, 1.0);
    let qinit = DMatrix::<f64>::from_element(t, s, 0.5);
    let result = vbx_iterate(x.as_view(), &phi, &qinit, 0.07, f64::INFINITY, 20);
    assert!(matches!(result, Err(Error::Shape(_))), "got {result:?}");
}

#[test]
fn vbx_rejects_max_iters_zero() {
    let t = 6;
    let s = 3;
    let x = DMatrix::<f64>::zeros(t, 4);
    let phi = DVector::<f64>::from_element(4, 1.0);
    let qinit = deterministic_qinit(t, s);
    let result = vbx_iterate(x.as_view(), &phi, &qinit, 0.07, 0.8, 0);
    assert!(matches!(result, Err(Error::Shape(_))), "got {result:?}");
}

#[test]
fn vbx_rejects_max_iters_above_cap() {
    let t = 6;
    let s = 3;
    let x = DMatrix::<f64>::zeros(t, 4);
    let phi = DVector::<f64>::from_element(4, 1.0);
    let qinit = deterministic_qinit(t, s);
    let result = vbx_iterate(x.as_view(), &phi, &qinit, 0.07, 0.8, MAX_ITERS_CAP + 1);
    assert!(matches!(result, Err(Error::Shape(_))), "got {result:?}");
}

#[test]
fn vbx_accepts_max_iters_at_cap() {
    let t = 4;
    let s = 2;
    let x = DMatrix::<f64>::zeros(t, 4);
    let phi = DVector::<f64>::from_element(4, 1.0);
    let qinit = deterministic_qinit(t, s);
    let result = vbx_iterate(x.as_view(), &phi, &qinit, 0.07, 0.8, MAX_ITERS_CAP);
    assert!(result.is_ok(), "got {result:?}");
}

#[test]
fn vbx_rejects_max_iters_zero_with_non_uniform_qinit() {
    let t = 10;
    let s = 2;
    let d = 4;
    let x = DMatrix::<f64>::from_fn(t, d, |i, j| ((i + j) as f64) * 0.3);
    let phi = DVector::<f64>::from_element(d, 1.0);
    let qinit = deterministic_qinit(t, s);
    let result = vbx_iterate(x.as_view(), &phi, &qinit, 0.07, 0.8, 0);
    assert!(
        matches!(result, Err(Error::Shape(_))),
        "non-uniform qinit + max_iters=0 must reject (would otherwise \
          return gamma=qinit + pi=1/S inconsistent state); got {result:?}"
    );
}

#[test]
fn vbx_accepts_qinit_with_alternating_column_assignment() {
    let t = 10;
    let s = 2;
    let d = 4;
    let x = DMatrix::<f64>::from_fn(t, d, |i, j| ((i + j) as f64) * 0.3);
    let phi = DVector::<f64>::from_element(d, 1.0);
    let mut qinit = DMatrix::<f64>::zeros(t, s);
    for tt in 0..t {
        if tt % 2 == 0 {
            qinit[(tt, 0)] = 0.95;
            qinit[(tt, 1)] = 0.05;
        } else {
            qinit[(tt, 0)] = 0.05;
            qinit[(tt, 1)] = 0.95;
        }
    }
    let _out = vbx_iterate(x.as_view(), &phi, &qinit, 0.07, 0.8, 10)
        .expect("alternating real columns must pass");
}

#[test]
fn vbx_accepts_single_speaker_qinit() {
    let t = 5;
    let s = 1;
    let d = 4;
    let x = DMatrix::<f64>::from_fn(t, d, |i, j| ((i + j) as f64) * 0.1);
    let phi = DVector::<f64>::from_element(d, 1.0);
    let qinit = DMatrix::<f64>::from_element(t, s, 1.0);
    let out = vbx_iterate(x.as_view(), &phi, &qinit, 0.07, 0.8, 10)
        .expect("S=1 single-speaker qinit must pass");
    assert!((out.pi()[0] - 1.0).abs() < 1e-12, "pi[0] = {}", out.pi()[0]);
}

#[test]
fn vbx_rejects_phi_with_pos_inf() {
    let x = DMatrix::<f64>::zeros(5, 4);
    let mut phi = DVector::<f64>::from_element(4, 1.0);
    phi[1] = f64::INFINITY;
    let qinit = DMatrix::<f64>::from_element(5, 2, 0.5);
    let result = vbx_iterate(x.as_view(), &phi, &qinit, 0.07, 0.8, 20);
    assert!(
        matches!(result, Err(Error::NonPositivePhi(p, 1)) if f(p).is_infinite() && f(p) > 0.0),
        "got {result:?}"
    );
}

#[test]
fn vbx_rejects_phi_with_nan() {
    let x = DMatrix::<f64>::zeros(5, 4);
    let mut phi = DVector::<f64>::from_element(4, 1.0);
    phi[3] = f64::NAN;
    let qinit = DMatrix::<f64>::from_element(5, 2, 0.5);
    let result = vbx_iterate(x.as_view(), &phi, &qinit, 0.07, 0.8, 20);
    assert!(
        matches!(result, Err(Error::NonPositivePhi(p, 3)) if f(p).is_nan()),
        "got {result:?}"
    );
}

#[test]
fn vbx_rejects_x_with_nan() {
    let mut x = DMatrix::<f64>::zeros(5, 4);
    x[(2, 1)] = f64::NAN;
    let phi = DVector::<f64>::from_element(4, 1.0);
    let qinit = DMatrix::<f64>::from_element(5, 2, 0.5);
    let result = vbx_iterate(x.as_view(), &phi, &qinit, 0.07, 0.8, 20);
    assert!(
        matches!(
            result,
            Err(Error::NonFinite(
                NonFiniteField::X
            ))
        ),
        "got {result:?}"
    );
}

#[test]
fn vbx_rejects_x_with_pos_inf() {
    let mut x = DMatrix::<f64>::zeros(5, 4);
    x[(0, 0)] = f64::INFINITY;
    let phi = DVector::<f64>::from_element(4, 1.0);
    let qinit = DMatrix::<f64>::from_element(5, 2, 0.5);
    let result = vbx_iterate(x.as_view(), &phi, &qinit, 0.07, 0.8, 20);
    assert!(
        matches!(
            result,
            Err(Error::NonFinite(
                NonFiniteField::X
            ))
        ),
        "got {result:?}"
    );
}

#[test]
fn vbx_rejects_x_with_neg_inf() {
    let mut x = DMatrix::<f64>::zeros(5, 4);
    x[(4, 3)] = f64::NEG_INFINITY;
    let phi = DVector::<f64>::from_element(4, 1.0);
    let qinit = DMatrix::<f64>::from_element(5, 2, 0.5);
    let result = vbx_iterate(x.as_view(), &phi, &qinit, 0.07, 0.8, 20);
    assert!(
        matches!(
            result,
            Err(Error::NonFinite(
                NonFiniteField::X
            ))
        ),
        "got {result:?}"
    );
}

#[test]
fn vbx_rejects_invalid_x_even_with_max_iters_zero() {
    let mut x = DMatrix::<f64>::zeros(5, 4);
    x[(2, 2)] = f64::NAN;
    let phi = DVector::<f64>::from_element(4, 1.0);
    let qinit = DMatrix::<f64>::from_element(5, 2, 0.5);
    let result = vbx_iterate(x.as_view(), &phi, &qinit, 0.07, 0.8, 0);
    assert!(
        matches!(
            result,
            Err(Error::NonFinite(
                NonFiniteField::X
            ))
        ),
        "boundary validation must run even at max_iters=0; got {result:?}"
    );
}

#[test]
fn vbx_rejects_invalid_phi_even_with_max_iters_zero() {
    let x = DMatrix::<f64>::zeros(5, 4);
    let mut phi = DVector::<f64>::from_element(4, 1.0);
    phi[2] = f64::INFINITY;
    let qinit = DMatrix::<f64>::from_element(5, 2, 0.5);
    let result = vbx_iterate(x.as_view(), &phi, &qinit, 0.07, 0.8, 0);
    assert!(
        matches!(result, Err(Error::NonPositivePhi(p, 2)) if f(p).is_infinite()),
        "boundary validation must run even at max_iters=0; got {result:?}"
    );
}

#[test]
fn classify_elbo_step_continues_on_large_positive_delta() {
    assert_eq!(
        classify_elbo_step(0.5, -1.5, -1.0, 1.0e-4),
        ElboStep::Continue
    );
}

#[test]
fn classify_elbo_step_converges_on_small_positive_delta() {
    assert_eq!(
        classify_elbo_step(1.0e-5, -1.00001, -1.0, 1.0e-4),
        ElboStep::Converged
    );
}

#[test]
fn classify_elbo_step_converges_on_tiny_negative_delta_within_tolerance() {
    assert_eq!(
        classify_elbo_step(-1.0e-12, -1.0, -1.0 - 1.0e-12, 1.0e-4),
        ElboStep::Converged
    );
}

#[test]
fn classify_elbo_step_regresses_on_large_negative_delta() {
    match classify_elbo_step(-1.0e-4, -1.0, -1.0001, 1.0e-4) {
        ElboStep::Regressed(d) => assert_eq!(d, -1.0e-4),
        other => panic!("expected Regressed, got {other:?}"),
    }
}

#[test]
fn classify_elbo_step_regresses_just_outside_tolerance() {
    match classify_elbo_step(-1.0e-8, -1.0, -1.00000001, 1.0e-4) {
        ElboStep::Regressed(d) => assert_eq!(d, -1.0e-8),
        other => panic!("expected Regressed, got {other:?}"),
    }
}

#[test]
fn classify_elbo_step_zero_delta_is_converged() {
    assert_eq!(
        classify_elbo_step(0.0, -1.0, -1.0, 1.0e-4),
        ElboStep::Converged
    );
}

#[test]
fn classify_elbo_step_absorbs_relative_float_roundoff_at_large_magnitude() {
    let prev = -2700.0_f64;
    let delta = -2.47e-8_f64;
    let elbo = prev + delta;
    assert_eq!(
        classify_elbo_step(delta, prev, elbo, 1.0e-4),
        ElboStep::Converged,
        "scale-aware band must absorb a delta the absolute tolerance \
          would have rejected"
    );
}

#[test]
fn classify_elbo_step_still_rejects_material_regression_at_large_magnitude() {
    let prev = -2700.0_f64;
    let delta = -1.0e-3_f64;
    let elbo = prev + delta;
    match classify_elbo_step(delta, prev, elbo, 1.0e-4) {
        ElboStep::Regressed(d) => assert_eq!(d, delta),
        other => panic!("expected Regressed at large magnitude, got {other:?}"),
    }
}

#[test]
fn vbx_reports_max_iterations_reached_when_cap_is_one() {
    let t = 6;
    let s = 2;
    let d = 4;
    let mut x = DMatrix::<f64>::zeros(t, d);
    for i in 0..t {
        for j in 0..d {
            x[(i, j)] = ((i + j) as f64) * 0.5;
        }
    }
    let phi = DVector::<f64>::from_element(d, 1.0);
    let qinit = deterministic_qinit(t, s);
    let out = vbx_iterate(x.as_view(), &phi, &qinit, 0.07, 0.8, 1).expect("vbx_iterate");
    assert_eq!(
        out.stop_reason(),
        StopReason::MaxIterationsReached,
        "max_iters=1 cannot fire convergence (check requires ii > 0)"
    );
    assert_eq!(out.elbo_trajectory().len(), 1, "ran exactly 1 iteration");
}

#[test]
fn vbx_reports_converged_on_easy_input() {
    let t = 6;
    let s = 2;
    let d = 4;
    let mut x = DMatrix::<f64>::zeros(t, d);
    for i in 0..t {
        for j in 0..d {
            x[(i, j)] = ((i + j) as f64) * 0.5;
        }
    }
    let phi = DVector::<f64>::from_element(d, 1.0);
    let qinit = deterministic_qinit(t, s);
    let out = vbx_iterate(x.as_view(), &phi, &qinit, 0.07, 0.8, 50).expect("vbx_iterate");
    assert_eq!(
        out.stop_reason(),
        StopReason::Converged,
        "easy input with generous cap must converge before exhaustion; \
          ran {} iterations",
        out.elbo_trajectory().len()
    );
    assert!(
        out.elbo_trajectory().len() < 50,
        "expected early convergence, ran {} iters",
        out.elbo_trajectory().len()
    );
}

/// One iteration, written out on native numbers.
fn reference_round(
    x: &DMatrix<f64>,
    phi: &DVector<f64>,
    gamma: &DMatrix<f64>,
    pi: &[f64],
    fa: f64,
    fb: f64,
) -> (DMatrix<f64>, f64) {
    let (t, dims) = x.shape();
    let s = gamma.ncols();
    let log_2pi = (2.0 * std::f64::consts::PI).ln();
    let rho = DMatrix::from_fn(t, dims, |r, c| x[(r, c)] * phi[c].sqrt());
    let inv = DMatrix::from_fn(s, dims, |i, j| {
        1.0 / (1.0 + fa / fb * gamma.column(i).sum() * phi[j])
    });
    let prod = gamma.transpose() * &rho;
    let alpha = DMatrix::from_fn(s, dims, |i, j| fa / fb * inv[(i, j)] * prod[(i, j)]);
    let fit = &rho * alpha.transpose();
    let log_p = DMatrix::from_fn(t, s, |r, i| {
        let spread: f64 =
            (0..dims).map(|j| (inv[(i, j)] + alpha[(i, j)] * alpha[(i, j)]) * phi[j]).sum();
        let square: f64 = (0..dims).map(|j| x[(r, j)] * x[(r, j)]).sum();
        let constant = -0.5 * (square + dims as f64 * log_2pi);
        fa * (fit[(r, i)] - 0.5 * spread + constant) + (pi[i] + 1e-8).ln()
    });
    let sums = logsumexp_rows(&log_p);
    let next = DMatrix::from_fn(t, s, |r, i| (log_p[(r, i)] - sums[r]).exp());
    let mut bracket = 0.0;
    for i in 0..s {
        for j in 0..dims {
            bracket += inv[(i, j)].ln() - inv[(i, j)] - alpha[(i, j)] * alpha[(i, j)] + 1.0;
        }
    }
    (next, sums.iter().sum::<f64>() + fb * 0.5 * bracket)
}

#[test]
fn rounds_follow_the_formulas() {
    let (t, dims, s) = (12, 3, 2);
    let x = DMatrix::<f64>::from_fn(t, dims, |i, j| ((i * 5 + j * 3) as f64 * 0.37).sin() * 2.0);
    let phi = DVector::<f64>::from_fn(dims, |i, _| 1.0 + i as f64);
    let qinit = deterministic_qinit(t, s);
    let out = vbx_iterate(x.as_view(), &phi, &qinit, 0.3, 0.9, 3).unwrap();
    let mut gamma = qinit;
    let mut pi = vec![0.5; s];
    for (i, &bound) in out.elbo_trajectory().iter().enumerate() {
        let (next, elbo) = reference_round(&x, &phi, &gamma, &pi, 0.3, 0.9);
        assert!((bound - elbo).abs() < 1e-9, "round {i}: {bound} against {elbo}");
        gamma = next;
        let weights: Vec<f64> = (0..s).map(|j| gamma.column(j).sum()).collect();
        let total: f64 = weights.iter().sum();
        pi = weights.iter().map(|w| w / total).collect();
    }
    for r in 0..t {
        for c in 0..s {
            assert!((out.gamma()[(r, c)] - gamma[(r, c)]).abs() < 1e-12);
        }
    }
    for c in 0..s {
        assert!((out.pi()[c] - pi[c]).abs() < 1e-12);
    }
}

#[test]
fn every_bad_setting_has_its_error() {
    let x = DMatrix::<f64>::zeros(5, 4);
    let phi = DVector::<f64>::from_element(4, 1.0);
    let q = deterministic_qinit(5, 2);
    let shape = |r: Result<Output, Error>| match r {
        Err(Error::Shape(e)) => e,
        other => panic!("expected a shape error, got {other:?}"),
    };
    let short_phi = DVector::<f64>::from_element(3, 1.0);
    assert_eq!(
        shape(vbx_iterate(x.as_view(), &short_phi, &q, 0.1, 0.8, 5)),
        ShapeError::PhiXFeatureMismatch
    );
    let tall = deterministic_qinit(6, 2);
    assert_eq!(
        shape(vbx_iterate(x.as_view(), &phi, &tall, 0.1, 0.8, 5)),
        ShapeError::QinitXRowMismatch
    );
    let none = DMatrix::<f64>::zeros(5, 0);
    assert_eq!(
        shape(vbx_iterate(x.as_view(), &phi, &none, 0.1, 0.8, 5)),
        ShapeError::QinitNoClusters
    );
    assert_eq!(shape(vbx_iterate(x.as_view(), &phi, &q, 0.0, 0.8, 5)), ShapeError::InvalidFa);
    assert_eq!(shape(vbx_iterate(x.as_view(), &phi, &q, 0.1, -1.0, 5)), ShapeError::InvalidFb);
    assert_eq!(shape(vbx_iterate(x.as_view(), &phi, &q, 0.1, 0.8, 0)), ShapeError::ZeroMaxIters);
    assert_eq!(
        shape(vbx_iterate(x.as_view(), &phi, &q, 0.1, 0.8, 1_001)),
        ShapeError::MaxItersAboveCap
    );
    let bad = DVector::<f64>::from_vec(vec![1.0, 2.0, -3.0, 0.0]);
    let r = vbx_iterate(x.as_view(), &bad, &q, 0.1, 0.8, 5);
    assert!(matches!(r, Err(Error::NonPositivePhi(p, 2)) if f(p) == -3.0), "got {r:?}");
}

#[test]
fn vanishing_responsibilities_are_reported() {
    let kernels = Kernels { dot, log_sum_exp, ln, exp: |_: Double| d(0.0), product };
    let x = to_matrix(&DMatrix::<f64>::zeros(4, 2));
    let q = to_matrix(&deterministic_qinit(4, 2));
    let r = diaric::cluster::vbx::vbx_iterate(
        &x, &[d(1.0), d(1.0)], &q, d(0.1), d(0.8), 5, &kernels,
    );
    assert!(matches!(r, Err(Error::NonFinite(NonFiniteField::PiSum))), "got {r:?}");
}

#[test]
fn a_bound_that_is_not_finite_is_reported() {
    let kernels = Kernels { dot, log_sum_exp: |_: &[Double]| d(f64::INFINITY), ln, exp: |_: Double| d(0.5), product };
    let x = to_matrix(&DMatrix::<f64>::zeros(4, 2));
    let q = to_matrix(&deterministic_qinit(4, 2));
    let r = diaric::cluster::vbx::vbx_iterate(
        &x, &[d(1.0), d(1.0)], &q, d(0.1), d(0.8), 5, &kernels,
    );
    assert!(matches!(r, Err(Error::NonFinite(NonFiniteField::Elbo))), "got {r:?}");
}
