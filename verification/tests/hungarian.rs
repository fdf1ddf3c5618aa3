//! Assignment of speakers to clusters.

use diaric::cluster::hungarian::error::NonFiniteError;
use diaric::cluster::hungarian::search::{augmenting_path, Problem};
use diaric::cluster::hungarian::{
    ChunkAssignment, ChunkLayout, DefaultLayout, Error, Segmentation3, UNMATCHED,
};
use diaric::float::Double;
use diaric::matrix::DoubleMatrix;
use nalgebra::DMatrix;

const MAX_COST_MAGNITUDE: f64 = f64::from_bits(diaric::cluster::hungarian::MAX_COST_MAGNITUDE);

fn d(x: f64) -> Double {
    Double::from_bits(x.to_bits())
}

fn to_matrix(m: &DMatrix<f64>) -> DoubleMatrix {
    let mut cells = Vec::new();
    for i in 0..m.nrows() {
        for j in 0..m.ncols() {
            cells.push(d(m[(i, j)]));
        }
    }
    DoubleMatrix::from_row_vec(m.nrows(), m.ncols(), cells)
}

fn constrained_argmax(chunks: &[DMatrix<f64>]) -> Result<Vec<Vec<i32>>, Error> {
    let own: Vec<DoubleMatrix> = chunks.iter().map(to_matrix).collect();
    diaric::cluster::hungarian::constrained_argmax(&own)
}

fn one(cost: DMatrix<f64>) -> Result<Vec<i32>, Error> {
    constrained_argmax(&[cost]).map(|mut v| v.remove(0))
}

fn linear_sum_assignment(
    nr: usize,
    nc: usize,
    cost: &[f64],
    maximize: bool,
) -> Result<(Vec<usize>, Vec<usize>), Error> {
    let own: Vec<Double> = cost.iter().map(|&x| d(x)).collect();
    diaric::cluster::hungarian::lsap::linear_sum_assignment(nr, nc, &own, maximize)
}

fn brute_force_max_total(cost: &DMatrix<f64>) -> f64 {
    let (rows, cols) = cost.shape();
    let n = rows.min(cols);
    fn subsets(k: usize, n: usize) -> Vec<Vec<usize>> {
        if k == 0 {
            return vec![vec![]];
        }
        let mut out = Vec::new();
        for end in k..=n {
            for mut sub in subsets(k - 1, end - 1) {
                sub.push(end - 1);
                out.push(sub);
            }
        }
        out
    }
    fn permutations(items: &[usize]) -> Vec<Vec<usize>> {
        if items.is_empty() {
            return vec![vec![]];
        }
        let mut out = Vec::new();
        for i in 0..items.len() {
            let mut rest: Vec<usize> = items.to_vec();
            let head = rest.remove(i);
            for mut perm in permutations(&rest) {
                perm.insert(0, head);
                out.push(perm);
            }
        }
        out
    }

    let mut best = f64::NEG_INFINITY;
    for row_subset in subsets(n, rows) {
        for col_subset in subsets(n, cols) {
            for perm in permutations(&col_subset) {
                let total: f64 = row_subset
                    .iter()
                    .zip(perm.iter())
                    .map(|(&r, &c)| cost[(r, c)])
                    .sum();
                if total > best {
                    best = total;
                }
            }
        }
    }
    best
}

fn achieved_total(cost: &DMatrix<f64>, assign: &[i32]) -> f64 {
    let mut total = 0.0;
    for (s, &k) in assign.iter().enumerate() {
        if k != UNMATCHED {
            total += cost[(s, k as usize)];
        }
    }
    total
}

#[test]
fn rejects_empty_chunks() {
    let result = constrained_argmax(&[]);
    assert!(matches!(result, Err(Error::Shape(_))), "got {result:?}");
}

#[test]
fn rejects_empty_speakers() {
    let cost = DMatrix::<f64>::zeros(0, 3);
    let result = one(cost);
    assert!(matches!(result, Err(Error::Shape(_))), "got {result:?}");
}

#[test]
fn rejects_empty_clusters() {
    let cost = DMatrix::<f64>::zeros(3, 0);
    let result = one(cost);
    assert!(matches!(result, Err(Error::Shape(_))), "got {result:?}");
}

#[test]
fn rejects_chunks_with_different_shapes() {
    let a = DMatrix::<f64>::from_element(2, 2, 0.5);
    let b = DMatrix::<f64>::from_element(3, 2, 0.5);
    let result = constrained_argmax(&[a, b]);
    assert!(matches!(result, Err(Error::Shape(_))), "got {result:?}");
}

#[test]
fn square_2x2_picks_diagonal_when_diagonal_dominates() {
    let cost = DMatrix::<f64>::from_row_slice(2, 2, &[0.9, 0.1, 0.2, 0.8]);
    let assign = one(cost).expect("constrained_argmax");
    assert_eq!(assign, vec![0, 1]);
}

#[test]
fn square_2x2_picks_anti_diagonal_when_off_diagonal_dominates() {
    let cost = DMatrix::<f64>::from_row_slice(2, 2, &[0.2, 0.9, 0.8, 0.1]);
    let assign = one(cost).expect("constrained_argmax");
    assert_eq!(assign, vec![1, 0]);
}

#[test]
fn tall_2x3_assigns_both_speakers_to_distinct_clusters() {
    let cost = DMatrix::<f64>::from_row_slice(2, 3, &[0.1, 0.5, 1.0, 0.9, 0.4, 0.3]);
    let assign = one(cost).expect("constrained_argmax");
    assert_eq!(assign, vec![2, 0]);
    assert!(!assign.contains(&UNMATCHED));
}

#[test]
fn wide_3x2_leaves_one_speaker_unmatched() {
    let cost = DMatrix::<f64>::from_row_slice(3, 2, &[0.95, 0.05, 0.05, 0.95, 0.10, 0.10]);
    let assign = one(cost).expect("constrained_argmax");
    assert_eq!(assign, vec![0, 1, UNMATCHED]);
}

#[test]
fn wide_3x2_optimal_unmatches_non_weakest_speaker() {
    let cost = DMatrix::<f64>::from_row_slice(3, 2, &[0.95, 0.10, 0.05, 0.95, 0.99, 0.10]);
    let assign = one(cost).expect("constrained_argmax");
    assert_eq!(assign, vec![UNMATCHED, 1, 0]);
}

#[test]
fn matched_speakers_are_assigned_distinct_clusters() {
    let cost = DMatrix::<f64>::from_fn(4, 4, |i, j| ((i * 7 + j * 13) % 17) as f64 * 0.1);
    let assign = one(cost).expect("constrained_argmax");
    let mut used = std::collections::HashSet::new();
    for &k in &assign {
        if k != UNMATCHED {
            assert!(used.insert(k), "cluster {k} assigned twice in {assign:?}");
        }
    }
    assert!(!assign.contains(&UNMATCHED));
}

#[test]
fn single_speaker_single_cluster() {
    let cost = DMatrix::<f64>::from_element(1, 1, 0.42);
    let assign = one(cost).expect("constrained_argmax");
    assert_eq!(assign, vec![0]);
}

#[test]
fn single_speaker_multiple_clusters_picks_max() {
    let cost = DMatrix::<f64>::from_row_slice(1, 4, &[0.1, 0.5, 0.9, 0.3]);
    let assign = one(cost).expect("constrained_argmax");
    assert_eq!(assign, vec![2]);
}

#[test]
fn single_cluster_multiple_speakers_matches_max_speaker() {
    let cost = DMatrix::<f64>::from_row_slice(3, 1, &[0.1, 0.9, 0.5]);
    let assign = one(cost).expect("constrained_argmax");
    assert_eq!(assign, vec![UNMATCHED, 0, UNMATCHED]);
}

#[test]
fn tests_deterministic_on_repeated_calls() {
    let cost = DMatrix::<f64>::from_fn(5, 4, |i, j| ((i + 2 * j) as f64 * 0.13).cos());
    let a = one(cost.clone()).expect("a");
    let b = one(cost).expect("b");
    assert_eq!(a, b);
}

#[test]
fn nan_in_single_chunk_replaced_with_min() {
    let mut cost = DMatrix::<f64>::from_row_slice(2, 2, &[0.9, 0.5, 0.0, 0.8]);
    cost[(1, 0)] = f64::NAN;
    let assign = one(cost).expect("constrained_argmax with NaN must replace, not error");
    assert_eq!(assign, vec![0, 1]);
}

#[test]
fn nan_replacement_uses_global_nanmin_across_chunks() {
    let mut chunk_a = DMatrix::<f64>::from_row_slice(2, 2, &[0.9, 0.5, 0.7, 0.0]);
    chunk_a[(1, 1)] = f64::NAN;
    let chunk_b = DMatrix::<f64>::from_row_slice(2, 2, &[0.0, 0.0, 0.0, -5.0]);

    let assigns = constrained_argmax(&[chunk_a, chunk_b]).expect("constrained_argmax");
    assert_eq!(assigns.len(), 2);
    assert_eq!(assigns[0], vec![1, 0]);
}

#[test]
fn rejects_pos_inf_entry() {
    let mut cost = DMatrix::<f64>::from_element(2, 2, 0.5);
    cost[(0, 1)] = f64::INFINITY;
    let result = one(cost);
    assert!(matches!(result, Err(Error::NonFinite(_))), "got {result:?}");
}

#[test]
fn rejects_neg_inf_entry() {
    let mut cost = DMatrix::<f64>::from_element(2, 2, 0.5);
    cost[(1, 0)] = f64::NEG_INFINITY;
    let result = one(cost);
    assert!(matches!(result, Err(Error::NonFinite(_))), "got {result:?}");
}

#[test]
fn rejects_inf_even_when_nan_also_present() {
    let mut cost = DMatrix::<f64>::from_row_slice(2, 2, &[0.0, 0.5, 0.7, 0.0]);
    cost[(0, 0)] = f64::NAN;
    cost[(1, 1)] = f64::NEG_INFINITY;
    let result = one(cost);
    assert!(matches!(result, Err(Error::NonFinite(_))), "got {result:?}");
}

#[test]
fn rejects_when_all_entries_non_finite() {
    let cost = DMatrix::<f64>::from_element(2, 2, f64::NAN);
    let result = one(cost);
    assert!(matches!(result, Err(Error::NonFinite(_))), "got {result:?}");
}

#[test]
fn rejects_finite_value_above_max_cost_magnitude() {
    let mut cost = DMatrix::<f64>::from_element(2, 2, 0.5);
    cost[(0, 1)] = f64::MAX;
    let result = one(cost);
    assert!(
        matches!(
            result,
            Err(Error::NonFinite(NonFiniteError::WeightOutOfBounds { .. })),
        ),
        "got {result:?}"
    );
}

#[test]
fn rejects_negative_finite_below_neg_max_cost_magnitude() {
    let mut cost = DMatrix::<f64>::from_element(2, 2, 0.5);
    cost[(1, 0)] = f64::MIN;
    let result = one(cost);
    assert!(
        matches!(
            result,
            Err(Error::NonFinite(NonFiniteError::WeightOutOfBounds { .. })),
        ),
        "got {result:?}"
    );
}

#[test]
fn accepts_value_at_max_cost_magnitude() {
    let mut cost = DMatrix::<f64>::from_element(2, 2, 0.5);
    cost[(0, 0)] = MAX_COST_MAGNITUDE;
    cost[(1, 1)] = -MAX_COST_MAGNITUDE;
    let result = one(cost);
    assert!(result.is_ok(), "got {result:?}");
}

#[test]
fn rejects_value_just_above_max_cost_magnitude() {
    let mut cost = DMatrix::<f64>::from_element(2, 2, 0.5);
    cost[(0, 1)] = f64::from_bits(MAX_COST_MAGNITUDE.to_bits() + 1);
    let result = one(cost);
    assert!(
        matches!(
            result,
            Err(Error::NonFinite(NonFiniteError::WeightOutOfBounds { .. })),
        ),
        "got {result:?}"
    );
}

#[test]
fn tied_3x2_returns_some_optimal_matching() {
    let cost = DMatrix::<f64>::from_row_slice(3, 2, &[0.0, 0.0, 0.0, 0.0, 1.0, 1.0]);
    let assign = one(cost.clone()).expect("constrained_argmax");

    let max = brute_force_max_total(&cost);
    let achieved = achieved_total(&cost, &assign);
    assert!(
        (achieved - max).abs() < 1e-12,
        "tied input must still hit max total ({max:.6}); got {achieved:.6} from {assign:?}"
    );

    let unmatched_count = assign.iter().filter(|&&k| k == UNMATCHED).count();
    assert_eq!(unmatched_count, 1, "expected 1 unmatched, got {assign:?}");

    let mut used = std::collections::HashSet::new();
    for &k in &assign {
        if k != UNMATCHED {
            assert!(used.insert(k), "duplicate cluster {k} in {assign:?}");
        }
    }
}

#[test]
fn tied_3x3_all_equal_returns_some_optimal_matching() {
    let cost = DMatrix::<f64>::from_element(3, 3, 0.5);
    let assign = one(cost.clone()).expect("constrained_argmax");

    let max = brute_force_max_total(&cost);
    let achieved = achieved_total(&cost, &assign);
    assert!(
        (achieved - max).abs() < 1e-12,
        "all-tied square must still hit max ({max:.6}); got {achieved:.6}"
    );
    assert!(
        !assign.contains(&UNMATCHED),
        "square: all matched; got {assign:?}"
    );

    let mut used = std::collections::HashSet::new();
    for &k in &assign {
        assert!(used.insert(k), "duplicate cluster {k} in {assign:?}");
    }
}

#[test]
fn tied_2x3_returns_some_optimal_matching() {
    let cost = DMatrix::<f64>::from_element(2, 3, 0.5);
    let assign = one(cost.clone()).expect("constrained_argmax");

    let max = brute_force_max_total(&cost);
    let achieved = achieved_total(&cost, &assign);
    assert!(
        (achieved - max).abs() < 1e-12,
        "tall tied: must hit max ({max:.6}); got {achieved:.6}"
    );
    assert!(
        !assign.contains(&UNMATCHED),
        "tall: all speakers matched; got {assign:?}"
    );

    let mut used = std::collections::HashSet::new();
    for &k in &assign {
        assert!(used.insert(k), "duplicate cluster {k} in {assign:?}");
    }
}

#[test]
fn pyannote_inactive_speaker_pattern_hits_optimal_total() {
    let cost = DMatrix::<f64>::from_row_slice(3, 2, &[0.9, 0.5, -1.5, -1.5, -1.5, -1.5]);
    let assign = one(cost.clone()).expect("constrained_argmax");

    let max = brute_force_max_total(&cost);
    let achieved = achieved_total(&cost, &assign);
    assert!(
        (achieved - max).abs() < 1e-12,
        "inactive-speaker pattern must hit max ({max:.6}); got {achieved:.6} from {assign:?}"
    );

    assert_eq!(
        assign[0], 0,
        "active speaker 0 must be matched to its peak cluster; got {assign:?}"
    );

    let inactive_matched = (assign[1] != UNMATCHED) as usize + (assign[2] != UNMATCHED) as usize;
    assert_eq!(
        inactive_matched, 1,
        "exactly one inactive speaker should be matched; got {assign:?}"
    );
}

#[test]
fn chunk_assignment_resolves_to_default_layout_row() {

    let _: ChunkAssignment = [0_i32; 3];
    let _: <DefaultLayout as ChunkLayout>::Row = [0_i32; Segmentation3::SLOTS];
    assert_eq!(<DefaultLayout as ChunkLayout>::SLOTS, 3);
}

#[test]
fn chunk_layout_seal_smoke() {
    let _layout = Segmentation3;
    assert_eq!(<Segmentation3 as ChunkLayout>::SLOTS, 3);
}

#[test]
fn matches_scipy_counterexample() {
    let cost = [0.0_f64, 0.0, 0.0, 0.0, 1.0, 1.0];
    let (row_ind, col_ind) = linear_sum_assignment(3, 2, &cost, true).unwrap();
    assert_eq!(row_ind, vec![1, 2]);
    assert_eq!(col_ind, vec![1, 0]);
}

#[test]
fn all_zero_square_returns_identity() {
    let cost = vec![0.0_f64; 4];
    let (row_ind, col_ind) = linear_sum_assignment(2, 2, &cost, false).unwrap();
    assert_eq!(row_ind, vec![0, 1]);
    assert_eq!(col_ind, vec![0, 1]);
}

#[test]
fn matches_scipy_inactive_mask_row() {
    let cost = vec![
        -0.2, -0.2, -0.2, -0.2, -0.2, -0.2, -0.2,
        0.96, 0.95, 1.03, 1.25, 1.29, 1.47, 1.86,
        1.24, 1.09, 1.21, 1.21, 1.18, 1.20, 1.41,
    ];
    let (row_ind, col_ind) = linear_sum_assignment(3, 7, &cost, true).unwrap();
    assert_eq!(row_ind, vec![0, 1, 2]);
    assert_eq!(col_ind, vec![2, 6, 0]);
}

#[test]
fn matches_scipy_2x4_tied_row() {
    let cost = vec![
        0.0, 0.0, 0.0, 0.0,
        1.0, 0.5, 0.3, 0.7,
    ];
    let (row_ind, col_ind) = linear_sum_assignment(2, 4, &cost, true).unwrap();
    assert_eq!(row_ind, vec![0, 1]);
    assert_eq!(col_ind, vec![1, 0]);
}

#[test]
fn rejects_empty_dim() {
    let cost: Vec<f64> = vec![];
    assert!(linear_sum_assignment(0, 5, &cost, false).is_err());
    assert!(linear_sum_assignment(5, 0, &cost, false).is_err());
}

#[test]
fn rejects_nan_cost() {
    let cost = vec![1.0, f64::NAN, 0.0, 0.0];
    assert!(linear_sum_assignment(2, 2, &cost, false).is_err());
}

#[test]
fn max_cost_magnitude_is_ten_to_the_fifteenth() {
    assert_eq!(MAX_COST_MAGNITUDE, 1e15);
}

#[test]
fn assignment_total_is_the_best_of_all() {
    for seed in 0..12u64 {
        let rows = 1 + (seed % 4) as usize;
        let columns = 1 + (seed / 3) as usize;
        let cost = DMatrix::<f64>::from_fn(rows, columns, |i, j| {
            (((i as u64 * 31 + j as u64 * 17 + seed * 13) % 23) as f64 - 11.0) * 0.125
        });
        let assign = one(cost.clone()).unwrap();
        assert_eq!(achieved_total(&cost, &assign), brute_force_max_total(&cost));
        let matched = assign.iter().filter(|&&k| k != UNMATCHED).count();
        assert_eq!(matched, rows.min(columns));
    }
}

#[test]
fn linear_sum_assignment_total_is_the_best_of_all() {
    let cost = DMatrix::<f64>::from_fn(4, 3, |i, j| ((i * 5 + j * 7) % 11) as f64 * 0.25);
    let flat: Vec<f64> = (0..12).map(|t| cost[(t / 3, t % 3)]).collect();
    let (rows, columns) = linear_sum_assignment(4, 3, &flat, true).unwrap();
    let total: f64 = rows.iter().zip(&columns).map(|(&r, &c)| cost[(r, c)]).sum();
    assert_eq!(total, brute_force_max_total(&cost));
    let negated = cost.map(|x| -x);
    let (rows, columns) = linear_sum_assignment(4, 3, &flat, false).unwrap();
    let total: f64 = rows.iter().zip(&columns).map(|(&r, &c)| -cost[(r, c)]).sum();
    assert_eq!(total, brute_force_max_total(&negated));
}

#[test]
fn wrong_cost_length_is_a_shape_error() {
    let r = linear_sum_assignment(2, 2, &[0.0; 3], false);
    assert!(matches!(r, Err(Error::Shape(_))), "got {r:?}");
}

// -------- exact totals and rounded sums --------

#[test]
fn least_cost_far_below_the_others_is_found() {
    let row = [
        f64::from_bits((1023 + 49) << 52),
        f64::from_bits((1023 - 79) << 52),
        f64::from_bits((1023 - 80) << 52),
    ];
    let (rows, cols) = linear_sum_assignment(1, 3, &row, false).unwrap();
    assert_eq!((rows, cols), (vec![0], vec![2]));
}

#[test]
fn sums_round_as_the_numbers_do() {
    let big = 9_007_199_254_740_992.0;
    let (rows, cols) = linear_sum_assignment(2, 2, &[1.0, big, 1.0, big], false).unwrap();
    assert_eq!((rows, cols), (vec![0, 1], vec![1, 0]));
    let (rows, cols) = linear_sum_assignment(2, 2, &[2.0, 3.0, big, big + 2.0], false).unwrap();
    assert_eq!((rows, cols), (vec![0, 1], vec![0, 1]));
}

#[test]
fn argmax_tells_costs_far_below_the_largest_apart() {
    let high = f64::from_bits((1023 + 49) << 52);
    let low = f64::from_bits((1023 - 79) << 52);
    let lower = f64::from_bits((1023 - 80) << 52);
    let first = DMatrix::from_row_slice(2, 2, &[high, high, low, lower]);
    assert_eq!(one(first).unwrap(), vec![1, 0]);
    let second = DMatrix::from_row_slice(2, 2, &[high, high, lower, low]);
    assert_eq!(one(second).unwrap(), vec![0, 1]);
    let tall = DMatrix::from_row_slice(3, 2, &[high, high, low, lower, lower, lower]);
    assert_eq!(one(tall).unwrap(), vec![1, 0, UNMATCHED]);
}

#[test]
fn argmax_compares_negative_costs_of_any_size_exactly() {
    let high = -f64::from_bits((1023 + 49) << 52);
    let low = -f64::from_bits(3);
    let lower = -f64::from_bits(4);
    let cost = DMatrix::from_row_slice(2, 2, &[high, high, lower, low]);
    assert_eq!(one(cost).unwrap(), vec![0, 1]);
    let wide = DMatrix::from_row_slice(2, 3, &[high, high, 1.0, lower, low, 1.0]);
    assert_eq!(one(wide).unwrap(), vec![2, 1]);
}

#[test]
fn sums_beyond_the_range_still_pair_up() {
    let top = f64::MAX;
    let r = linear_sum_assignment(2, 2, &[-top, top, -top, top], false);
    assert_eq!(r.unwrap(), (vec![0, 1], vec![0, 1]));
    let r = linear_sum_assignment(2, 2, &[top, -top, top, -top], false);
    assert_eq!(r.unwrap(), (vec![0, 1], vec![1, 0]));
}

#[test]
fn checks_find_the_least_finite_cost() {
    let chunks = [to_matrix(&DMatrix::from_row_slice(1, 3, &[2.0, f64::NAN, -1.5]))];
    assert_eq!(diaric::cluster::hungarian::algo::check_chunks(&chunks), Ok(d(-1.5)));
    assert!(diaric::cluster::hungarian::algo::check_chunks(&[]).is_err());
}

#[test]
fn whole_number_costs_get_a_best_assignment() {
    for seed in 0..30u64 {
        let cell = |k: u64| ((k * 7 + seed * 13) * 2_654_435_761 % 1_999) as f64 - 999.0;
        for (rows, cols) in [(3usize, 3usize), (3, 5), (5, 3), (4, 4)] {
            let cost: Vec<f64> = (0..(rows * cols) as u64).map(cell).collect();
            let m = DMatrix::from_row_slice(rows, cols, &cost);
            let (r, c) = linear_sum_assignment(rows, cols, &cost, true).unwrap();
            let total: f64 = r.iter().zip(&c).map(|(&i, &j)| m[(i, j)]).sum();
            assert_eq!(total, brute_force_max_total(&m));
            let (r, c) = linear_sum_assignment(rows, cols, &cost, false).unwrap();
            let total: f64 = r.iter().zip(&c).map(|(&i, &j)| m[(i, j)]).sum();
            assert_eq!(total, -brute_force_max_total(&-m));
        }
    }
}

#[test]
fn finite_costs_of_any_size_are_assigned() {
    let sizes = [1e15, -1e15, 1e-300, 3.0, -f64::MAX, f64::MAX, 0.0, -1e15 + 0.125, 7e14];
    for shift in 0..sizes.len() {
        for (rows, cols) in [(3usize, 3usize), (2, 4), (4, 2), (1, 5), (5, 5)] {
            let cost: Vec<f64> =
                (0..rows * cols).map(|k| sizes[(k * 4 + shift * 2) % sizes.len()]).collect();
            for maximize in [false, true] {
                let (r, c) = linear_sum_assignment(rows, cols, &cost, maximize).unwrap();
                assert_eq!(r.len(), rows.min(cols));
                assert!(r.windows(2).all(|w| w[0] < w[1]));
                let mut seen = c.clone();
                seen.sort_unstable();
                seen.dedup();
                assert_eq!(seen.len(), c.len());
                assert!(c.iter().all(|&j| j < cols));
            }
        }
    }
}

#[test]
fn a_search_starts_from_any_partial_matching() {
    let cost: Vec<Double> = [4.0, 1.0, 3.0, 2.0, 0.0, 5.0, 1.0, 2.0, 2.0].map(d).to_vec();
    let zeros = vec![d(0.0); 3];
    let row4col = vec![None, Some(2), None];
    let p = Problem { nr: 3, nc: 3, cost: &cost, u: &zeros, v: &zeros, row4col: &row4col };
    let s = augmenting_path(&p, 0).unwrap();
    assert_eq!(s.sink, 0);
    assert_eq!(s.min_val, d(2.0));
    assert_eq!(s.dist, vec![Some(d(2.0)), Some(d(1.0)), Some(d(3.0))]);
    assert_eq!(s.path, vec![2, 0, 0]);
    assert_eq!(s.row_seen, vec![true, false, true]);
    assert_eq!(s.col_done, vec![true, true, false]);
}

#[test]
fn a_search_without_a_free_column_reaches_none() {
    let cost = vec![d(1.0), d(2.0)];
    let (u, v) = (vec![d(0.0); 2], vec![d(0.0)]);
    let row4col = vec![Some(1)];
    let p = Problem { nr: 2, nc: 1, cost: &cost, u: &u, v: &v, row4col: &row4col };
    assert!(augmenting_path(&p, 0).is_none());
}
