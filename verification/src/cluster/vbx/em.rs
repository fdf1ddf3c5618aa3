//! The formulas of one iteration.

use vstd::prelude::*;
use crate::float::sums::{add_all, added, sum};
use crate::float::Double;
use crate::matrix::{DoubleMatrix, Grid};

verus! {

pub open spec fn half() -> Double {
    Double { bits: 0x3fe0_0000_0000_0000 }
}

/// The sum of all numbers, added up from zero in order.
pub open spec fn sum_of(values: Seq<Double>) -> Double {
    added(Double::zero_spec(), values, values.len())
}

/// Column `j` of a matrix.
pub open spec fn column(m: Grid, j: int) -> Seq<Double> {
    Seq::new(m.height, |i: int| m.at(i, j))
}

/// The column sums of a matrix.
pub open spec fn column_sums(m: Grid) -> Seq<Double> {
    Seq::new(m.width, |j: int| sum_of(column(m, j)))
}

/// Each number divided by the sum of all.
pub open spec fn normalised(weights: Seq<Double>) -> Seq<Double> {
    Seq::new(weights.len(), |j: int| weights[j].over(sum_of(weights)))
}

/// The column sums of a matrix.
pub fn sum_columns(m: &DoubleMatrix) -> (r: Vec<Double>)
    ensures
        r@ == column_sums(m@),
{
    let (rows, columns) = m.shape();
    let mut r: Vec<Double> = Vec::with_capacity(columns);
    while r.len() < columns
        invariant
            rows == m.height(),
            columns == m.width(),
            r.len() <= columns,
            forall|j: int| 0 <= j < r.len() ==> #[trigger] r@[j] == column_sums(m@)[j],
        decreases columns - r.len(),
    {
        let j: usize = r.len();
        let mut sum: Double = Double::zero();
        let mut i: usize = 0;
        while i < rows
            invariant
                rows == m.height(),
                columns == m.width(),
                j < columns,
                i <= rows,
                sum == added(Double::zero_spec(), column(m@, j as int), i as nat),
            decreases rows - i,
        {
            sum = sum.add(m.get(i, j));
            i = i + 1;
        }
        r.push(sum);
    }
    proof {
        assert(r@ =~= column_sums(m@));
    }
    r
}

/// Each number divided by `sum`.
pub fn divide_all(weights: &[Double], sum: Double) -> (r: Vec<Double>)
    ensures
        r@ == Seq::new(weights@.len(), |j: int| weights@[j].over(sum)),
{
    let mut r: Vec<Double> = Vec::with_capacity(weights.len());
    while r.len() < weights.len()
        invariant
            r.len() <= weights.len(),
            forall|j: int| 0 <= j < r.len() ==> #[trigger] r@[j] == weights@[j].over(sum),
        decreases weights.len() - r.len(),
    {
        r.push(weights[r.len()].div(sum));
    }
    proof {
        assert(r@ =~= Seq::new(weights@.len(), |j: int| weights@[j].over(sum)));
    }
    r
}

/// Rows and columns exchanged.
pub open spec fn transposed(m: Grid) -> Grid {
    Grid::tabulate(m.width, m.height, |i: int, j: int| m.at(j, i))
}

/// Rows and columns exchanged.
pub fn transpose(m: &DoubleMatrix) -> (r: DoubleMatrix)
    ensures
        r@ == transposed(m@),
{
    let (rows, columns) = m.shape();
    let size: usize = m.cells().len();
    let cell = |i: usize, j: usize| -> (r: Double)
        requires
            m.has(j as int, i as int),
        ensures
            r == m@.at(j as int, i as int),
        { m.get(j, i) };
    proof {
        assert(columns * rows == rows * columns) by (nonlinear_arith);
    }
    DoubleMatrix::tabulate(columns, rows, cell, Ghost(|i: int, j: int| m@.at(j, i)))
}

/// The scaled features: each column times the square root of its eigenvalue.
pub open spec fn scaled(x: Grid, phi: Seq<Double>) -> Grid {
    Grid::tabulate(x.height, x.width, |t: int, d: int| x.at(t, d).times(phi[d].root()))
}

/// The scaled features: each column times the square root of its eigenvalue.
pub fn scaled_features(x: &DoubleMatrix, phi: &[Double]) -> (rho: DoubleMatrix)
    requires
        x.width() == phi.len(),
    ensures
        rho@ == scaled(x@, phi@),
{
    let (rows, columns) = x.shape();
    let size: usize = x.cells().len();
    let cell = |t: usize, d: usize| -> (r: Double)
        requires
            x.has(t as int, d as int),
            x.width() == phi.len(),
        ensures
            r == x@.at(t as int, d as int).times(phi@[d as int].root()),
        { x.get(t, d).mul(phi[d].sqrt()) };
    DoubleMatrix::tabulate(
        rows,
        columns,
        cell,
        Ghost(|t: int, d: int| x@.at(t, d).times(phi@[d].root())),
    )
}

/// The part of a frame's log-likelihood that no speaker changes, from its squared
/// length: `-(square + dims ln 2pi) / 2`.
pub open spec fn frame_constant(square: Double, dims: nat, log_2pi: Double) -> Double {
    half().negated().times(square.plus(Double::natural(dims).times(log_2pi)))
}

/// The constants of all frames.
pub open spec fn frame_constants_of(
    squares: Seq<Double>,
    dims: nat,
    log_2pi: Double,
) -> Seq<Double> {
    Seq::new(squares.len(), |t: int| frame_constant(squares[t], dims, log_2pi))
}

/// The constants of all frames.
pub fn frame_constants(squares: &[Double], dims: usize, log_2pi: Double) -> (g: Vec<Double>)
    ensures
        g@ == frame_constants_of(squares@, dims as nat, log_2pi),
{
    let scaled_log: Double = Double::from_u64(dims as u64).mul(log_2pi);
    let factor: Double = Double::from_bits(0x3fe0_0000_0000_0000).neg();
    let mut g: Vec<Double> = Vec::with_capacity(squares.len());
    while g.len() < squares.len()
        invariant
            g.len() <= squares.len(),
            scaled_log == Double::natural(dims as nat).times(log_2pi),
            factor == half().negated(),
            forall|t: int|
                0 <= t < g.len() ==> #[trigger] g@[t] == frame_constant(
                    squares@[t],
                    dims as nat,
                    log_2pi,
                ),
        decreases squares.len() - g.len(),
    {
        g.push(factor.mul(squares[g.len()].add(scaled_log)));
    }
    proof {
        assert(g@ =~= frame_constants_of(squares@, dims as nat, log_2pi));
    }
    g
}

/// The inverse precision of a speaker along an eigenvalue: `1 / (1 + ratio n phi)`,
/// where `n` is the speaker's weight.
pub open spec fn inverse_precision(ratio: Double, n: Double, p: Double) -> Double {
    Double::one_spec().over(Double::one_spec().plus(ratio.times(n).times(p)))
}

/// The inverse precisions of all speakers along all eigenvalues.
pub open spec fn inverses(gamma: Grid, phi: Seq<Double>, ratio: Double) -> Grid {
    Grid::tabulate(
        gamma.width,
        phi.len(),
        |s: int, d: int| inverse_precision(ratio, column_sums(gamma)[s], phi[d]),
    )
}

/// The inverse precisions of all speakers along all eigenvalues.
pub fn inverse_precisions(gamma: &DoubleMatrix, phi: &[Double], ratio: Double) -> (r: DoubleMatrix)
    requires
        gamma.width() * phi.len() <= usize::MAX,
    ensures
        r@ == inverses(gamma@, phi@, ratio),
{
    let weights: Vec<Double> = sum_columns(gamma);
    let (_, speakers) = gamma.shape();
    let cell = |s: usize, d: usize| -> (r: Double)
        requires
            weights.len() > s,
            phi.len() > d,
        ensures
            r == inverse_precision(ratio, weights@[s as int], phi@[d as int]),
        {
            Double::from_bits(0x3ff0_0000_0000_0000).div(
                Double::from_bits(0x3ff0_0000_0000_0000).add(ratio.mul(weights[s]).mul(phi[d])),
            )
        };
    DoubleMatrix::tabulate(
        speakers,
        phi.len(),
        cell,
        Ghost(|s: int, d: int| inverse_precision(ratio, column_sums(gamma@)[s], phi@[d])),
    )
}

/// The speaker means: `ratio inv product`.
pub open spec fn means(inv_l: Grid, product: Grid, ratio: Double) -> Grid {
    Grid::tabulate(
        inv_l.height,
        inv_l.width,
        |s: int, d: int| ratio.times(inv_l.at(s, d)).times(product.at(s, d)),
    )
}

/// The speaker means, from the product of responsibilities and features.
pub fn speaker_means(inv_l: &DoubleMatrix, product: &DoubleMatrix, ratio: Double) -> (alpha:
    DoubleMatrix)
    requires
        product.height() == inv_l.height(),
        product.width() == inv_l.width(),
    ensures
        alpha@ == means(inv_l@, product@, ratio),
{
    let (speakers, dims) = inv_l.shape();
    let size: usize = inv_l.cells().len();
    let cell = |s: usize, d: usize| -> (r: Double)
        requires
            inv_l.has(s as int, d as int),
            product.height() == inv_l.height(),
            product.width() == inv_l.width(),
        ensures
            r == ratio.times(inv_l@.at(s as int, d as int)).times(
                product@.at(s as int, d as int),
            ),
        { ratio.mul(inv_l.get(s, d)).mul(product.get(s, d)) };
    DoubleMatrix::tabulate(
        speakers,
        dims,
        cell,
        Ghost(|s: int, d: int| ratio.times(inv_l@.at(s, d)).times(product@.at(s, d))),
    )
}

/// The second moments: `inv + mean^2`.
pub open spec fn moments(inv_l: Grid, alpha: Grid) -> Grid {
    Grid::tabulate(
        inv_l.height,
        inv_l.width,
        |s: int, d: int| inv_l.at(s, d).plus(alpha.at(s, d).times(alpha.at(s, d))),
    )
}

/// The second moments of all speakers.
pub fn second_moments(inv_l: &DoubleMatrix, alpha: &DoubleMatrix) -> (r: DoubleMatrix)
    requires
        alpha.height() == inv_l.height(),
        alpha.width() == inv_l.width(),
    ensures
        r@ == moments(inv_l@, alpha@),
{
    let (speakers, dims) = inv_l.shape();
    let size: usize = inv_l.cells().len();
    let cell = |s: usize, d: usize| -> (r: Double)
        requires
            inv_l.has(s as int, d as int),
            alpha.height() == inv_l.height(),
            alpha.width() == inv_l.width(),
        ensures
            r == inv_l@.at(s as int, d as int).plus(
                alpha@.at(s as int, d as int).times(alpha@.at(s as int, d as int)),
            ),
        { inv_l.get(s, d).add(alpha.get(s, d).mul(alpha.get(s, d))) };
    DoubleMatrix::tabulate(
        speakers,
        dims,
        cell,
        Ghost(|s: int, d: int| inv_l@.at(s, d).plus(alpha@.at(s, d).times(alpha@.at(s, d)))),
    )
}

/// The log-likelihood of a frame under a speaker, prior added:
/// `fa (match - spread / 2 + constant) + log_prior`.
pub open spec fn log_likelihood(
    fa: Double,
    fit: Double,
    spread: Double,
    constant: Double,
    log_prior: Double,
) -> Double {
    fa.times(fit.minus(half().times(spread)).plus(constant)).plus(log_prior)
}

/// The log-likelihoods of all frames under all speakers, priors added.
pub open spec fn likelihoods(
    fit: Grid,
    spreads: Seq<Double>,
    constants: Seq<Double>,
    log_priors: Seq<Double>,
    fa: Double,
) -> Grid {
    Grid::tabulate(
        fit.height,
        fit.width,
        |t: int, s: int|
            log_likelihood(fa, fit.at(t, s), spreads[s], constants[t], log_priors[s]),
    )
}

/// The log-likelihoods of all frames under all speakers, priors added.
pub fn log_likelihoods(
    fit: &DoubleMatrix,
    spreads: &[Double],
    constants: &[Double],
    log_priors: &[Double],
    fa: Double,
) -> (r: DoubleMatrix)
    requires
        constants.len() == fit.height(),
        spreads.len() == fit.width(),
        log_priors.len() == fit.width(),
    ensures
        r@ == likelihoods(fit@, spreads@, constants@, log_priors@, fa),
{
    let (frames, speakers) = fit.shape();
    let size: usize = fit.cells().len();
    let cell = |t: usize, s: usize| -> (r: Double)
        requires
            fit.has(t as int, s as int),
            constants.len() == fit.height(),
            spreads.len() == fit.width(),
            log_priors.len() == fit.width(),
        ensures
            r == log_likelihood(
                fa,
                fit@.at(t as int, s as int),
                spreads@[s as int],
                constants@[t as int],
                log_priors@[s as int],
            ),
        {
            fa.mul(
                fit.get(t, s).sub(Double::from_bits(0x3fe0_0000_0000_0000).mul(spreads[s])).add(
                    constants[t],
                ),
            ).add(log_priors[s])
        };
    DoubleMatrix::tabulate(
        frames,
        speakers,
        cell,
        Ghost(
            |t: int, s: int|
                log_likelihood(fa, fit@.at(t, s), spreads@[s], constants@[t], log_priors@[s]),
        ),
    )
}

/// One term of the lower bound: `ln inv - inv - a^2 + 1`.
pub open spec fn bound_term(log_inverse: Double, inverse: Double, mean: Double) -> Double {
    log_inverse.minus(inverse).minus(mean.times(mean)).plus(Double::one_spec())
}

/// The terms of the lower bound over the first `n` cells, row by row.
pub open spec fn bound_terms(
    log_inverses: Seq<Double>,
    inverses: Seq<Double>,
    means: Seq<Double>,
    n: nat,
) -> Double
    decreases n,
{
    if n == 0 {
        Double::zero_spec()
    } else {
        bound_terms(log_inverses, inverses, means, (n - 1) as nat).plus(
            bound_term(log_inverses[n - 1], inverses[n - 1], means[n - 1]),
        )
    }
}

/// The lower bound: the frames' log-sums plus `fb / 2` times the terms of the
/// speaker models.
pub open spec fn lower_bound(
    log_sums: Seq<Double>,
    log_inverses: Seq<Double>,
    inverses: Seq<Double>,
    means: Seq<Double>,
    fb: Double,
) -> Double {
    sum(log_sums).plus(
        fb.times(half()).times(bound_terms(log_inverses, inverses, means, inverses.len())),
    )
}

/// The lower bound, from the logarithms of the inverse precisions.
pub fn elbo(
    log_sums: &[Double],
    log_inverses: &[Double],
    inv_l: &DoubleMatrix,
    alpha: &DoubleMatrix,
    fb: Double,
) -> (r: Double)
    requires
        log_inverses.len() == inv_l.row_major().len(),
        alpha.height() == inv_l.height(),
        alpha.width() == inv_l.width(),
    ensures
        r == lower_bound(
            log_sums@,
            log_inverses@,
            inv_l.row_major(),
            alpha.row_major(),
            fb,
        ),
{
    let inverse_cells: &[Double] = inv_l.cells();
    let mean_cells: &[Double] = alpha.cells();
    let mut bracket: Double = Double::zero();
    let mut i: usize = 0;
    while i < inverse_cells.len()
        invariant
            i <= inverse_cells.len(),
            log_inverses.len() == inverse_cells.len(),
            mean_cells.len() == inverse_cells.len(),
            bracket == bound_terms(log_inverses@, inverse_cells@, mean_cells@, i as nat),
        decreases inverse_cells.len() - i,
    {
        let square: Double = mean_cells[i].mul(mean_cells[i]);
        bracket = bracket.add(
            log_inverses[i].sub(inverse_cells[i]).sub(square).add(
                Double::from_bits(0x3ff0_0000_0000_0000),
            ),
        );
        i = i + 1;
    }
    add_all(Double::minus_zero(), log_sums).add(
        fb.mul(Double::from_bits(0x3fe0_0000_0000_0000)).mul(bracket),
    )
}

} // verus!
