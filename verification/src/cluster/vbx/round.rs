//! One iteration, from the numerical kernels that it calls.

use vstd::prelude::*;
use crate::cluster::vbx::em::{elbo, frame_constants, frame_constants_of, inverse_precisions, inverses, likelihoods, log_likelihoods, lower_bound, means, moments, scaled, scaled_features, second_moments, speaker_means, transpose, transposed};
use crate::float::Double;
use crate::matrix::{copy_row, row, DoubleMatrix, Grid};

verus! {

/// What an iteration computes outside: dot products, the logarithm of a sum of
/// exponentials, logarithms, exponentials and matrix products.
pub struct Kernels<D, S, L, E, M> {
    pub dot: D,
    pub log_sum_exp: S,
    pub ln: L,
    pub exp: E,
    pub product: M,
}

impl<
    D: Fn(&[Double], &[Double]) -> Double,
    S: Fn(&[Double]) -> Double,
    L: Fn(Double) -> Double,
    E: Fn(Double) -> Double,
    M: Fn(&DoubleMatrix, &DoubleMatrix) -> DoubleMatrix,
> Kernels<D, S, L, E, M> {
    /// What the kernels must accept, and the shape of a product.
    pub open spec fn are_total(&self) -> bool {
        &&& forall|a: &[Double], b: &[Double]|
            a@.len() == b@.len() ==> #[trigger] call_requires(self.dot, (a, b))
        &&& forall|a: &[Double]| #[trigger] call_requires(self.log_sum_exp, (a,))
        &&& forall|x: Double| #[trigger] call_requires(self.ln, (x,))
        &&& forall|x: Double| #[trigger] call_requires(self.exp, (x,))
        &&& forall|a: &DoubleMatrix, b: &DoubleMatrix|
            a.width() == b.height() ==> #[trigger] call_requires(self.product, (a, b))
        &&& forall|a: &DoubleMatrix, b: &DoubleMatrix, c: DoubleMatrix| #[trigger]
            call_ensures(self.product, (a, b), c) ==> c.height() == a.height() && c.width()
                == b.width()
    }

    /// `dot` returned `r` for two vectors.
    pub open spec fn dot_gave(&self, x: Seq<Double>, y: Seq<Double>, r: Double) -> bool {
        exists|a: &[Double], b: &[Double]|
            a@ == x && b@ == y && #[trigger] call_ensures(self.dot, (a, b), r)
    }

    /// `log_sum_exp` returned `r` for a vector.
    pub open spec fn log_sum_gave(&self, x: Seq<Double>, r: Double) -> bool {
        log_sum_of(self.log_sum_exp, x, r)
    }

    /// `product` returned `r` for two matrices.
    pub open spec fn product_gave(&self, x: Grid, y: Grid, r: Grid) -> bool {
        exists|a: &DoubleMatrix, b: &DoubleMatrix, c: DoubleMatrix|
            a@ == x && b@ == y && c@ == r && #[trigger] call_ensures(self.product, (a, b), c)
    }

    /// `product` on two matrices.
    fn multiply(&self, a: &DoubleMatrix, b: &DoubleMatrix) -> (c: DoubleMatrix)
        requires
            self.are_total(),
            a.width() == b.height(),
        ensures
            self.product_gave(a@, b@, c@),
            c.height() == a.height(),
            c.width() == b.width(),
    {
        let c: DoubleMatrix = (self.product)(a, b);
        proof {
            assert(call_ensures(self.product, (a, b), c));
        }
        c
    }

    /// The dot product of each row with what stands for it in `others`: the row
    /// itself, or one vector for all.
    fn dot_rows(&self, m: &DoubleMatrix, other: Option<&[Double]>) -> (r: Vec<Double>)
        requires
            self.are_total(),
            other is Some ==> other->0@.len() == m.width(),
        ensures
            r@.len() == m.height(),
            forall|i: int|
                0 <= i < r@.len() ==> self.dot_gave(
                    row(m@, i),
                    partner(m@, other, i),
                    #[trigger] r@[i],
                ),
    {
        let (rows, _) = m.shape();
        let mut r: Vec<Double> = Vec::with_capacity(rows);
        while r.len() < rows
            invariant
                self.are_total(),
                other is Some ==> other->0@.len() == m.width(),
                rows == m.height(),
                r.len() <= rows,
                forall|i: int|
                    0 <= i < r@.len() ==> self.dot_gave(
                        row(m@, i),
                        partner(m@, other, i),
                        #[trigger] r@[i],
                    ),
            decreases rows - r.len(),
        {
            let copy: Vec<Double> = copy_row(m, r.len());
            let a: &[Double] = copy.as_slice();
            let b: &[Double] = match other {
                Some(b) => b,
                None => a,
            };
            let value: Double = (self.dot)(a, b);
            proof {
                assert(call_ensures(self.dot, (a, b), value));
            }
            r.push(value);
        }
        r
    }

    /// The logarithms of numbers, each moved by `shift` first.
    fn logs(&self, values: &[Double], shift: Option<Double>) -> (r: Vec<Double>)
        requires
            self.are_total(),
        ensures
            r@.len() == values@.len(),
            forall|i: int|
                0 <= i < r@.len() ==> call_ensures(
                    self.ln,
                    (shifted(values@[i], shift),),
                    #[trigger] r@[i],
                ),
    {
        let mut r: Vec<Double> = Vec::with_capacity(values.len());
        while r.len() < values.len()
            invariant
                self.are_total(),
                r.len() <= values.len(),
                forall|i: int|
                    0 <= i < r@.len() ==> call_ensures(
                        self.ln,
                        (shifted(values@[i], shift),),
                        #[trigger] r@[i],
                    ),
            decreases values.len() - r.len(),
        {
            let value: Double = values[r.len()];
            let argument: Double = match shift {
                Some(by) => value.add(by),
                None => value,
            };
            let log: Double = (self.ln)(argument);
            r.push(log);
        }
        r
    }
}

/// The vector that row `i` is multiplied with.
pub open spec fn partner(m: Grid, other: Option<&[Double]>, i: int) -> Seq<Double> {
    match other {
        Some(b) => b@,
        None => row(m, i),
    }
}

/// A number moved by `shift`.
pub open spec fn shifted(x: Double, shift: Option<Double>) -> Double {
    match shift {
        Some(by) => x.plus(by),
        None => x,
    }
}

/// What keeps logarithms of priors finite: `1e-8`.
pub open spec fn prior_floor() -> Double {
    Double { bits: 0x3e45_798e_e230_8c3a }
}

/// `2 pi`.
pub open spec fn two_pi() -> Double {
    Double { bits: 0x4019_21fb_5444_2d18 }
}

/// What all iterations share: the scaled features and the frame constants.
pub struct Setup {
    pub rho: DoubleMatrix,
    pub constants: Vec<Double>,
}

/// The setup follows from the features, by what the kernels gave for the squared
/// lengths of the frames and for the logarithm of `2 pi`.
pub open spec fn is_setup<
    D: Fn(&[Double], &[Double]) -> Double,
    S: Fn(&[Double]) -> Double,
    L: Fn(Double) -> Double,
    E: Fn(Double) -> Double,
    M: Fn(&DoubleMatrix, &DoubleMatrix) -> DoubleMatrix,
>(
    kernels: Kernels<D, S, L, E, M>,
    x: Grid,
    phi: Seq<Double>,
    rho: Grid,
    constants: Seq<Double>,
) -> bool {
    &&& rho == scaled(x, phi)
    &&& exists|squares: Seq<Double>, log_2pi: Double| #[trigger]
        are_squares(kernels, x, squares) && #[trigger] call_ensures(
            kernels.ln,
            (two_pi(),),
            log_2pi,
        ) && constants == frame_constants_of(squares, x.width, log_2pi)
}

/// `dot` gave the squared length of every frame.
pub open spec fn are_squares<
    D: Fn(&[Double], &[Double]) -> Double,
    S: Fn(&[Double]) -> Double,
    L: Fn(Double) -> Double,
    E: Fn(Double) -> Double,
    M: Fn(&DoubleMatrix, &DoubleMatrix) -> DoubleMatrix,
>(kernels: Kernels<D, S, L, E, M>, x: Grid, squares: Seq<Double>) -> bool {
    &&& squares.len() == x.height
    &&& forall|t: int|
        0 <= t < squares.len() ==> kernels.dot_gave(row(x, t), row(x, t), #[trigger] squares[t])
}

/// Computes what all iterations share.
pub fn prepare<
    D: Fn(&[Double], &[Double]) -> Double,
    S: Fn(&[Double]) -> Double,
    L: Fn(Double) -> Double,
    E: Fn(Double) -> Double,
    M: Fn(&DoubleMatrix, &DoubleMatrix) -> DoubleMatrix,
>(x: &DoubleMatrix, phi: &[Double], kernels: &Kernels<D, S, L, E, M>) -> (r: Setup)
    requires
        kernels.are_total(),
        x.width() == phi.len(),
    ensures
        is_setup(*kernels, x@, phi@, r.rho@, r.constants@),
        r.rho.height() == x.height(),
        r.rho.width() == x.width(),
        r.constants.len() == x.height(),
{
    let log_2pi: Double = (kernels.ln)(Double::from_bits(0x4019_21fb_5444_2d18));
    let squares: Vec<Double> = kernels.dot_rows(x, None);
    let (_, dims) = x.shape();
    let constants: Vec<Double> = frame_constants(squares.as_slice(), dims, log_2pi);
    proof {
        assert(are_squares(*kernels, x@, squares@));
        assert(call_ensures(kernels.ln, (two_pi(),), log_2pi));
    }
    Setup { rho: scaled_features(x, phi), constants }
}

/// What an iteration gives.
pub struct EmRound {
    /// The new responsibilities.
    pub gamma: DoubleMatrix,
    /// The lower bound.
    pub elbo: Double,
}

/// What the kernels gave in one iteration.
pub ghost struct Trace {
    /// Responsibilities times features, a row per speaker.
    pub product: Grid,
    /// The second moment of each speaker.
    pub spreads: Seq<Double>,
    /// Features times speaker means, a row per frame.
    pub fit: Grid,
    /// The logarithms of the priors.
    pub log_priors: Seq<Double>,
    /// The log-likelihood of each frame.
    pub log_sums: Seq<Double>,
    /// The logarithms of the inverse precisions, row by row.
    pub log_inverses: Seq<Double>,
}

/// The quantities of one iteration, from what the kernels gave.
pub ghost struct Derived {
    pub inverses: Grid,
    pub means: Grid,
    pub likelihoods: Grid,
}

pub open spec fn derived(
    trace: Trace,
    constants: Seq<Double>,
    phi: Seq<Double>,
    gamma: Grid,
    fa: Double,
    fb: Double,
) -> Derived {
    let inv = inverses(gamma, phi, fa.over(fb));
    Derived {
        inverses: inv,
        means: means(inv, trace.product, fa.over(fb)),
        likelihoods: likelihoods(trace.fit, trace.spreads, constants, trace.log_priors, fa),
    }
}

/// The kernels gave the trace, each part for the quantities that the parts before
/// it determine.
pub open spec fn is_trace<
    D: Fn(&[Double], &[Double]) -> Double,
    S: Fn(&[Double]) -> Double,
    L: Fn(Double) -> Double,
    E: Fn(Double) -> Double,
    M: Fn(&DoubleMatrix, &DoubleMatrix) -> DoubleMatrix,
>(
    kernels: Kernels<D, S, L, E, M>,
    trace: Trace,
    rho: Grid,
    phi: Seq<Double>,
    gamma: Grid,
    pi: Seq<Double>,
    d: Derived,
) -> bool {
    &&& kernels.product_gave(transposed(gamma), rho, trace.product)
    &&& kernels.product_gave(rho, transposed(d.means), trace.fit)
    &&& trace.spreads.len() == gamma.width
    &&& forall|s: int|
        0 <= s < trace.spreads.len() ==> kernels.dot_gave(
            row(moments(d.inverses, d.means), s),
            phi,
            #[trigger] trace.spreads[s],
        )
    &&& trace.log_priors.len() == pi.len()
    &&& forall|s: int|
        0 <= s < pi.len() ==> call_ensures(
            kernels.ln,
            (pi[s].plus(prior_floor()),),
            #[trigger] trace.log_priors[s],
        )
    &&& trace.log_sums.len() == rho.height
    &&& forall|t: int|
        0 <= t < rho.height ==> kernels.log_sum_gave(
            row(d.likelihoods, t),
            #[trigger] trace.log_sums[t],
        )
    &&& trace.log_inverses.len() == d.inverses.cells.len()
    &&& forall|i: int|
        0 <= i < trace.log_inverses.len() ==> call_ensures(
            kernels.ln,
            (d.inverses.cells[i],),
            #[trigger] trace.log_inverses[i],
        )
}

/// `exp` gave every new responsibility: the exponential of the log-likelihood less
/// that of its frame.
pub open spec fn are_responsibilities<
    D: Fn(&[Double], &[Double]) -> Double,
    S: Fn(&[Double]) -> Double,
    L: Fn(Double) -> Double,
    E: Fn(Double) -> Double,
    M: Fn(&DoubleMatrix, &DoubleMatrix) -> DoubleMatrix,
>(
    kernels: Kernels<D, S, L, E, M>,
    log_p: Grid,
    log_sums: Seq<Double>,
    gamma: Grid,
) -> bool {
    &&& gamma.height == log_p.height
    &&& gamma.width == log_p.width
    &&& forall|t: int, s: int|
        0 <= t < log_p.height && 0 <= s < log_p.width ==> call_ensures(
            kernels.exp,
            (log_p.at(t, s).minus(log_sums[t]),),
            #[trigger] gamma.at(t, s),
        )
}

/// An iteration with the given trace ends with the round.
pub open spec fn ends_with<
    D: Fn(&[Double], &[Double]) -> Double,
    S: Fn(&[Double]) -> Double,
    L: Fn(Double) -> Double,
    E: Fn(Double) -> Double,
    M: Fn(&DoubleMatrix, &DoubleMatrix) -> DoubleMatrix,
>(
    kernels: Kernels<D, S, L, E, M>,
    trace: Trace,
    d: Derived,
    fb: Double,
    round: EmRound,
) -> bool {
    &&& are_responsibilities(kernels, d.likelihoods, trace.log_sums, round.gamma@)
    &&& round.elbo == lower_bound(
        trace.log_sums,
        trace.log_inverses,
        d.inverses.cells,
        d.means.cells,
        fb,
    )
}

/// An iteration from responsibilities and priors may end with the round.
pub open spec fn is_em_round<
    D: Fn(&[Double], &[Double]) -> Double,
    S: Fn(&[Double]) -> Double,
    L: Fn(Double) -> Double,
    E: Fn(Double) -> Double,
    M: Fn(&DoubleMatrix, &DoubleMatrix) -> DoubleMatrix,
>(
    kernels: Kernels<D, S, L, E, M>,
    rho: Grid,
    constants: Seq<Double>,
    phi: Seq<Double>,
    gamma: Grid,
    pi: Seq<Double>,
    fa: Double,
    fb: Double,
    round: EmRound,
) -> bool {
    exists|trace: Trace|
        is_trace(
            kernels,
            trace,
            rho,
            phi,
            gamma,
            pi,
            derived(trace, constants, phi, gamma, fa, fb),
        ) && #[trigger] ends_with(
            kernels,
            trace,
            derived(trace, constants, phi, gamma, fa, fb),
            fb,
            round,
        )
}

/// `log_sum_exp` returned `r` for a vector.
pub open spec fn log_sum_of<S: Fn(&[Double]) -> Double>(
    log_sum_exp: S,
    x: Seq<Double>,
    r: Double,
) -> bool {
    exists|a: &[Double]| a@ == x && #[trigger] call_ensures(log_sum_exp, (a,), r)
}

/// The logarithm of the sum of exponentials of every row, which `log_sum_exp`
/// computes.
pub fn logsumexp_rows<S: Fn(&[Double]) -> Double>(m: &DoubleMatrix, log_sum_exp: &S) -> (r: Vec<
    Double,
>)
    requires
        forall|a: &[Double]| #[trigger] call_requires(*log_sum_exp, (a,)),
    ensures
        r@.len() == m.height(),
        forall|t: int|
            0 <= t < r@.len() ==> log_sum_of(*log_sum_exp, row(m@, t), #[trigger] r@[t]),
{
    let (rows, _) = m.shape();
    let mut r: Vec<Double> = Vec::with_capacity(rows);
    while r.len() < rows
        invariant
            forall|a: &[Double]| #[trigger] call_requires(*log_sum_exp, (a,)),
            rows == m.height(),
            r.len() <= rows,
            forall|t: int|
                0 <= t < r@.len() ==> log_sum_of(*log_sum_exp, row(m@, t), #[trigger] r@[t]),
        decreases rows - r.len(),
    {
        let copy: Vec<Double> = copy_row(m, r.len());
        let cells: &[Double] = copy.as_slice();
        let value: Double = log_sum_exp(cells);
        proof {
            assert(call_ensures(*log_sum_exp, (cells,), value));
        }
        r.push(value);
    }
    r
}

/// One iteration: new speaker models from the responsibilities, new
/// responsibilities from the models, and the lower bound.
pub fn em_round<
    D: Fn(&[Double], &[Double]) -> Double,
    S: Fn(&[Double]) -> Double,
    L: Fn(Double) -> Double,
    E: Fn(Double) -> Double,
    M: Fn(&DoubleMatrix, &DoubleMatrix) -> DoubleMatrix,
>(
    setup: &Setup,
    phi: &[Double],
    gamma: &DoubleMatrix,
    pi: &[Double],
    fa: Double,
    fb: Double,
    kernels: &Kernels<D, S, L, E, M>,
) -> (round: EmRound)
    requires
        kernels.are_total(),
        setup.rho.width() == phi.len(),
        setup.rho.height() == gamma.height(),
        setup.constants.len() == gamma.height(),
        pi.len() == gamma.width(),
        gamma.width() * phi.len() <= usize::MAX,
    ensures
        is_em_round(
            *kernels,
            setup.rho@,
            setup.constants@,
            phi@,
            gamma@,
            pi@,
            fa,
            fb,
            round,
        ),
        round.gamma.height() == gamma.height(),
        round.gamma.width() == gamma.width(),
{
    let ratio: Double = fa.div(fb);
    let inv_l: DoubleMatrix = inverse_precisions(gamma, phi, ratio);
    let turned: DoubleMatrix = transpose(gamma);
    let product: DoubleMatrix = kernels.multiply(&turned, &setup.rho);
    let alpha: DoubleMatrix = speaker_means(&inv_l, &product, ratio);
    let turned_means: DoubleMatrix = transpose(&alpha);
    let fit: DoubleMatrix = kernels.multiply(&setup.rho, &turned_means);
    let squares: DoubleMatrix = second_moments(&inv_l, &alpha);
    let spreads: Vec<Double> = kernels.dot_rows(&squares, Some(phi));
    let floor: Double = Double::from_bits(0x3e45_798e_e230_8c3a);
    let log_priors: Vec<Double> = kernels.logs(pi, Some(floor));
    let log_p: DoubleMatrix = log_likelihoods(
        &fit,
        spreads.as_slice(),
        setup.constants.as_slice(),
        log_priors.as_slice(),
        fa,
    );
    let (frames, speakers) = log_p.shape();
    let log_sums: Vec<Double> = logsumexp_rows(&log_p, &kernels.log_sum_exp);
    let size: usize = log_p.cells().len();
    let sums: &[Double] = log_sums.as_slice();
    let cell = |t: usize, s: usize| -> (r: Double)
        requires
            kernels.are_total(),
            log_p.has(t as int, s as int),
            sums@.len() == log_p.height(),
        ensures
            call_ensures(
                kernels.exp,
                (log_p@.at(t as int, s as int).minus(sums@[t as int]),),
                r,
            ),
        { (kernels.exp)(log_p.get(t, s).sub(sums[t])) };
    let next: DoubleMatrix = DoubleMatrix::from_fn(frames, speakers, cell);
    let log_inverses: Vec<Double> = kernels.logs(inv_l.cells(), None);
    let bound: Double = elbo(
        log_sums.as_slice(),
        log_inverses.as_slice(),
        &inv_l,
        &alpha,
        fb,
    );
    let round: EmRound = EmRound { gamma: next, elbo: bound };
    proof {
        let trace = Trace {
            product: product@,
            spreads: spreads@,
            fit: fit@,
            log_priors: log_priors@,
            log_sums: log_sums@,
            log_inverses: log_inverses@,
        };
        let d = derived(trace, setup.constants@, phi@, gamma@, fa, fb);
        assert(d.inverses == inv_l@);
        assert(d.means == alpha@);
        assert(d.likelihoods == log_p@);
        assert(is_trace(*kernels, trace, setup.rho@, phi@, gamma@, pi@, d));
        assert forall|t: int, s: int|
            0 <= t < log_p@.height && 0 <= s < log_p@.width implies call_ensures(
            kernels.exp,
            (log_p@.at(t, s).minus(log_sums@[t]),),
            #[trigger] next@.at(t, s),
        ) by {
            assert(call_ensures(
                cell,
                (t as usize, s as usize),
                next.at(t as usize as int, s as usize as int),
            ));
        }
        assert(ends_with(*kernels, trace, d, fb, round));
    }
    round
}

} // verus!
