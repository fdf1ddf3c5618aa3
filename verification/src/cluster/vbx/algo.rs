//! The iteration.

use vstd::prelude::*;
use crate::aggregate::count::{is_positive, positive};
use crate::cluster::vbx::check::{check_vbx, vbx_error};
use crate::cluster::vbx::em::{column_sums, divide_all, normalised, sum_columns, sum_of};
use crate::cluster::vbx::error::{Error, NonFiniteField};
use crate::cluster::vbx::round::{em_round, is_em_round, is_setup, prepare, EmRound, Kernels, Setup};
use crate::cluster::vbx::step::{classify_elbo_step, elbo_step, ElboStep, StopReason};
use crate::float::sums::add_all;
use crate::float::Double;
use crate::matrix::{DoubleMatrix, Grid};

verus! {

/// The outcome of a clustering.
#[derive(Debug)]
pub struct VbxOutput {
    gamma: DoubleMatrix,
    pi: Vec<Double>,
    elbo_trajectory: Vec<Double>,
    stop_reason: StopReason,
}

impl VbxOutput {
    pub closed spec fn responsibilities(&self) -> DoubleMatrix {
        self.gamma
    }

    pub closed spec fn priors(&self) -> Seq<Double> {
        self.pi@
    }

    pub closed spec fn bounds(&self) -> Seq<Double> {
        self.elbo_trajectory@
    }

    pub closed spec fn reason(&self) -> StopReason {
        self.stop_reason
    }

    pub fn new(
        gamma: DoubleMatrix,
        pi: Vec<Double>,
        elbo_trajectory: Vec<Double>,
        stop_reason: StopReason,
    ) -> (r: VbxOutput)
        ensures
            r.responsibilities() == gamma,
            r.priors() == pi@,
            r.bounds() == elbo_trajectory@,
            r.reason() == stop_reason,
    {
        VbxOutput { gamma, pi, elbo_trajectory, stop_reason }
    }

    /// Final responsibilities, a row per frame.
    pub fn gamma(&self) -> (r: &DoubleMatrix)
        ensures
            *r == self.responsibilities(),
    {
        &self.gamma
    }

    /// Final speaker priors.
    pub fn pi(&self) -> (r: &[Double])
        ensures
            r@ == self.priors(),
    {
        &self.pi
    }

    /// The lower bound after each iteration.
    pub fn elbo_trajectory(&self) -> (r: &[Double])
        ensures
            r@ == self.bounds(),
    {
        &self.elbo_trajectory
    }

    /// Why the iteration stopped.
    pub fn stop_reason(&self) -> (r: StopReason)
        ensures
            r == self.reason(),
    {
        self.stop_reason
    }

    /// The four parts.
    pub fn into_parts(self) -> (r: (DoubleMatrix, Vec<Double>, Vec<Double>, StopReason))
        ensures
            r.0 == self.responsibilities(),
            r.1@ == self.priors(),
            r.2@ == self.bounds(),
            r.3 == self.reason(),
    {
        (self.gamma, self.pi, self.elbo_trajectory, self.stop_reason)
    }
}

/// The least improvement that keeps the iteration going, `1e-4`.
pub open spec fn epsilon() -> Double {
    Double { bits: 0x3f1a_36e2_eb1c_432d }
}

/// The same prior for each of `n` speakers.
pub open spec fn uniform(n: nat) -> Seq<Double> {
    Seq::new(n, |j: int| Double::one_spec().over(Double::natural(n)))
}

/// The priors that responsibilities give: their column sums, normalised.
pub open spec fn priors_of(gamma: Grid) -> Seq<Double> {
    normalised(column_sums(gamma))
}

/// The responsibilities give usable priors.
pub open spec fn has_priors(gamma: Grid) -> bool {
    positive(sum_of(column_sums(gamma)))
}

/// What a run is made from.
pub struct Problem<'a> {
    pub x: &'a DoubleMatrix,
    pub phi: &'a [Double],
    pub qinit: &'a DoubleMatrix,
    pub fa: Double,
    pub fb: Double,
}

/// The responsibilities before round `i`.
pub open spec fn gamma_before(qinit: Grid, rounds: Seq<EmRound>, i: int) -> Grid {
    if i == 0 {
        qinit
    } else {
        rounds[i - 1].gamma@
    }
}

/// The priors before round `i`.
pub open spec fn priors_before(qinit: Grid, rounds: Seq<EmRound>, i: int) -> Seq<Double> {
    if i == 0 {
        uniform(qinit.width)
    } else {
        priors_of(rounds[i - 1].gamma@)
    }
}

/// The `i`-th round comes from what the rounds before it gave.
pub open spec fn is_round<
    D: Fn(&[Double], &[Double]) -> Double,
    S: Fn(&[Double]) -> Double,
    L: Fn(Double) -> Double,
    E: Fn(Double) -> Double,
    M: Fn(&DoubleMatrix, &DoubleMatrix) -> DoubleMatrix,
>(
    kernels: Kernels<D, S, L, E, M>,
    p: Problem,
    rho: Grid,
    constants: Seq<Double>,
    rounds: Seq<EmRound>,
    i: int,
) -> bool {
    is_em_round(
        kernels,
        rho,
        constants,
        p.phi@,
        gamma_before(p.qinit@, rounds, i),
        priors_before(p.qinit@, rounds, i),
        p.fa,
        p.fb,
        rounds[i],
    )
}

/// What the lower bound's change in round `i` means.
pub open spec fn round_step(rounds: Seq<EmRound>, i: int) -> ElboStep {
    let prev = rounds[i - 1].elbo;
    let elbo = rounds[i].elbo;
    elbo_step(elbo.minus(prev), prev, elbo, epsilon())
}

/// Round `i` is in order and leads to a further one.
pub open spec fn goes_on(rounds: Seq<EmRound>, i: int) -> bool {
    &&& has_priors(rounds[i].gamma@)
    &&& rounds[i].elbo.finite()
    &&& i > 0 ==> round_step(rounds, i) is Continue
}

/// `r` is what a run of the given rounds returns.
pub open spec fn is_outcome(
    rounds: Seq<EmRound>,
    max_iters: nat,
    r: Result<VbxOutput, Error>,
) -> bool {
    let last = rounds.len() - 1;
    let gamma = rounds[last].gamma;
    if !has_priors(gamma@) {
        r == Err::<VbxOutput, Error>(Error::NonFinite(NonFiniteField::PiSum))
    } else if !rounds[last].elbo.finite() {
        r == Err::<VbxOutput, Error>(Error::NonFinite(NonFiniteField::Elbo))
    } else if last > 0 && round_step(rounds, last) is Regressed {
        r == Err::<VbxOutput, Error>(
            Error::ElboRegression {
                iter: last as usize,
                delta: rounds[last].elbo.minus(rounds[last - 1].elbo),
            },
        )
    } else {
        let converged = last > 0 && round_step(rounds, last) is Converged;
        &&& converged || rounds.len() == max_iters
        &&& r is Ok
        &&& r->Ok_0.responsibilities() == gamma
        &&& r->Ok_0.priors() == priors_of(gamma@)
        &&& r->Ok_0.bounds() == Seq::new(rounds.len(), |i: int| rounds[i].elbo)
        &&& r->Ok_0.reason() == if converged {
            StopReason::Converged
        } else {
            StopReason::MaxIterationsReached
        }
    }
}

/// `rounds` is a run: every round follows from the ones before it, and all but
/// the last lead on.
pub open spec fn is_run<
    D: Fn(&[Double], &[Double]) -> Double,
    S: Fn(&[Double]) -> Double,
    L: Fn(Double) -> Double,
    E: Fn(Double) -> Double,
    M: Fn(&DoubleMatrix, &DoubleMatrix) -> DoubleMatrix,
>(
    kernels: Kernels<D, S, L, E, M>,
    p: Problem,
    max_iters: nat,
    rounds: Seq<EmRound>,
) -> bool {
    &&& 1 <= rounds.len() <= max_iters
    &&& exists|rho: Grid, constants: Seq<Double>| #[trigger]
        is_setup(kernels, p.x@, p.phi@, rho, constants) && are_rounds(
            kernels,
            p,
            rho,
            constants,
            rounds,
        )
    &&& forall|i: int| 0 <= i < rounds.len() - 1 ==> #[trigger] goes_on(rounds, i)
}

/// Every round follows from the ones before it.
pub open spec fn are_rounds<
    D: Fn(&[Double], &[Double]) -> Double,
    S: Fn(&[Double]) -> Double,
    L: Fn(Double) -> Double,
    E: Fn(Double) -> Double,
    M: Fn(&DoubleMatrix, &DoubleMatrix) -> DoubleMatrix,
>(
    kernels: Kernels<D, S, L, E, M>,
    p: Problem,
    rho: Grid,
    constants: Seq<Double>,
    rounds: Seq<EmRound>,
) -> bool {
    forall|i: int|
        0 <= i < rounds.len() ==> #[trigger] is_round(kernels, p, rho, constants, rounds, i)
}

/// Clusters by iterating from the initial responsibilities `qinit` until the lower
/// bound stops improving, or `max_iters` times.
pub fn vbx_iterate<
    D: Fn(&[Double], &[Double]) -> Double,
    S: Fn(&[Double]) -> Double,
    L: Fn(Double) -> Double,
    E: Fn(Double) -> Double,
    M: Fn(&DoubleMatrix, &DoubleMatrix) -> DoubleMatrix,
>(
    x: &DoubleMatrix,
    phi: &[Double],
    qinit: &DoubleMatrix,
    fa: Double,
    fb: Double,
    max_iters: usize,
    kernels: &Kernels<D, S, L, E, M>,
) -> (r: Result<VbxOutput, Error>)
    requires
        kernels.are_total(),
        vbx_error(*x, phi@, *qinit, fa, fb, max_iters as nat) is None ==> qinit.width() * phi.len()
            <= usize::MAX,
    ensures
        match vbx_error(*x, phi@, *qinit, fa, fb, max_iters as nat) {
            Some(e) => r == Err::<VbxOutput, Error>(e),
            None => exists|rounds: Seq<EmRound>| #[trigger]
                is_run(
                    *kernels,
                    (Problem { x, phi, qinit, fa, fb }),
                    max_iters as nat,
                    rounds,
                ) && is_outcome(rounds, max_iters as nat, r),
        },
{
    match check_vbx(x, phi, qinit, fa, fb, max_iters) {
        Ok(()) => {},
        Err(e) => {
            return Err(e);
        },
    }
    let ghost p = Problem { x, phi, qinit, fa, fb };
    let setup: Setup = prepare(x, phi, kernels);
    let ghost rho = setup.rho@;
    let ghost constants = setup.constants@;
    let (_, speakers) = qinit.shape();
    let mut gamma: DoubleMatrix = qinit.copied();
    let prior: Double = Double::from_bits(0x3ff0_0000_0000_0000).div(
        Double::from_u64(speakers as u64),
    );
    let mut pi: Vec<Double> = vec![prior; speakers];
    let mut elbo_trajectory: Vec<Double> = Vec::new();
    let ghost mut rounds: Seq<EmRound> = Seq::empty();
    proof {
        assert(pi@ =~= uniform(qinit.width()));
    }
    let mut ii: usize = 0;
    while ii < max_iters
        invariant
            ii <= max_iters,
            vbx_error(*x, phi@, *qinit, fa, fb, max_iters as nat) is None,
            kernels.are_total(),
            qinit.width() * phi.len() <= usize::MAX,
            p == (Problem { x, phi, qinit, fa, fb }),
            rho == setup.rho@,
            constants == setup.constants@,
            is_setup(*kernels, x@, phi@, rho, constants),
            setup.rho.width() == phi.len(),
            setup.rho.height() == qinit.height(),
            setup.constants.len() == qinit.height(),
            rounds.len() == ii,
            elbo_trajectory@ == Seq::new(rounds.len(), |i: int| rounds[i].elbo),
            are_rounds(*kernels, p, rho, constants, rounds),
            forall|i: int| 0 <= i < rounds.len() ==> #[trigger] goes_on(rounds, i),
            gamma.height() == qinit.height(),
            gamma.width() == qinit.width(),
            gamma@ == gamma_before(qinit@, rounds, ii as int),
            pi@ == priors_before(qinit@, rounds, ii as int),
            ii > 0 ==> gamma == rounds[ii - 1].gamma,
        decreases max_iters - ii,
    {
        proof {
            assert(pi@.len() == gamma.width());
        }
        let round: EmRound = em_round(&setup, phi, &gamma, pi.as_slice(), fa, fb, kernels);
        let ghost before = rounds;
        proof {
            rounds = rounds.push(round);
            assert forall|i: int| 0 <= i < rounds.len() implies #[trigger] is_round(
                *kernels,
                p,
                rho,
                constants,
                rounds,
                i,
            ) by {
                if i < ii {
                    assert(is_round(*kernels, p, rho, constants, before, i));
                }
            }
            assert forall|i: int| 0 <= i < rounds.len() - 1 implies #[trigger] goes_on(rounds, i) by {
                assert(goes_on(before, i));
            }
            assert(is_setup(*kernels, p.x@, p.phi@, rho, constants));
            assert(are_rounds(*kernels, p, rho, constants, rounds));
            assert(is_run(*kernels, p, max_iters as nat, rounds));
        }
        let weights: Vec<Double> = sum_columns(&round.gamma);
        let pi_sum: Double = add_all(Double::zero(), &weights);
        if !is_positive(pi_sum) {
            return Err(Error::NonFinite(NonFiniteField::PiSum));
        }
        let elbo: Double = round.elbo;
        pi = divide_all(&weights, pi_sum);
        gamma = round.gamma;
        proof {
            assert(pi@ =~= priors_of(gamma@));
        }
        if !elbo.is_finite() {
            return Err(Error::NonFinite(NonFiniteField::Elbo));
        }
        elbo_trajectory.push(elbo);
        proof {
            assert(elbo_trajectory@ =~= Seq::new(rounds.len(), |i: int| rounds[i].elbo));
        }
        if ii > 0 {
            let prev: Double = elbo_trajectory[ii - 1];
            let delta: Double = elbo.sub(prev);
            match classify_elbo_step(delta, prev, elbo, Double::from_bits(0x3f1a_36e2_eb1c_432d)) {
                ElboStep::Continue => {},
                ElboStep::Converged => {
                    return Ok(VbxOutput::new(gamma, pi, elbo_trajectory, StopReason::Converged));
                },
                ElboStep::Regressed(d) => {
                    return Err(Error::ElboRegression { iter: ii, delta: d });
                },
            }
        }
        ii = ii + 1;
    }
    proof {
        assert(is_setup(*kernels, p.x@, p.phi@, rho, constants));
        assert(is_run(*kernels, p, max_iters as nat, rounds));
        assert(goes_on(rounds, rounds.len() - 1));
    }
    Ok(VbxOutput::new(gamma, pi, elbo_trajectory, StopReason::MaxIterationsReached))
}

/// In a run every iteration but the first and the last improved the lower bound
/// by at least epsilon, and an accepted outcome never fell beyond rounding.
pub proof fn law_bounds_improve(
    rounds: Seq<EmRound>,
    max_iters: nat,
    r: Result<VbxOutput, Error>,
    i: int,
)
    requires
        rounds.len() >= 1,
        forall|k: int| 0 <= k < rounds.len() - 1 ==> #[trigger] goes_on(rounds, k),
        is_outcome(rounds, max_iters, r),
        r is Ok,
        0 < i < rounds.len(),
    ensures
        ({
            let delta = r->Ok_0.bounds()[i].minus(r->Ok_0.bounds()[i - 1]);
            &&& i < rounds.len() - 1 ==> !delta.below(epsilon())
            &&& !(elbo_step(
                delta,
                r->Ok_0.bounds()[i - 1],
                r->Ok_0.bounds()[i],
                epsilon(),
            ) is Regressed)
        }),
{
    if i < rounds.len() - 1 {
        assert(goes_on(rounds, i));
    }
}

/// A run that did not converge has used all its iterations.
pub proof fn law_unconverged_runs_are_full(
    rounds: Seq<EmRound>,
    max_iters: nat,
    r: Result<VbxOutput, Error>,
)
    requires
        rounds.len() >= 1,
        is_outcome(rounds, max_iters, r),
        r is Ok,
    ensures
        r->Ok_0.reason() == StopReason::MaxIterationsReached ==> r->Ok_0.bounds().len() == max_iters,
        r->Ok_0.bounds().len() == rounds.len(),
{
}

} // verus!
