//! When the iteration goes on, converges or has gone wrong.

use vstd::prelude::*;
use crate::float::Double;

verus! {

/// Why the iteration stopped.
#[derive(Clone, Copy, Debug, PartialEq, Eq, Structural)]
pub enum StopReason {
    /// The lower bound stopped improving.
    Converged,
    /// All iterations were used without convergence.
    MaxIterationsReached,
}

/// What a change of the lower bound means.
#[derive(Clone, Copy, Debug, PartialEq, Eq, Structural)]
pub enum ElboStep {
    /// It improved by at least epsilon.
    Continue,
    /// It improved by less, or fell within the rounding band.
    Converged,
    /// It fell further than that; carries the change.
    Regressed(Double),
}

/// The rounding band: `1e-9 + 1e-9 * max(|prev|, |elbo|)`.
pub open spec fn rounding_band(prev_elbo: Double, elbo: Double) -> Double {
    let nano = Double { bits: 0x3e11_2e0b_e826_d695 };
    nano.plus(nano.times(prev_elbo.absolute().larger(elbo.absolute())))
}

/// The meaning of a change.
pub open spec fn elbo_step(delta: Double, prev_elbo: Double, elbo: Double, epsilon: Double) -> ElboStep {
    if delta.below(rounding_band(prev_elbo, elbo).negated()) {
        ElboStep::Regressed(delta)
    } else if delta.below(epsilon) {
        ElboStep::Converged
    } else {
        ElboStep::Continue
    }
}

/// The rounding band for a pair of lower bounds.
pub fn regression_tolerance(prev_elbo: Double, elbo: Double) -> (r: Double)
    ensures
        r == rounding_band(prev_elbo, elbo),
{
    let nano: Double = Double::from_bits(0x3e11_2e0b_e826_d695);
    nano.add(nano.mul(prev_elbo.abs().max(elbo.abs())))
}

/// Classifies a change of the lower bound.
pub fn classify_elbo_step(delta: Double, prev_elbo: Double, elbo: Double, epsilon: Double) -> (r: ElboStep)
    ensures
        r == elbo_step(delta, prev_elbo, elbo, epsilon),
{
    let tolerance: Double = regression_tolerance(prev_elbo, elbo);
    if delta.lt(tolerance.neg()) {
        ElboStep::Regressed(delta)
    } else if delta.lt(epsilon) {
        ElboStep::Converged
    } else {
        ElboStep::Continue
    }
}

} // verus!
