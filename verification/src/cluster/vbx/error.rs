//! Why a variational clustering failed.

use vstd::prelude::*;
use crate::float::Double;

verus! {

/// Errors of the variational clustering.
#[derive(Clone, Copy, Debug, PartialEq, Eq, Structural)]
pub enum Error {
    /// Input shapes or settings are invalid.
    Shape(ShapeError),
    /// A value that must be finite is not.
    NonFinite(NonFiniteField),
    /// An eigenvalue, at the given index, is not positive and finite.
    NonPositivePhi(Double, usize),
    /// The lower bound fell by more than rounding explains.
    ElboRegression { iter: usize, delta: Double },
}

/// The individual shape violations.
#[derive(Clone, Copy, Debug, PartialEq, Eq, Structural)]
pub enum ShapeError {
    ZeroXFeatureDim,
    PhiXFeatureMismatch,
    QinitXRowMismatch,
    QinitNoClusters,
    InvalidFa,
    InvalidFb,
    NegativeQinit,
    QinitRowSumMismatch,
    ZeroMaxIters,
    MaxItersAboveCap,
}

/// The value that is not finite.
#[derive(Clone, Copy, Debug, PartialEq, Eq, Structural)]
pub enum NonFiniteField {
    X,
    Qinit,
    PiSum,
    Elbo,
}

} // verus!
