//! The checks on a clustering input.

use vstd::prelude::*;
use crate::aggregate::count::{all_finite, is_all_finite, is_positive, positive};
use crate::cluster::vbx::error::{Error, NonFiniteField, ShapeError};
use crate::float::sums::added;
use crate::float::Double;
use crate::matrix::{row, DoubleMatrix};

verus! {

/// Most iterations that a run accepts.
pub const MAX_ITERS_CAP: usize = 1_000;

/// The first eigenvalue, among the first `n`, that is not positive and finite.
pub open spec fn phi_fault(phi: Seq<Double>, n: nat) -> Option<Error>
    decreases n,
{
    if n == 0 {
        None
    } else {
        match phi_fault(phi, (n - 1) as nat) {
            Some(e) => Some(e),
            None => if positive(phi[n - 1]) {
                None
            } else {
                Some(Error::NonPositivePhi(phi[n - 1], (n - 1) as usize))
            },
        }
    }
}

/// The first entry, among the first `n`, that is no probability.
pub open spec fn entry_fault(entries: Seq<Double>, n: nat) -> Option<Error>
    decreases n,
{
    if n == 0 {
        None
    } else {
        match entry_fault(entries, (n - 1) as nat) {
            Some(e) => Some(e),
            None => if !entries[n - 1].finite() {
                Some(Error::NonFinite(NonFiniteField::Qinit))
            } else if entries[n - 1].below(Double::zero_spec()) {
                Some(Error::Shape(ShapeError::NegativeQinit))
            } else {
                None
            },
        }
    }
}

/// The entries are no distribution: one is no probability, or the sum is farther
/// than `1e-9` from one.
pub open spec fn row_fault(entries: Seq<Double>) -> Option<Error> {
    let sum = added(Double::zero_spec(), entries, entries.len());
    let tolerance = Double { bits: 0x3e11_2e0b_e826_d695 };
    match entry_fault(entries, entries.len()) {
        Some(e) => Some(e),
        None => if tolerance.below(sum.minus(Double::one_spec()).absolute()) {
            Some(Error::Shape(ShapeError::QinitRowSumMismatch))
        } else {
            None
        },
    }
}

/// The first row, among the first `n`, that is no distribution.
pub open spec fn rows_fault(qinit: DoubleMatrix, n: nat) -> Option<Error>
    decreases n,
{
    if n == 0 {
        None
    } else {
        match rows_fault(qinit, (n - 1) as nat) {
            Some(e) => Some(e),
            None => row_fault(row(qinit@, n - 1)),
        }
    }
}

/// The first check that an input fails, if any.
pub open spec fn vbx_error(
    x: DoubleMatrix,
    phi: Seq<Double>,
    qinit: DoubleMatrix,
    fa: Double,
    fb: Double,
    max_iters: nat,
) -> Option<Error> {
    if x.width() == 0 {
        Some(Error::Shape(ShapeError::ZeroXFeatureDim))
    } else if phi.len() != x.width() {
        Some(Error::Shape(ShapeError::PhiXFeatureMismatch))
    } else if qinit.height() != x.height() {
        Some(Error::Shape(ShapeError::QinitXRowMismatch))
    } else if qinit.width() == 0 {
        Some(Error::Shape(ShapeError::QinitNoClusters))
    } else if !positive(fa) {
        Some(Error::Shape(ShapeError::InvalidFa))
    } else if !positive(fb) {
        Some(Error::Shape(ShapeError::InvalidFb))
    } else if phi_fault(phi, phi.len()) is Some {
        phi_fault(phi, phi.len())
    } else if !all_finite(x.row_major()) {
        Some(Error::NonFinite(NonFiniteField::X))
    } else if rows_fault(qinit, qinit.height()) is Some {
        rows_fault(qinit, qinit.height())
    } else if max_iters == 0 {
        Some(Error::Shape(ShapeError::ZeroMaxIters))
    } else if max_iters > MAX_ITERS_CAP {
        Some(Error::Shape(ShapeError::MaxItersAboveCap))
    } else {
        None
    }
}

/// A fault among the first eigenvalues is the fault of all.
proof fn lemma_phi_fault_stays(phi: Seq<Double>, n: nat, m: nat)
    requires
        n <= m,
        phi_fault(phi, n) is Some,
    ensures
        phi_fault(phi, m) == phi_fault(phi, n),
    decreases m - n,
{
    if n < m {
        lemma_phi_fault_stays(phi, n, (m - 1) as nat);
    }
}

proof fn lemma_entry_fault_stays(entries: Seq<Double>, n: nat, m: nat)
    requires
        n <= m,
        entry_fault(entries, n) is Some,
    ensures
        entry_fault(entries, m) == entry_fault(entries, n),
    decreases m - n,
{
    if n < m {
        lemma_entry_fault_stays(entries, n, (m - 1) as nat);
    }
}

proof fn lemma_rows_fault_stays(qinit: DoubleMatrix, n: nat, m: nat)
    requires
        n <= m,
        rows_fault(qinit, n) is Some,
    ensures
        rows_fault(qinit, m) == rows_fault(qinit, n),
    decreases m - n,
{
    if n < m {
        lemma_rows_fault_stays(qinit, n, (m - 1) as nat);
    }
}

fn check_phi(phi: &[Double]) -> (r: Result<(), Error>)
    ensures
        match phi_fault(phi@, phi@.len()) {
            Some(e) => r == Err::<(), Error>(e),
            None => r is Ok,
        },
{
    let mut i: usize = 0;
    while i < phi.len()
        invariant
            i <= phi.len(),
            phi_fault(phi@, i as nat) is None,
        decreases phi.len() - i,
    {
        if !is_positive(phi[i]) {
            proof {
                lemma_phi_fault_stays(phi@, (i + 1) as nat, phi@.len());
            }
            return Err(Error::NonPositivePhi(phi[i], i));
        }
        i = i + 1;
    }
    Ok(())
}

fn check_row(qinit: &DoubleMatrix, t: usize) -> (r: Result<(), Error>)
    requires
        t < qinit.height(),
    ensures
        match row_fault(row(qinit@, t as int)) {
            Some(e) => r == Err::<(), Error>(e),
            None => r is Ok,
        },
{
    let (_, columns) = qinit.shape();
    let ghost entries = row(qinit@, t as int);
    let mut sum: Double = Double::zero();
    let mut j: usize = 0;
    while j < columns
        invariant
            j <= columns,
            columns == qinit.width(),
            t < qinit.height(),
            entries == row(qinit@, t as int),
            entry_fault(entries, j as nat) is None,
            sum == added(Double::zero_spec(), entries, j as nat),
        decreases columns - j,
    {
        let v: Double = qinit.get(t, j);
        if !v.is_finite() {
            proof {
                lemma_entry_fault_stays(entries, (j + 1) as nat, entries.len());
            }
            return Err(Error::NonFinite(NonFiniteField::Qinit));
        }
        if v.lt(Double::zero()) {
            proof {
                lemma_entry_fault_stays(entries, (j + 1) as nat, entries.len());
            }
            return Err(Error::Shape(ShapeError::NegativeQinit));
        }
        sum = sum.add(v);
        j = j + 1;
    }
    if sum.sub(Double::from_bits(0x3ff0_0000_0000_0000)).abs().gt(
        Double::from_bits(0x3e11_2e0b_e826_d695),
    ) {
        return Err(Error::Shape(ShapeError::QinitRowSumMismatch));
    }
    Ok(())
}

/// Checks a clustering input.
pub fn check_vbx(
    x: &DoubleMatrix,
    phi: &[Double],
    qinit: &DoubleMatrix,
    fa: Double,
    fb: Double,
    max_iters: usize,
) -> (r: Result<(), Error>)
    ensures
        match vbx_error(*x, phi@, *qinit, fa, fb, max_iters as nat) {
            Some(e) => r == Err::<(), Error>(e),
            None => r is Ok,
        },
{
    let (frames, dims) = x.shape();
    if dims == 0 {
        return Err(Error::Shape(ShapeError::ZeroXFeatureDim));
    }
    if phi.len() != dims {
        return Err(Error::Shape(ShapeError::PhiXFeatureMismatch));
    }
    let (rows, speakers) = qinit.shape();
    if rows != frames {
        return Err(Error::Shape(ShapeError::QinitXRowMismatch));
    }
    if speakers == 0 {
        return Err(Error::Shape(ShapeError::QinitNoClusters));
    }
    if !is_positive(fa) {
        return Err(Error::Shape(ShapeError::InvalidFa));
    }
    if !is_positive(fb) {
        return Err(Error::Shape(ShapeError::InvalidFb));
    }
    match check_phi(phi) {
        Ok(()) => {},
        Err(e) => {
            return Err(e);
        },
    }
    if !is_all_finite(x.cells()) {
        return Err(Error::NonFinite(NonFiniteField::X));
    }
    let mut t: usize = 0;
    while t < rows
        invariant
            t <= rows,
            rows == qinit.height(),
            rows_fault(*qinit, t as nat) is None,
            x.width() > 0,
            phi@.len() == x.width(),
            qinit.height() == x.height(),
            qinit.width() > 0,
            positive(fa),
            positive(fb),
            phi_fault(phi@, phi@.len()) is None,
            all_finite(x.row_major()),
        decreases rows - t,
    {
        match check_row(qinit, t) {
            Ok(()) => {},
            Err(e) => {
                proof {
                    lemma_rows_fault_stays(*qinit, (t + 1) as nat, qinit.height());
                }
                return Err(e);
            },
        }
        t = t + 1;
    }
    if max_iters == 0 {
        return Err(Error::Shape(ShapeError::ZeroMaxIters));
    }
    if max_iters > MAX_ITERS_CAP {
        return Err(Error::Shape(ShapeError::MaxItersAboveCap));
    }
    Ok(())
}

} // verus!
