//! Sums of many numbers, added up one after the other.

use vstd::prelude::*;
use crate::float::double::Double;
use crate::float::single::Single;

verus! {

impl Double {
    pub open spec fn minus_zero_spec() -> Double {
        Double { bits: 0x8000_0000_0000_0000 }
    }

    /// Negative zero, which leaves every number unchanged when added.
    pub fn minus_zero() -> (r: Double)
        ensures
            r == Double::minus_zero_spec(),
    {
        Double { bits: 0x8000_0000_0000_0000 }
    }

    pub open spec fn one_spec() -> Double {
        Double { bits: 0x3ff0_0000_0000_0000 }
    }

    pub fn one() -> (r: Double)
        ensures
            r == Double::one_spec(),
    {
        Double { bits: 0x3ff0_0000_0000_0000 }
    }

    pub open spec fn infinity_spec() -> Double {
        Double { bits: 0x7ff0_0000_0000_0000 }
    }

    pub fn infinity() -> (r: Double)
        ensures
            r == Double::infinity_spec(),
    {
        Double { bits: 0x7ff0_0000_0000_0000 }
    }
}

impl Single {
    pub open spec fn minus_zero_spec() -> Single {
        Single { bits: 0x8000_0000 }
    }

    /// Negative zero, which leaves every number unchanged when added.
    pub fn minus_zero() -> (r: Single)
        ensures
            r == Single::minus_zero_spec(),
    {
        Single { bits: 0x8000_0000 }
    }

    pub open spec fn one_spec() -> Single {
        Single { bits: 0x3f80_0000 }
    }

    pub fn one() -> (r: Single)
        ensures
            r == Single::one_spec(),
    {
        Single { bits: 0x3f80_0000 }
    }
}

/// The first `n` numbers added onto `start`, in order.
pub open spec fn added(start: Double, values: Seq<Double>, n: nat) -> Double
    decreases n,
{
    if n == 0 {
        start
    } else {
        added(start, values, (n - 1) as nat).plus(values[n - 1])
    }
}

/// The first `n` numbers added onto `start`, in order.
pub open spec fn added_single(start: Single, values: Seq<Single>, n: nat) -> Single
    decreases n,
{
    if n == 0 {
        start
    } else {
        added_single(start, values, (n - 1) as nat).plus(values[n - 1])
    }
}

/// The sum of all numbers, from negative zero.
pub open spec fn sum(values: Seq<Double>) -> Double {
    added(Double::minus_zero_spec(), values, values.len())
}

/// The sum of all numbers, from negative zero.
pub open spec fn sum_single(values: Seq<Single>) -> Single {
    added_single(Single::minus_zero_spec(), values, values.len())
}

/// Adds numbers onto `start`.
pub fn add_all(start: Double, values: &[Double]) -> (r: Double)
    ensures
        r == added(start, values@, values@.len()),
{
    let mut total: Double = start;
    let mut i: usize = 0;
    while i < values.len()
        invariant
            i <= values.len(),
            total == added(start, values@, i as nat),
        decreases values.len() - i,
    {
        total = total.add(values[i]);
        i = i + 1;
    }
    total
}

/// A sum depends only on the numbers that it adds.
pub proof fn lemma_added_same(start: Double, a: Seq<Double>, b: Seq<Double>, n: nat)
    requires
        forall|i: int| 0 <= i < n ==> #[trigger] a[i] == b[i],
    ensures
        added(start, a, n) == added(start, b, n),
    decreases n,
{
    if n > 0 {
        lemma_added_same(start, a, b, (n - 1) as nat);
        assert(a[n - 1] == b[n - 1]);
    }
}

} // verus!
