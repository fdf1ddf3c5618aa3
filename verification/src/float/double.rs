//! Double precision.

use vstd::arithmetic::power2::pow2;
use vstd::prelude::*;
use crate::float::arith::{abs, convert, from_natural, integer_size, product, quotient, rounded_even, sum, Format, Num};
use crate::float::root::square_root;
use crate::float::single::{binary32, lemma_single_format, Single};

verus! {

/// The binary64 interchange format.
pub open spec fn binary64_spec() -> Format {
    Format {
        precision: 53,
        half: 0x10_0000_0000_0000,
        top: 0x7ff0_0000_0000_0000,
        unit: 1074,
    }
}

/// The binary64 interchange format.
#[verifier::when_used_as_spec(binary64_spec)]
pub fn binary64() -> (f: Format)
    ensures
        f == binary64_spec(),
{
    Format {
        precision: 53,
        half: 0x10_0000_0000_0000,
        top: 0x7ff0_0000_0000_0000,
        unit: 1074,
    }
}

pub proof fn lemma_double_format()
    ensures
        binary64().valid(),
{
    vstd::arithmetic::power2::lemma2_to64();
    vstd::arithmetic::power2::lemma2_to64_rest();
}

/// A binary64 number, held as its bit pattern. Rust's `==` on it compares bits;
/// [`Double::same`] compares values.
#[derive(Clone, Copy, Debug, PartialEq, Eq, Structural)]
pub struct Double {
    pub bits: u64,
}

impl Double {
    /// Sign and magnitude.
    pub open spec fn num(self) -> Num {
        if self.bits >= 0x8000_0000_0000_0000 {
            Num { negative: true, magnitude: (self.bits - 0x8000_0000_0000_0000) as u64 }
        } else {
            Num { negative: false, magnitude: self.bits as u64 }
        }
    }

    /// The number with this sign and magnitude.
    pub open spec fn of(n: Num) -> Double {
        Double {
            bits: (n.magnitude + (if n.negative { 0x8000_0000_0000_0000int } else { 0 })) as u64,
        }
    }

    pub open spec fn nan(self) -> bool {
        binary64().is_nan(self.num())
    }

    pub open spec fn finite(self) -> bool {
        binary64().is_finite(self.num())
    }

    /// The exact value of a finite number, in units of `2^-1074`.
    pub open spec fn units(self) -> int {
        binary64().value(self.num())
    }

    pub open spec fn plus(self, rhs: Double) -> Double {
        Double::of(binary64().plus(self.num(), rhs.num()))
    }

    pub open spec fn negated(self) -> Double {
        Double::of(Num { negative: !self.num().negative, magnitude: self.num().magnitude })
    }

    pub open spec fn minus(self, rhs: Double) -> Double {
        self.plus(rhs.negated())
    }

    pub open spec fn times(self, rhs: Double) -> Double {
        Double::of(binary64().times(self.num(), rhs.num()))
    }

    pub open spec fn over(self, rhs: Double) -> Double {
        Double::of(binary64().over(self.num(), rhs.num()))
    }

    pub open spec fn root(self) -> Double {
        Double::of(binary64().root(self.num()))
    }

    pub open spec fn absolute(self) -> Double {
        Double::of(Num { negative: false, magnitude: self.num().magnitude })
    }

    /// `self < rhs`.
    pub open spec fn below(self, rhs: Double) -> bool {
        !self.nan() && !rhs.nan() && binary64().rank(self.num()) < binary64().rank(rhs.num())
    }

    /// `self <= rhs`.
    pub open spec fn at_most(self, rhs: Double) -> bool {
        !self.nan() && !rhs.nan() && binary64().rank(self.num()) <= binary64().rank(rhs.num())
    }

    /// Equality of values: NaN equals nothing, the two zeros are equal.
    pub open spec fn equals(self, rhs: Double) -> bool {
        !self.nan() && !rhs.nan() && binary64().rank(self.num()) == binary64().rank(rhs.num())
    }

    /// The larger number; a NaN operand is ignored.
    pub open spec fn larger(self, rhs: Double) -> Double {
        if self.nan() || self.below(rhs) { rhs } else { self }
    }

    /// The smaller number; a NaN operand is ignored.
    pub open spec fn smaller(self, rhs: Double) -> Double {
        if self.nan() || rhs.below(self) { rhs } else { self }
    }

    /// The number nearest to a natural number.
    pub open spec fn natural(n: nat) -> Double {
        Double::of(binary64().natural(n))
    }

    pub open spec fn rounded(self) -> Double {
        Double::of(binary64().round_even(self.num()))
    }

    /// The integer part of a finite number, toward zero.
    pub open spec fn whole(self) -> int {
        binary64().integer_part(self.num())
    }

    pub fn unpack(self) -> (n: Num)
        ensures
            n == self.num(),
            n.magnitude < 0x8000_0000_0000_0000,
    {
        if self.bits >= 0x8000_0000_0000_0000 {
            Num { negative: true, magnitude: (self.bits - 0x8000_0000_0000_0000) as u64 }
        } else {
            Num { negative: false, magnitude: self.bits as u64 }
        }
    }

    pub fn pack(n: Num) -> (r: Double)
        requires
            n.magnitude < 0x8000_0000_0000_0000,
        ensures
            r == Double::of(n),
            r.num() == n,
    {
        if n.negative {
            Double { bits: n.magnitude as u64 + 0x8000_0000_0000_0000 }
        } else {
            Double { bits: n.magnitude as u64 }
        }
    }

    pub fn from_bits(bits: u64) -> (r: Double)
        ensures
            r.bits == bits,
    {
        Double { bits }
    }

    pub fn to_bits(self) -> (bits: u64)
        ensures
            bits == self.bits,
    {
        self.bits
    }

    pub fn is_nan(self) -> (r: bool)
        ensures
            r == self.nan(),
    {
        self.unpack().magnitude > binary64().top
    }

    pub fn is_finite(self) -> (r: bool)
        ensures
            r == self.finite(),
    {
        self.unpack().magnitude < binary64().top
    }

    pub fn add(self, rhs: Double) -> (r: Double)
        ensures
            r == self.plus(rhs),
    {
        proof {
            lemma_double_format();
        }
        Double::pack(sum(binary64(), self.unpack(), rhs.unpack()))
    }

    pub fn neg(self) -> (r: Double)
        ensures
            r == self.negated(),
    {
        let n: Num = self.unpack();
        Double::pack(Num { negative: !n.negative, magnitude: n.magnitude })
    }

    pub fn sub(self, rhs: Double) -> (r: Double)
        ensures
            r == self.minus(rhs),
    {
        self.add(rhs.neg())
    }

    pub fn mul(self, rhs: Double) -> (r: Double)
        ensures
            r == self.times(rhs),
    {
        proof {
            lemma_double_format();
        }
        Double::pack(product(binary64(), self.unpack(), rhs.unpack()))
    }

    pub fn div(self, rhs: Double) -> (r: Double)
        ensures
            r == self.over(rhs),
    {
        proof {
            lemma_double_format();
        }
        Double::pack(quotient(binary64(), self.unpack(), rhs.unpack()))
    }

    pub fn sqrt(self) -> (r: Double)
        ensures
            r == self.root(),
    {
        proof {
            lemma_double_format();
        }
        Double::pack(square_root(binary64(), self.unpack()))
    }

    pub fn abs(self) -> (r: Double)
        ensures
            r == self.absolute(),
    {
        Double::pack(Num { negative: false, magnitude: self.unpack().magnitude })
    }

    fn rank(self) -> (r: i128)
        ensures
            r == binary64().rank(self.num()),
    {
        let n: Num = self.unpack();
        if n.negative {
            -(n.magnitude as i128)
        } else {
            n.magnitude as i128
        }
    }

    pub fn lt(self, rhs: Double) -> (r: bool)
        ensures
            r == self.below(rhs),
    {
        !self.is_nan() && !rhs.is_nan() && self.rank() < rhs.rank()
    }

    pub fn le(self, rhs: Double) -> (r: bool)
        ensures
            r == self.at_most(rhs),
    {
        !self.is_nan() && !rhs.is_nan() && self.rank() <= rhs.rank()
    }

    pub fn gt(self, rhs: Double) -> (r: bool)
        ensures
            r == rhs.below(self),
    {
        rhs.lt(self)
    }

    pub fn ge(self, rhs: Double) -> (r: bool)
        ensures
            r == rhs.at_most(self),
    {
        rhs.le(self)
    }

    pub fn same(self, rhs: Double) -> (r: bool)
        ensures
            r == self.equals(rhs),
    {
        !self.is_nan() && !rhs.is_nan() && self.rank() == rhs.rank()
    }

    pub fn max(self, rhs: Double) -> (r: Double)
        ensures
            r == self.larger(rhs),
    {
        if self.is_nan() || self.lt(rhs) {
            rhs
        } else {
            self
        }
    }

    pub fn min(self, rhs: Double) -> (r: Double)
        ensures
            r == self.smaller(rhs),
    {
        if self.is_nan() || rhs.lt(self) {
            rhs
        } else {
            self
        }
    }

    pub fn from_u64(n: u64) -> (r: Double)
        ensures
            r == Double::natural(n as nat),
    {
        proof {
            lemma_double_format();
        }
        Double::pack(from_natural(binary64(), n))
    }

    pub fn round_ties_even(self) -> (r: Double)
        ensures
            r == self.rounded(),
    {
        proof {
            lemma_double_format();
        }
        Double::pack(rounded_even(binary64(), self.unpack()))
    }

    pub open spec fn zero_spec() -> Double {
        Double { bits: 0 }
    }

    /// Positive zero.
    pub fn zero() -> (r: Double)
        ensures
            r == Double::zero_spec(),
    {
        Double { bits: 0 }
    }

    /// The magnitude of the integer part of a finite number, where it fits.
    pub fn whole_size(self) -> (r: Option<u64>)
        requires
            self.finite(),
        ensures
            r is Some <==> abs(self.whole()) <= u64::MAX,
            r matches Some(n) ==> n == abs(self.whole()),
    {
        proof {
            lemma_double_format();
        }
        integer_size(binary64(), self.unpack())
    }

    /// The number of the nearest representable single-precision value.
    pub open spec fn narrowed(self) -> Single {
        Single::of(binary64().converted(binary32(), self.num()))
    }

    pub fn to_single(self) -> (r: Single)
        ensures
            r == self.narrowed(),
    {
        proof {
            lemma_double_format();
            lemma_single_format();
        }
        Single::pack(convert(binary64(), binary32(), self.unpack()))
    }

    /// The saturating conversion to `i64`: toward zero, NaN to 0.
    pub open spec fn saturated(self) -> int {
        if self.nan() {
            0
        } else if self.finite() && i64::MIN <= self.whole() <= i64::MAX {
            self.whole()
        } else if self.num().negative {
            i64::MIN as int
        } else {
            i64::MAX as int
        }
    }

    pub fn to_i64(self) -> (r: i64)
        ensures
            r == self.saturated(),
    {
        proof {
            lemma_double_format();
            lemma_whole_sign(self);
        }
        if self.is_nan() {
            return 0;
        }
        let n: Num = self.unpack();
        if self.is_finite() {
            match integer_size(binary64(), n) {
                Some(k) => {
                    if n.negative {
                        if k <= 0x8000_0000_0000_0000 {
                            return (-(k as i128)) as i64;
                        }
                    } else if k <= 0x7fff_ffff_ffff_ffff {
                        return k as i64;
                    }
                },
                None => {},
            }
        }
        if n.negative {
            i64::MIN
        } else {
            i64::MAX
        }
    }
}

/// A number that is not negative has a nonnegative integer part.
pub proof fn lemma_nonnegative_whole(x: Double)
    requires
        !x.nan(),
        !x.below(Double::zero_spec()),
    ensures
        x.whole() >= 0,
{
    lemma_double_format();
    lemma_whole_sign(x);
    if x.num().negative {
        assert(x.num().magnitude == 0);
        crate::float::arith::lemma_zero_units(53);
        vstd::arithmetic::power2::lemma_pow2_pos(1074);
        vstd::arithmetic::div_mod::lemma_div_basics(pow2(1074) as int);
    }
}

/// The integer part carries the sign of the number.
pub proof fn lemma_whole_sign(x: Double)
    ensures
        x.num().negative ==> x.whole() <= 0,
        !x.num().negative ==> x.whole() >= 0,
{
    lemma_double_format();
    let f = binary64();
    vstd::arithmetic::power2::lemma_pow2_pos(1074);
    crate::float::grid::lemma_units_increasing(53, x.num().magnitude as int, x.num().magnitude + 1);
    assert(f.size(x.num()) / pow2(1074) as int >= 0) by (nonlinear_arith)
        requires
            f.size(x.num()) >= 0,
            pow2(1074) > 0,
    ;
}

} // verus!
