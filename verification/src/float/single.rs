//! Single precision.

use vstd::prelude::*;
use crate::float::arith::{convert, from_natural, product, quotient, sum, Format, Num};
use crate::float::root::square_root;
use crate::float::double::{binary64, lemma_double_format, Double};

verus! {

/// The binary32 interchange format.
pub open spec fn binary32_spec() -> Format {
    Format {
        precision: 24,
        half: 0x80_0000,
        top: 0x7f80_0000,
        unit: 149,
    }
}

/// The binary32 interchange format.
#[verifier::when_used_as_spec(binary32_spec)]
pub fn binary32() -> (f: Format)
    ensures
        f == binary32_spec(),
{
    Format {
        precision: 24,
        half: 0x80_0000,
        top: 0x7f80_0000,
        unit: 149,
    }
}

pub proof fn lemma_single_format()
    ensures
        binary32().valid(),
{
    vstd::arithmetic::power2::lemma2_to64();
    vstd::arithmetic::power2::lemma2_to64_rest();
}

/// A binary32 number, held as its bit pattern. Rust's `==` on it compares bits;
/// [`Single::same`] compares values.
#[derive(Clone, Copy, Debug, PartialEq, Eq, Structural)]
pub struct Single {
    pub bits: u32,
}

impl Single {
    /// Sign and magnitude.
    pub open spec fn num(self) -> Num {
        if self.bits >= 0x8000_0000 {
            Num { negative: true, magnitude: (self.bits - 0x8000_0000) as u64 }
        } else {
            Num { negative: false, magnitude: self.bits as u64 }
        }
    }

    /// The number with this sign and magnitude.
    pub open spec fn of(n: Num) -> Single {
        Single {
            bits: (n.magnitude + (if n.negative { 0x8000_0000int } else { 0 })) as u32,
        }
    }

    pub open spec fn nan(self) -> bool {
        binary32().is_nan(self.num())
    }

    pub open spec fn finite(self) -> bool {
        binary32().is_finite(self.num())
    }

    /// The exact value of a finite number, in units of `2^-149`.
    pub open spec fn units(self) -> int {
        binary32().value(self.num())
    }

    pub open spec fn plus(self, rhs: Single) -> Single {
        Single::of(binary32().plus(self.num(), rhs.num()))
    }

    pub open spec fn negated(self) -> Single {
        Single::of(Num { negative: !self.num().negative, magnitude: self.num().magnitude })
    }

    pub open spec fn minus(self, rhs: Single) -> Single {
        self.plus(rhs.negated())
    }

    pub open spec fn times(self, rhs: Single) -> Single {
        Single::of(binary32().times(self.num(), rhs.num()))
    }

    pub open spec fn over(self, rhs: Single) -> Single {
        Single::of(binary32().over(self.num(), rhs.num()))
    }

    pub open spec fn root(self) -> Single {
        Single::of(binary32().root(self.num()))
    }

    pub open spec fn absolute(self) -> Single {
        Single::of(Num { negative: false, magnitude: self.num().magnitude })
    }

    /// `self < rhs`.
    pub open spec fn below(self, rhs: Single) -> bool {
        !self.nan() && !rhs.nan() && binary32().rank(self.num()) < binary32().rank(rhs.num())
    }

    /// `self <= rhs`.
    pub open spec fn at_most(self, rhs: Single) -> bool {
        !self.nan() && !rhs.nan() && binary32().rank(self.num()) <= binary32().rank(rhs.num())
    }

    /// Equality of values: NaN equals nothing, the two zeros are equal.
    pub open spec fn equals(self, rhs: Single) -> bool {
        !self.nan() && !rhs.nan() && binary32().rank(self.num()) == binary32().rank(rhs.num())
    }

    /// The larger number; a NaN operand is ignored.
    pub open spec fn larger(self, rhs: Single) -> Single {
        if self.nan() || self.below(rhs) { rhs } else { self }
    }

    /// The smaller number; a NaN operand is ignored.
    pub open spec fn smaller(self, rhs: Single) -> Single {
        if self.nan() || rhs.below(self) { rhs } else { self }
    }

    /// The number nearest to a natural number.
    pub open spec fn natural(n: nat) -> Single {
        Single::of(binary32().natural(n))
    }

    pub fn unpack(self) -> (n: Num)
        ensures
            n == self.num(),
            n.magnitude < 0x8000_0000,
    {
        if self.bits >= 0x8000_0000 {
            Num { negative: true, magnitude: (self.bits - 0x8000_0000) as u64 }
        } else {
            Num { negative: false, magnitude: self.bits as u64 }
        }
    }

    pub fn pack(n: Num) -> (r: Single)
        requires
            n.magnitude < 0x8000_0000,
        ensures
            r == Single::of(n),
            r.num() == n,
    {
        if n.negative {
            Single { bits: n.magnitude as u32 + 0x8000_0000 }
        } else {
            Single { bits: n.magnitude as u32 }
        }
    }

    pub fn from_bits(bits: u32) -> (r: Single)
        ensures
            r.bits == bits,
    {
        Single { bits }
    }

    pub fn to_bits(self) -> (bits: u32)
        ensures
            bits == self.bits,
    {
        self.bits
    }

    pub fn is_nan(self) -> (r: bool)
        ensures
            r == self.nan(),
    {
        self.unpack().magnitude > binary32().top
    }

    pub fn is_finite(self) -> (r: bool)
        ensures
            r == self.finite(),
    {
        self.unpack().magnitude < binary32().top
    }

    pub fn add(self, rhs: Single) -> (r: Single)
        ensures
            r == self.plus(rhs),
    {
        proof {
            lemma_single_format();
        }
        Single::pack(sum(binary32(), self.unpack(), rhs.unpack()))
    }

    pub fn neg(self) -> (r: Single)
        ensures
            r == self.negated(),
    {
        let n: Num = self.unpack();
        Single::pack(Num { negative: !n.negative, magnitude: n.magnitude })
    }

    pub fn sub(self, rhs: Single) -> (r: Single)
        ensures
            r == self.minus(rhs),
    {
        self.add(rhs.neg())
    }

    pub fn mul(self, rhs: Single) -> (r: Single)
        ensures
            r == self.times(rhs),
    {
        proof {
            lemma_single_format();
        }
        Single::pack(product(binary32(), self.unpack(), rhs.unpack()))
    }

    pub fn div(self, rhs: Single) -> (r: Single)
        ensures
            r == self.over(rhs),
    {
        proof {
            lemma_single_format();
        }
        Single::pack(quotient(binary32(), self.unpack(), rhs.unpack()))
    }

    pub fn sqrt(self) -> (r: Single)
        ensures
            r == self.root(),
    {
        proof {
            lemma_single_format();
        }
        Single::pack(square_root(binary32(), self.unpack()))
    }

    pub fn abs(self) -> (r: Single)
        ensures
            r == self.absolute(),
    {
        Single::pack(Num { negative: false, magnitude: self.unpack().magnitude })
    }

    fn rank(self) -> (r: i128)
        ensures
            r == binary32().rank(self.num()),
    {
        let n: Num = self.unpack();
        if n.negative {
            -(n.magnitude as i128)
        } else {
            n.magnitude as i128
        }
    }

    pub fn lt(self, rhs: Single) -> (r: bool)
        ensures
            r == self.below(rhs),
    {
        !self.is_nan() && !rhs.is_nan() && self.rank() < rhs.rank()
    }

    pub fn le(self, rhs: Single) -> (r: bool)
        ensures
            r == self.at_most(rhs),
    {
        !self.is_nan() && !rhs.is_nan() && self.rank() <= rhs.rank()
    }

    pub fn gt(self, rhs: Single) -> (r: bool)
        ensures
            r == rhs.below(self),
    {
        rhs.lt(self)
    }

    pub fn ge(self, rhs: Single) -> (r: bool)
        ensures
            r == rhs.at_most(self),
    {
        rhs.le(self)
    }

    pub fn same(self, rhs: Single) -> (r: bool)
        ensures
            r == self.equals(rhs),
    {
        !self.is_nan() && !rhs.is_nan() && self.rank() == rhs.rank()
    }

    pub fn max(self, rhs: Single) -> (r: Single)
        ensures
            r == self.larger(rhs),
    {
        if self.is_nan() || self.lt(rhs) {
            rhs
        } else {
            self
        }
    }

    pub fn min(self, rhs: Single) -> (r: Single)
        ensures
            r == self.smaller(rhs),
    {
        if self.is_nan() || rhs.lt(self) {
            rhs
        } else {
            self
        }
    }

    pub fn from_u64(n: u64) -> (r: Single)
        ensures
            r == Single::natural(n as nat),
    {
        proof {
            lemma_single_format();
        }
        Single::pack(from_natural(binary32(), n))
    }

    pub open spec fn zero_spec() -> Single {
        Single { bits: 0 }
    }

    /// Positive zero.
    pub fn zero() -> (r: Single)
        ensures
            r == Single::zero_spec(),
    {
        Single { bits: 0 }
    }

    /// The double-precision number of the same value.
    pub open spec fn widened(self) -> Double {
        Double::of(binary32().converted(binary64(), self.num()))
    }

    pub fn to_double(self) -> (r: Double)
        ensures
            r == self.widened(),
    {
        proof {
            lemma_double_format();
            lemma_single_format();
        }
        Double::pack(convert(binary32(), binary64(), self.unpack()))
    }
}

} // verus!
