//! IEEE 754 arithmetic on sign and magnitude, for any binary format.
//!
//! The spec functions say what each operation returns: the exact result, rounded
//! to the nearest magnitude of the format, ties to even. Every NaN result is the
//! one positive quiet NaN without payload.

use vstd::arithmetic::div_mod::{lemma_fundamental_div_mod, lemma_fundamental_div_mod_converse};
use vstd::arithmetic::power2::{lemma_pow2_adds, lemma_pow2_pos, lemma_pow2_strictly_increases, lemma_pow2_unfold, pow2};
use vstd::prelude::*;
use crate::float::grid::{gap_exponent, half_span, lemma_half_span, lemma_nearest_unique, lemma_representable, lemma_split, lemma_units_increasing, nearest, significand, units};
use crate::float::rounding::{digit_count, digits, lemma_digits, lemma_pow2_above, lemma_settle, lemma_shift_left, placed, pow2_above, raised, settled};

verus! {

/// A binary interchange format.
#[derive(Clone, Copy, Debug, PartialEq, Eq, Structural)]
pub struct Format {
    /// Number of significand digits, the leading one counted.
    pub precision: u32,
    /// `2^(precision - 1)`.
    pub half: u64,
    /// The magnitude of infinity.
    pub top: u64,
    /// The smallest positive magnitude is `2^-unit`.
    pub unit: u32,
}

/// A sign and a magnitude of some format.
#[derive(Clone, Copy, Debug, PartialEq, Eq, Structural)]
pub struct Num {
    pub negative: bool,
    pub magnitude: u64,
}

/// The absolute value of an integer.
pub open spec fn abs(x: int) -> int {
    if x < 0 { -x } else { x }
}

/// The integer nearest to `num / den`, ties to even.
pub open spec fn nearest_integer(num: int, den: int) -> int {
    let whole = num / den;
    let rest = num % den;
    if 2 * rest > den || (2 * rest == den && whole % 2 == 1) { whole + 1 } else { whole }
}

impl Format {
    /// The fields agree with one another and stay in the range of the rounding.
    pub open spec fn valid(self) -> bool {
        &&& 3 <= self.precision <= 53
        &&& self.half == half_span(self.precision as nat)
        &&& 2 * self.half <= self.top <= 2047 * self.half
        &&& 1 <= self.unit <= 1074
    }

    pub open spec fn p(self) -> nat {
        self.precision as nat
    }

    pub open spec fn nan(self) -> Num {
        Num { negative: false, magnitude: (self.top + self.half / 2) as u64 }
    }

    pub open spec fn is_nan(self, x: Num) -> bool {
        x.magnitude > self.top
    }

    pub open spec fn is_infinite(self, x: Num) -> bool {
        x.magnitude == self.top
    }

    pub open spec fn is_finite(self, x: Num) -> bool {
        x.magnitude < self.top
    }

    /// The exact magnitude in units of `2^-unit`.
    pub open spec fn size(self, x: Num) -> int {
        units(self.p(), x.magnitude as int)
    }

    /// The exact value in units of `2^-unit`.
    pub open spec fn value(self, x: Num) -> int {
        if x.negative { -self.size(x) } else { self.size(x) }
    }

    /// `num / den` units, rounded, under the given sign.
    pub open spec fn round(self, negative: bool, num: int, den: int) -> Num {
        Num { negative, magnitude: nearest(self.p(), self.top as int, num, den) as u64 }
    }

    pub open spec fn plus(self, x: Num, y: Num) -> Num {
        let sum = self.value(x) + self.value(y);
        if self.is_nan(x) || self.is_nan(y) {
            self.nan()
        } else if self.is_infinite(x) {
            if self.is_infinite(y) && x.negative != y.negative { self.nan() } else { x }
        } else if self.is_infinite(y) {
            y
        } else if sum == 0 {
            Num { negative: x.negative && y.negative, magnitude: 0 }
        } else {
            self.round(sum < 0, abs(sum), 1)
        }
    }

    pub open spec fn times(self, x: Num, y: Num) -> Num {
        let negative = x.negative != y.negative;
        if self.is_nan(x) || self.is_nan(y) {
            self.nan()
        } else if self.is_infinite(x) || self.is_infinite(y) {
            if x.magnitude == 0 || y.magnitude == 0 {
                self.nan()
            } else {
                Num { negative, magnitude: self.top }
            }
        } else {
            self.round(negative, self.size(x) * self.size(y), pow2(self.unit as nat) as int)
        }
    }

    pub open spec fn over(self, x: Num, y: Num) -> Num {
        let negative = x.negative != y.negative;
        if self.is_nan(x) || self.is_nan(y) {
            self.nan()
        } else if self.is_infinite(x) {
            if self.is_infinite(y) { self.nan() } else { Num { negative, magnitude: self.top } }
        } else if self.is_infinite(y) {
            Num { negative, magnitude: 0 }
        } else if y.magnitude == 0 {
            if x.magnitude == 0 { self.nan() } else { Num { negative, magnitude: self.top } }
        } else {
            self.round(negative, self.size(x) * pow2(self.unit as nat), self.size(y))
        }
    }

    /// The format's number for the natural number `n`.
    pub open spec fn natural(self, n: nat) -> Num {
        self.round(false, (n * pow2(self.unit as nat)) as int, 1)
    }

    /// Rounding to the nearest integer, ties to even, the sign kept.
    pub open spec fn round_even(self, x: Num) -> Num {
        let one = pow2(self.unit as nat) as int;
        if self.is_finite(x) {
            self.round(x.negative, nearest_integer(self.size(x), one) * one, 1)
        } else {
            x
        }
    }

    /// The integer part, toward zero, of a finite number.
    pub open spec fn integer_part(self, x: Num) -> int {
        let whole = self.size(x) / pow2(self.unit as nat) as int;
        if x.negative { -whole } else { whole }
    }

    /// The number of format `to` for a number of this format.
    pub open spec fn converted(self, to: Format, x: Num) -> Num {
        if self.is_nan(x) {
            to.nan()
        } else if self.is_infinite(x) {
            Num { negative: x.negative, magnitude: to.top }
        } else {
            to.round(
                x.negative,
                self.size(x) * pow2(to.unit as nat),
                pow2(self.unit as nat) as int,
            )
        }
    }

    /// A position in the order of the numbers; the two zeros share one.
    pub open spec fn rank(self, x: Num) -> int {
        if x.negative { -(x.magnitude as int) } else { x.magnitude as int }
    }
}

/// Numbers that are not NaN are ordered by rank as by value.
pub proof fn law_rank_orders_values(f: Format, x: Num, y: Num)
    requires
        f.valid(),
    ensures
        f.rank(x) < f.rank(y) <==> f.value(x) < f.value(y),
        f.rank(x) == f.rank(y) <==> f.value(x) == f.value(y),
{
    let p = f.p();
    lemma_zero_units(p);
    let a = x.magnitude as int;
    let b = y.magnitude as int;
    lemma_units_increasing(p, a, a + 1);
    lemma_units_increasing(p, b, b + 1);
    if a < b {
        lemma_units_increasing(p, a, b);
    } else if b < a {
        lemma_units_increasing(p, b, a);
    }
    if a > 0 {
        lemma_units_increasing(p, 0, a);
    }
    if b > 0 {
        lemma_units_increasing(p, 0, b);
    }
}

pub proof fn lemma_zero_units(p: nat)
    requires
        p >= 1,
    ensures
        units(p, 0) == 0,
{
    lemma_half_span(p);
    assert(0 * half_span(p) == 0);
    assert(0 * pow2(0) == 0);
}

/// A value given as significand times power of two is placed.
proof fn lemma_placed_exact(m: nat, a: nat, b: nat, num: int, den: int)
    requires
        num == m * pow2(a),
        den == pow2(b),
    ensures
        placed(m, a - b, false, num, den),
{
    let e = a - b;
    vstd::arithmetic::power2::lemma2_to64();
    if e >= 0 {
        lemma_pow2_adds(e as nat, b);
        let pe = pow2(e as nat) as int;
        assert(pow2_above(e) == pe);
        assert(num * 1 == m * (pe * den)) by (nonlinear_arith)
            requires
                num == m * pow2(a),
                pow2(a) == pe * den,
        ;
    } else {
        lemma_pow2_adds(a, (-e) as nat);
        let pe = pow2((-e) as nat) as int;
        assert(num * pe == m * (1 * den)) by (nonlinear_arith)
            requires
                num == m * pow2(a),
                den == pow2(a) * pe,
        ;
    }
}

/// Splits a magnitude into significand and exponent.
pub fn parts(f: Format, magnitude: u64) -> (r: (u64, u32))
    requires
        f.valid(),
        magnitude < f.top,
    ensures
        r.0 == significand(f.p(), magnitude as int),
        r.1 == gap_exponent(f.p(), magnitude as int),
        units(f.p(), magnitude as int) == r.0 * pow2(r.1 as nat),
        r.0 < 2 * f.half,
        r.1 > 0 ==> f.half <= r.0,
        r.0 == 0 <==> magnitude == 0,
        r.1 <= 2047,
{
    proof {
        lemma_half_span(f.p());
        lemma_split(f.p(), magnitude as int);
        lemma_half_bound(f);
    }
    if magnitude < f.half {
        (magnitude, 0)
    } else {
        proof {
            let h = f.half as int;
            assert(1 <= magnitude as int / h <= 2047) by (nonlinear_arith)
                requires
                    h <= magnitude <= 2047 * h,
                    h >= 1,
            ;
        }
        let g: u64 = magnitude / f.half - 1;
        proof {
            assert(g == 0 ==> g * f.half == 0) by (nonlinear_arith);
            assert(g * f.half == gap_exponent(f.p(), magnitude as int) * half_span(f.p()));
        }
        (magnitude - g * f.half, g as u32)
    }
}

pub proof fn lemma_half_bound(f: Format)
    requires
        f.valid(),
    ensures
        4 <= f.half <= 0x10_0000_0000_0000,
        2 * f.half == pow2(f.p()),
{
    vstd::arithmetic::power2::lemma2_to64();
    vstd::arithmetic::power2::lemma2_to64_rest();
    lemma_half_span(f.p());
    if f.precision > 3 {
        lemma_pow2_strictly_increases(2, (f.precision - 1) as nat);
    }
    if f.precision < 53 {
        lemma_pow2_strictly_increases((f.precision - 1) as nat, 52);
    }
}

/// Rounds an exact result `m * 2^(a - b)` units.
fn round_exact(f: Format, negative: bool, m: u128, a: u32, b: u32, Ghost(num): Ghost<int>, Ghost(den): Ghost<int>) -> (r: Num)
    requires
        f.valid(),
        m < 0x8000_0000_0000_0000_0000_0000_0000_0000,
        a <= 6000,
        b <= 6000,
        num == m * pow2(a as nat),
        den == pow2(b as nat),
    ensures
        r == f.round(negative, num, den),
        r.magnitude <= f.top,
{
    proof {
        lemma_pow2_pos(b as nat);
        if m == 0 {
            lemma_zero_units(f.p());
            assert(0 * den == 0);
            assert(0 * pow2(a as nat) == 0);
            lemma_representable(f.p(), f.top as int, den, 0);
        }
    }
    if m == 0 {
        return Num { negative, magnitude: 0 };
    }
    let e: i32 = a as i32 - b as i32;
    let magnitude: u64 = settled(f.precision, f.top, m, e, false);
    proof {
        lemma_placed_exact(m as nat, a as nat, b as nat, num, den);
        lemma_settle(f.p(), f.top as int, m as nat, e as int, false, num, den);
        lemma_nearest_unique(f.p(), f.top as int, num, den, magnitude as int);
    }
    Num { negative, magnitude }
}

/// The product of two numbers.
pub fn product(f: Format, x: Num, y: Num) -> (r: Num)
    requires
        f.valid(),
    ensures
        r == f.times(x, y),
        r.magnitude <= f.top + f.half / 2,
{
    proof {
        lemma_half_bound(f);
    }
    let negative: bool = x.negative != y.negative;
    if x.magnitude > f.top || y.magnitude > f.top {
        return Num { negative: false, magnitude: f.top + f.half / 2 };
    }
    if x.magnitude == f.top || y.magnitude == f.top {
        if x.magnitude == 0 || y.magnitude == 0 {
            return Num { negative: false, magnitude: f.top + f.half / 2 };
        }
        return Num { negative, magnitude: f.top };
    }
    let (m1, g1) = parts(f, x.magnitude);
    let (m2, g2) = parts(f, y.magnitude);
    proof {
        assert(m1 * m2 < 0x20_0000_0000_0000 * 0x20_0000_0000_0000) by (nonlinear_arith)
            requires
                0 <= m1 < 0x20_0000_0000_0000,
                0 <= m2 < 0x20_0000_0000_0000,
        ;
        lemma_pow2_adds(g1 as nat, g2 as nat);
        assert((m1 * pow2(g1 as nat)) * (m2 * pow2(g2 as nat)) == (m1 * m2) * (pow2(g1 as nat)
            * pow2(g2 as nat))) by (nonlinear_arith);
    }
    round_exact(
        f,
        negative,
        m1 as u128 * m2 as u128,
        g1 + g2,
        f.unit,
        Ghost(f.size(x) * f.size(y)),
        Ghost(pow2(f.unit as nat) as int),
    )
}

/// The format's number for a natural number.
pub fn from_natural(f: Format, n: u64) -> (r: Num)
    requires
        f.valid(),
    ensures
        r == f.natural(n as nat),
        r.magnitude <= f.top,
{
    proof {
        vstd::arithmetic::power2::lemma2_to64();
    }
    round_exact(
        f,
        false,
        n as u128,
        f.unit,
        0,
        Ghost((n * pow2(f.unit as nat)) as int),
        Ghost(1),
    )
}

/// Conversion between formats.
pub fn convert(f: Format, to: Format, x: Num) -> (r: Num)
    requires
        f.valid(),
        to.valid(),
    ensures
        r == f.converted(to, x),
        r.magnitude <= to.top + to.half / 2,
{
    proof {
        lemma_half_bound(f);
        lemma_half_bound(to);
    }
    if x.magnitude > f.top {
        return Num { negative: false, magnitude: to.top + to.half / 2 };
    }
    if x.magnitude == f.top {
        return Num { negative: x.negative, magnitude: to.top };
    }
    let (m, g) = parts(f, x.magnitude);
    proof {
        lemma_pow2_adds(g as nat, to.unit as nat);
        assert((m * pow2(g as nat)) * pow2(to.unit as nat) == m * (pow2(g as nat) * pow2(
            to.unit as nat,
        ))) by (nonlinear_arith);
    }
    round_exact(
        to,
        x.negative,
        m as u128,
        g + to.unit,
        f.unit,
        Ghost(f.size(x) * pow2(to.unit as nat)),
        Ghost(pow2(f.unit as nat) as int),
    )
}

pub proof fn lemma_many_digits(m: nat, n: nat)
    requires
        m >= pow2(n),
    ensures
        digits(m) > n,
{
    lemma_digits(m);
    if digits(m) < n {
        lemma_pow2_strictly_increases(digits(m), n);
    }
}

/// The sum of two finite numbers, the first of the larger magnitude.
fn sum_ordered(f: Format, x: Num, y: Num) -> (r: Num)
    requires
        f.valid(),
        y.magnitude <= x.magnitude < f.top,
    ensures
        r == f.plus(x, y),
        r.magnitude <= f.top + f.half / 2,
{
    let (m1, g1) = parts(f, x.magnitude);
    let (m2, g2) = parts(f, y.magnitude);
    let same: bool = x.negative == y.negative;
    let ghost num: int = abs(f.value(x) + f.value(y));
    proof {
        lemma_half_bound(f);
        vstd::arithmetic::power2::lemma2_to64();
        vstd::arithmetic::power2::lemma2_to64_rest();
        lemma_zero_units(f.p());
        lemma_units_increasing(f.p(), y.magnitude as int, y.magnitude + 1);
        if y.magnitude < x.magnitude {
            lemma_units_increasing(f.p(), y.magnitude as int, x.magnitude as int);
        }
        assert(num == if same { f.size(x) + f.size(y) } else { f.size(x) - f.size(y) });
        lemma_exponents_ordered(f.p(), y.magnitude as int, x.magnitude as int);
        if x.magnitude > 0 {
            lemma_units_increasing(f.p(), 0, x.magnitude as int);
        }
    }
    if x.magnitude == y.magnitude && !same {
        return Num { negative: false, magnitude: 0 };
    }
    if x.magnitude == 0 {
        return Num { negative: x.negative && y.negative, magnitude: 0 };
    }
    let diff: u32 = g1 - g2;
    if m2 == 0 {
        assert(0 * pow2(g2 as nat) == 0);
        return round_exact(f, x.negative, m1 as u128, g1, 0, Ghost(num), Ghost(1));
    }
    if diff <= 70 {
        proof {
            lemma_pow2_70();
            if diff < 70 {
                lemma_pow2_strictly_increases(diff as nat, 70);
            }
            lemma_pow2_pos(diff as nat);
            assert(m1 * pow2(diff as nat) <= 0x20_0000_0000_0000 * 0x40_0000_0000_0000_0000)
                by (nonlinear_arith)
                requires
                    0 <= m1 <= 0x20_0000_0000_0000,
                    0 <= pow2(diff as nat) <= 0x40_0000_0000_0000_0000,
            ;
            lemma_pow2_adds(diff as nat, g2 as nat);
            lemma_aligned(m1 as int, m2 as int, pow2(diff as nat) as int, pow2(g2 as nat) as int);
            lemma_pow2_pos(g2 as nat);
            // the larger magnitude stays the larger after alignment
            assert(m1 * pow2(diff as nat) >= m2) by (nonlinear_arith)
                requires
                    (m1 * pow2(diff as nat)) * pow2(g2 as nat) >= m2 * pow2(g2 as nat),
                    pow2(g2 as nat) > 0,
            ;
        }
        let aligned: u128 = raised(m1 as u128, diff);
        let m: u128 = if same { aligned + m2 as u128 } else { aligned - m2 as u128 };
        return round_exact(f, x.negative, m, g2, 0, Ghost(num), Ghost(1));
    }
    // The smaller operand reaches only below the last place kept.
    proof {
        assert(m1 * pow2(16) <= 0x20_0000_0000_0000 * 0x1_0000) by (nonlinear_arith)
            requires
                0 <= m1 <= 0x20_0000_0000_0000,
                pow2(16) == 0x1_0000,
        ;
    }
    let aligned: u128 = raised(m1 as u128, 16);
    let m: u128 = if same { aligned } else { aligned - 1 };
    let e: i32 = g1 as i32 - 16;
    let magnitude: u64 = settled(f.precision, f.top, m, e, true);
    proof {
        let pe = pow2(e as nat) as int;
        let t = m2 * pow2(g2 as nat);
        lemma_pow2_adds(16, e as nat);
        lemma_pow2_adds(53, g2 as nat);
        lemma_pow2_pos(g2 as nat);
        lemma_pow2_strictly_increases((53 + g2) as nat, e as nat);
        assert(0 < t < pe) by (nonlinear_arith)
            requires
                t == m2 * pow2(g2 as nat),
                0 < m2 <= pow2(53),
                pow2(g2 as nat) > 0,
                pow2(53) * pow2(g2 as nat) < pe,
        ;
        assert(f.size(x) == aligned * pe) by (nonlinear_arith)
            requires
                f.size(x) == m1 * (pow2(16) * pe),
                aligned == m1 * pow2(16),
        ;
        assert((aligned + 1) * pe == aligned * pe + pe && (aligned - 1) * pe == aligned * pe - pe)
            by (nonlinear_arith);
        assert(placed(m as nat, e as int, true, num, 1)) by {
            assert(pow2_above(e as int) * 1 == pe);
            assert(num * pow2_above(-(e as int)) == num);
        }
        // enough digits are kept for the rest to be only a rest
        lemma_pow2_adds((f.precision - 1) as nat, 16);
        assert(aligned >= pow2((f.precision + 15) as nat)) by (nonlinear_arith)
            requires
                aligned == m1 * pow2(16),
                m1 >= pow2((f.precision - 1) as nat),
                pow2((f.precision + 15) as nat) == pow2((f.precision - 1) as nat) * pow2(16),
        ;
        lemma_pow2_strictly_increases((f.precision + 1) as nat, (f.precision + 15) as nat);
        lemma_many_digits(m as nat, (f.precision + 1) as nat);
        lemma_settle(f.p(), f.top as int, m as nat, e as int, true, num, 1);
        lemma_nearest_unique(f.p(), f.top as int, num, 1, magnitude as int);
    }
    Num { negative: x.negative, magnitude }
}

proof fn lemma_aligned(m1: int, m2: int, d: int, s: int)
    by (nonlinear_arith)
    ensures
        (m1 * d + m2) * s == m1 * (d * s) + m2 * s,
        (m1 * d - m2) * s == m1 * (d * s) - m2 * s,
        (m1 * d) * s == m1 * (d * s),
{
}

proof fn lemma_pow2_70()
    ensures
        pow2(70) == 0x40_0000_0000_0000_0000,
{
    vstd::arithmetic::power2::lemma2_to64();
    vstd::arithmetic::power2::lemma2_to64_rest();
    lemma_pow2_adds(64, 6);
}

/// Larger magnitudes have no smaller exponents.
proof fn lemma_exponents_ordered(p: nat, a: int, b: int)
    requires
        p >= 1,
        0 <= a <= b,
    ensures
        gap_exponent(p, a) <= gap_exponent(p, b),
{
    lemma_half_span(p);
    let h = half_span(p);
    if a >= h {
        vstd::arithmetic::div_mod::lemma_div_is_ordered(a, b, h);
        assert(a / h >= 1) by (nonlinear_arith)
            requires
                a >= h,
                h >= 1,
        ;
    }
}

/// The sum of two numbers.
pub fn sum(f: Format, x: Num, y: Num) -> (r: Num)
    requires
        f.valid(),
    ensures
        r == f.plus(x, y),
        r.magnitude <= f.top + f.half / 2,
{
    proof {
        lemma_half_bound(f);
    }
    if x.magnitude > f.top || y.magnitude > f.top {
        return Num { negative: false, magnitude: f.top + f.half / 2 };
    }
    if x.magnitude == f.top {
        if y.magnitude == f.top && x.negative != y.negative {
            return Num { negative: false, magnitude: f.top + f.half / 2 };
        }
        return x;
    }
    if y.magnitude == f.top {
        return y;
    }
    if x.magnitude >= y.magnitude {
        sum_ordered(f, x, y)
    } else {
        sum_ordered(f, y, x)
    }
}

/// The quotient of two finite numbers, neither of them zero.
fn quotient_finite(f: Format, x: Num, y: Num) -> (r: Num)
    requires
        f.valid(),
        0 < x.magnitude < f.top,
        0 < y.magnitude < f.top,
    ensures
        r == f.over(x, y),
        r.magnitude <= f.top + f.half / 2,
{
    let negative: bool = x.negative != y.negative;
    let (m1, g1) = parts(f, x.magnitude);
    let (m2, g2) = parts(f, y.magnitude);
    let l: u32 = digit_count(m1 as u128);
    proof {
        lemma_half_bound(f);
        vstd::arithmetic::power2::lemma2_to64();
        vstd::arithmetic::power2::lemma2_to64_rest();
        lemma_digits(m1 as nat);
        if l > 53 {
            if l > 54 {
                lemma_pow2_strictly_increases(53, (l - 1) as nat);
            }
        }
    }
    // Bring the dividend to a fixed length, so that the quotient has digits enough.
    let c: u32 = 126 - l;
    proof {
        lemma_pow2_adds(l as nat, c as nat);
        lemma_pow2_adds((l - 1) as nat, c as nat);
        lemma_pow2_126();
        lemma_pow2_pos(c as nat);
        assert(m1 * pow2(c as nat) < pow2(126)) by (nonlinear_arith)
            requires
                m1 < pow2(l as nat),
                pow2(c as nat) > 0,
                pow2(126) == pow2(l as nat) * pow2(c as nat),
        ;
        assert(m1 * pow2(c as nat) >= pow2(125)) by (nonlinear_arith)
            requires
                m1 >= pow2((l - 1) as nat),
                pow2(125) == pow2((l - 1) as nat) * pow2(c as nat),
        ;
    }
    let dividend: u128 = raised(m1 as u128, c);
    let q: u128 = dividend / (m2 as u128);
    let rest: u128 = dividend % (m2 as u128);
    let sticky: bool = rest != 0;
    let e: i32 = g1 as i32 + f.unit as i32 - g2 as i32 - c as i32;
    proof {
        lemma_fundamental_div_mod(dividend as int, m2 as int);
        lemma_pow2_adds(72, 53);
        assert(q >= pow2(72)) by (nonlinear_arith)
            requires
                dividend >= pow2(72) * pow2(53),
                dividend == m2 * q + rest,
                rest < m2,
                0 < m2 < pow2(53),
        ;
        lemma_pow2_pos(72);
        assert(q <= dividend) by (nonlinear_arith)
            requires
                q == dividend as int / m2 as int,
                m2 >= 1,
                dividend >= 0,
        ;
        lemma_pow2_strictly_increases((f.precision + 1) as nat, 72);
        lemma_many_digits(q as nat, (f.precision + 1) as nat);
    }
    let magnitude: u64 = settled(f.precision, f.top, q, e, sticky);
    proof {
        let num = f.size(x) * pow2(f.unit as nat);
        let den = f.size(y);
        let a = (g1 + f.unit) as nat;
        lemma_pow2_adds(g1 as nat, f.unit as nat);
        lemma_pow2_pos(g2 as nat);
        assert(num == m1 * pow2(a)) by (nonlinear_arith)
            requires
                num == (m1 * pow2(g1 as nat)) * pow2(f.unit as nat),
                pow2(a) == pow2(g1 as nat) * pow2(f.unit as nat),
        ;
        assert(den > 0) by (nonlinear_arith)
            requires
                den == m2 * pow2(g2 as nat),
                m2 > 0,
                pow2(g2 as nat) > 0,
        ;
        let step = pow2_above(e as int) * den;
        let value = num * pow2_above(-(e as int));
        // both sides share one positive factor
        let w = pow2_above(e as int) * pow2(g2 as nat);
        lemma_pow2_above(e as int);
        assert(w > 0) by (nonlinear_arith)
            requires
                w == pow2_above(e as int) * pow2(g2 as nat),
                pow2_above(e as int) >= 1,
                pow2(g2 as nat) > 0,
        ;
        assert(step == m2 * w) by (nonlinear_arith)
            requires
                step == pow2_above(e as int) * (m2 * pow2(g2 as nat)),
                w == pow2_above(e as int) * pow2(g2 as nat),
        ;
        assert(value == dividend * w) by {
            if e >= 0 {
                lemma_pow2_adds(e as nat, g2 as nat);
                lemma_pow2_adds(c as nat, (e + g2) as nat);
                assert(pow2_above(e as int) == pow2(e as nat));
                assert(w == pow2((e + g2) as nat));
                assert(num * 1 == dividend * w) by (nonlinear_arith)
                    requires
                        num == m1 * pow2(a),
                        pow2(a) == pow2(c as nat) * w,
                        dividend == m1 * pow2(c as nat),
                ;
            } else {
                let n = (-e) as nat;
                lemma_pow2_adds(a, n);
                lemma_pow2_adds(c as nat, g2 as nat);
                assert(w == pow2(g2 as nat));
                assert(num * pow2(n) == dividend * w) by (nonlinear_arith)
                    requires
                        num == m1 * pow2(a),
                        pow2(a) * pow2(n) == pow2(c as nat) * w,
                        dividend == m1 * pow2(c as nat),
                ;
            }
        }
        assert(placed(q as nat, e as int, sticky, num, den)) by {
            assert(q * step == (m2 * q) * w) by (nonlinear_arith)
                requires
                    step == m2 * w,
            ;
            assert((q + 1) * step == (m2 * q) * w + m2 * w) by (nonlinear_arith)
                requires
                    step == m2 * w,
            ;
            assert(dividend * w == (m2 * q) * w + rest * w) by (nonlinear_arith)
                requires
                    dividend == m2 * q + rest,
            ;
            if sticky {
                assert(0 < rest * w < m2 * w) by (nonlinear_arith)
                    requires
                        0 < rest < m2,
                        w > 0,
                ;
            } else {
                assert(0 * w == 0);
            }
        }
        lemma_settle(f.p(), f.top as int, q as nat, e as int, sticky, num, den);
        lemma_nearest_unique(f.p(), f.top as int, num, den, magnitude as int);
    }
    Num { negative, magnitude }
}

proof fn lemma_pow2_126()
    ensures
        pow2(126) == 0x4000_0000_0000_0000_0000_0000_0000_0000,
{
    vstd::arithmetic::power2::lemma2_to64();
    vstd::arithmetic::power2::lemma2_to64_rest();
    lemma_pow2_adds(64, 62);
}

/// The quotient of two numbers.
pub fn quotient(f: Format, x: Num, y: Num) -> (r: Num)
    requires
        f.valid(),
    ensures
        r == f.over(x, y),
        r.magnitude <= f.top + f.half / 2,
{
    proof {
        lemma_half_bound(f);
        lemma_zero_units(f.p());
        if y.magnitude > 0 {
            lemma_units_increasing(f.p(), 0, y.magnitude as int);
            assert(0 * pow2(f.unit as nat) == 0);
            assert(0 * f.size(y) == 0);
            lemma_representable(f.p(), f.top as int, f.size(y), 0);
        }
    }
    let negative: bool = x.negative != y.negative;
    if x.magnitude > f.top || y.magnitude > f.top {
        return Num { negative: false, magnitude: f.top + f.half / 2 };
    }
    if x.magnitude == f.top {
        if y.magnitude == f.top {
            return Num { negative: false, magnitude: f.top + f.half / 2 };
        }
        return Num { negative, magnitude: f.top };
    }
    if y.magnitude == f.top {
        return Num { negative, magnitude: 0 };
    }
    if y.magnitude == 0 {
        if x.magnitude == 0 {
            return Num { negative: false, magnitude: f.top + f.half / 2 };
        }
        return Num { negative, magnitude: f.top };
    }
    if x.magnitude == 0 {
        return Num { negative, magnitude: 0 };
    }
    quotient_finite(f, x, y)
}

/// Rounding to the nearest integer, ties to even.
pub fn rounded_even(f: Format, x: Num) -> (r: Num)
    requires
        f.valid(),
    ensures
        r == f.round_even(x),
        r.magnitude <= f.top || r == x,
{
    if x.magnitude >= f.top {
        return x;
    }
    let (m, g) = parts(f, x.magnitude);
    let ghost one: int = pow2(f.unit as nat) as int;
    proof {
        lemma_half_bound(f);
        vstd::arithmetic::power2::lemma2_to64();
        vstd::arithmetic::power2::lemma2_to64_rest();
        lemma_pow2_pos(f.unit as nat);
        lemma_pow2_pos(g as nat);
    }
    if g >= f.unit {
        proof {
            let k = (g - f.unit) as nat;
            lemma_pow2_adds(k, f.unit as nat);
            let whole = m * pow2(k);
            assert(f.size(x) == whole * one + 0) by (nonlinear_arith)
                requires
                    f.size(x) == m * (pow2(k) * one),
                    whole == m * pow2(k),
            ;
            lemma_fundamental_div_mod_converse(f.size(x), one, whole as int, 0);
            lemma_representable(f.p(), f.top as int, 1, x.magnitude as int);
            assert(f.size(x) * 1 == f.size(x));
        }
        return x;
    }
    let d: u32 = f.unit - g;
    let mut k: u64 = 0;
    proof {
        lemma_pow2_adds(d as nat, g as nat);
        lemma_pow2_pos(d as nat);
        lemma_fundamental_div_mod(m as int, pow2(d as nat) as int);
        lemma_scaled_division(m as int, pow2(d as nat) as int, pow2(g as nat) as int);
        lemma_pow2_unfold(d as nat);
        if d >= 64 {
            if d > 64 {
                lemma_pow2_strictly_increases(64, d as nat);
            }
            vstd::arithmetic::div_mod::lemma_basic_div(m as int, pow2(d as nat) as int);
            vstd::arithmetic::div_mod::lemma_small_mod(m as nat, pow2(d as nat));
        }
    }
    if d < 64 {
        k = m >> (d as u64);
        proof {
            vstd::bits::lemma_u64_shr_is_div(m, d as u64);
            if d < 63 {
                lemma_pow2_strictly_increases((d - 1) as nat, 63);
            }
            lemma_shift_one(d);
            assert(k * pow2(d as nat) == pow2(d as nat) * k) by (nonlinear_arith);
            lemma_shift_left(k as u128, d as u128);
        }
        let rest: u128 = m as u128 - ((k as u128) << (d as u128));
        let half: u128 = 1u128 << ((d - 1) as u128);
        if rest > half || (rest == half && k % 2 == 1) {
            k = k + 1;
        }
    }
    proof {
        assert(k == nearest_integer(f.size(x), one));
    }
    round_exact(
        f,
        x.negative,
        k as u128,
        f.unit,
        0,
        Ghost(nearest_integer(f.size(x), one) * one),
        Ghost(1),
    )
}

proof fn lemma_shift_one(d: u32)
    requires
        1 <= d <= 64,
    ensures
        1u128 << ((d - 1) as u128) == pow2((d - 1) as nat),
        2 * pow2((d - 1) as nat) == pow2(d as nat),
{
    vstd::arithmetic::power2::lemma2_to64();
    vstd::arithmetic::power2::lemma2_to64_rest();
    lemma_pow2_unfold(d as nat);
    if d < 64 {
        lemma_pow2_strictly_increases((d - 1) as nat, 63);
    }
    lemma_shift_left(1, (d - 1) as u128);
}

/// Scaling dividend and divisor alike keeps the quotient and scales the rest.
pub proof fn lemma_scaled_division(m: int, d: int, s: int)
    requires
        m >= 0,
        d > 0,
        s > 0,
    ensures
        (m * s) / (d * s) == m / d,
        (m * s) % (d * s) == (m % d) * s,
        d * s > 0,
        2 * (m % d) > d <==> 2 * ((m % d) * s) > d * s,
        2 * (m % d) == d <==> 2 * ((m % d) * s) == d * s,
{
    lemma_fundamental_div_mod(m, d);
    let q = m / d;
    let r = m % d;
    assert(m * s == q * (d * s) + r * s) by (nonlinear_arith)
        requires
            m == d * q + r,
    ;
    assert(0 <= r * s < d * s) by (nonlinear_arith)
        requires
            0 <= r < d,
            s > 0,
    ;
    lemma_fundamental_div_mod_converse(m * s, d * s, q, r * s);
    assert(2 * r > d <==> 2 * (r * s) > d * s) by (nonlinear_arith)
        requires
            s > 0,
    ;
    assert(2 * r == d <==> 2 * (r * s) == d * s) by (nonlinear_arith)
        requires
            s > 0,
    ;
}

/// The magnitude of the integer part of a finite number, where it fits.
pub fn integer_size(f: Format, x: Num) -> (r: Option<u64>)
    requires
        f.valid(),
        f.is_finite(x),
    ensures
        r is Some <==> abs(f.integer_part(x)) <= u64::MAX,
        r matches Some(n) ==> n == abs(f.integer_part(x)),
{
    let (m, g) = parts(f, x.magnitude);
    let ghost one: int = pow2(f.unit as nat) as int;
    proof {
        lemma_half_bound(f);
        vstd::arithmetic::power2::lemma2_to64();
        vstd::arithmetic::power2::lemma2_to64_rest();
        lemma_pow2_pos(f.unit as nat);
        lemma_pow2_pos(g as nat);
    }
    if g >= f.unit {
        let k: u32 = g - f.unit;
        proof {
            lemma_pow2_adds(k as nat, f.unit as nat);
            let whole = m * pow2(k as nat);
            assert(f.size(x) == whole * one + 0) by (nonlinear_arith)
                requires
                    f.size(x) == m * (pow2(k as nat) * one),
                    whole == m * pow2(k as nat),
            ;
            lemma_fundamental_div_mod_converse(f.size(x), one, whole as int, 0);
            if k >= 64 {
                if k > 64 {
                    lemma_pow2_strictly_increases(64, k as nat);
                }
                assert(whole > u64::MAX) by (nonlinear_arith)
                    requires
                        whole == m * pow2(k as nat),
                        m >= 1,
                        pow2(k as nat) > u64::MAX,
                ;
            } else {
                if k < 63 {
                    lemma_pow2_strictly_increases(k as nat, 63);
                }
                assert(0 <= whole <= 0x20_0000_0000_0000 * 0x8000_0000_0000_0000) by (nonlinear_arith)
                    requires
                        whole == m * pow2(k as nat),
                        0 <= m <= 0x20_0000_0000_0000,
                        0 <= pow2(k as nat) <= 0x8000_0000_0000_0000,
                ;
            }
        }
        if k >= 64 {
            return None;
        }
        let whole: u128 = raised(m as u128, k);
        if whole > u64::MAX as u128 {
            None
        } else {
            Some(whole as u64)
        }
    } else {
        let d: u32 = f.unit - g;
        proof {
            lemma_pow2_adds(d as nat, g as nat);
            lemma_pow2_pos(d as nat);
            lemma_scaled_division(m as int, pow2(d as nat) as int, pow2(g as nat) as int);
            assert(0 <= m as int / pow2(d as nat) as int <= m) by (nonlinear_arith)
                requires
                    m >= 0,
                    pow2(d as nat) >= 1,
            ;
            if d >= 64 {
                if d > 64 {
                    lemma_pow2_strictly_increases(64, d as nat);
                }
                vstd::arithmetic::div_mod::lemma_basic_div(m as int, pow2(d as nat) as int);
            } else {
                vstd::bits::lemma_u64_shr_is_div(m, d as u64);
            }
        }
        if d >= 64 {
            Some(0)
        } else {
            Some(m >> (d as u64))
        }
    }
}

} // verus!
