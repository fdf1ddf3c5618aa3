//! Bounds on the rounding error of operations and of sums.

use vstd::arithmetic::power2::{lemma_pow2_adds, lemma_pow2_pos, lemma_pow2_strictly_increases, pow2};
use vstd::prelude::*;
use crate::cluster::hungarian::sums::sum;
use crate::float::arith::{abs, lemma_zero_units, Format, Num};
use crate::float::close::{law_rounding_is_close, lemma_gaps_grow};
use crate::float::double::{binary64, lemma_double_format, Double};
use crate::float::exact::{lemma_place, place};
use crate::float::grid::{distance, gap_exponent, half_span, lemma_half_span, lemma_representable, lemma_split, lemma_units_increasing, lemma_units_step, nearest, significand, units};
use crate::float::laws::{lemma_root_exists, lemma_root_exact, lemma_root_monotone};
use crate::float::order::{lemma_nearest_exists, lemma_nearest_monotone, lemma_of_num};
use crate::float::root::nearest_root;
use crate::float::sums::added;

verus! {

/// A rounded quotient lies within half a unit in the last place of the exact one.
pub proof fn lemma_rounded_close(f: Format, num: int, den: int)
    requires
        f.valid(),
        den > 0,
        num >= 0,
        nearest(f.p(), f.top as int, num, den) < f.top,
    ensures
        ({
            let b = nearest(f.p(), f.top as int, num, den);
            let u = units(f.p(), b);
            &&& 0 <= b
            &&& 0 <= u
            &&& 2 * f.half * distance(u * den, num) <= (u + f.half) * den
            &&& den == 1 ==> 2 * f.half * distance(u, num) <= u
        }),
{
    let p = f.p();
    let top = f.top as int;
    lemma_nearest_exists(p, top, num, den);
    let b = nearest(p, top, num, den);
    let u = units(p, b);
    let h = f.half as int;
    law_rounding_is_close(p, top, num, den, b);
    lemma_half_span(p);
    lemma_units_increasing(p, b, b + 1);
    vstd::arithmetic::power2::lemma2_to64();
    let far = distance(u * den, num);
    assert(0 <= u * den && 0 <= h * den && (u + h) * den == u * den + h * den) by (nonlinear_arith)
        requires
            u >= 0,
            h >= 0,
            den > 0,
    ;
    if gap_exponent(p, b) == 0 {
        assert(pow2(0) * den == den);
        assert(2 * h * far <= h * den) by (nonlinear_arith)
            requires
                2 * far <= den,
                h >= 0,
        ;
        if den == 1 {
            assert(far == 0);
            assert(2 * h * 0 == 0);
        }
    } else {
        assert(pow2(p) == 2 * h);
    }
    assert(den == 1 ==> u * den == u) by (nonlinear_arith);
}

/// What is at most a magnitude of the format rounds to no more.
pub proof fn lemma_rounded_bounded(f: Format, num: int, den: int, c: int)
    requires
        f.valid(),
        den > 0,
        0 <= c < f.top,
        0 <= num <= units(f.p(), c) * den,
    ensures
        0 <= nearest(f.p(), f.top as int, num, den) <= c,
{
    lemma_representable(f.p(), f.top as int, den, c);
    lemma_nearest_monotone(f.p(), f.top as int, num, units(f.p(), c) * den, den);
}

/// The sum of two numbers, rounded.
pub proof fn lemma_format_plus(f: Format, x: Num, y: Num)
    requires
        f.valid(),
        f.is_finite(x),
        f.is_finite(y),
        f.is_finite(f.plus(x, y)),
    ensures
        2 * f.half * distance(f.value(f.plus(x, y)), f.value(x) + f.value(y)) <= abs(
            f.value(f.plus(x, y)),
        ),
{
    let e = f.value(x) + f.value(y);
    lemma_zero_units(f.p());
    if e != 0 {
        lemma_nearest_exists(f.p(), f.top as int, abs(e), 1);
        lemma_rounded_close(f, abs(e), 1);
    } else {
        assert(2 * f.half * 0 == 0);
    }
}

/// The product of two numbers, rounded.
pub proof fn lemma_format_times(f: Format, x: Num, y: Num)
    requires
        f.valid(),
        f.is_finite(x),
        f.is_finite(y),
        f.is_finite(f.times(x, y)),
    ensures
        ({
            let one = pow2(f.unit as nat) as int;
            let r = f.value(f.times(x, y));
            2 * f.half * distance(r * one, f.value(x) * f.value(y)) <= (abs(r) + f.half) * one
        }),
{
    let one = pow2(f.unit as nat) as int;
    lemma_pow2_pos(f.unit as nat);
    let a = f.size(x);
    let b = f.size(y);
    lemma_sizes(f, x);
    lemma_sizes(f, y);
    assert(a * b >= 0) by (nonlinear_arith)
        requires
            a >= 0,
            b >= 0,
    ;
    lemma_nearest_exists(f.p(), f.top as int, a * b, one);
    lemma_rounded_close(f, a * b, one);
    let u = f.size(f.times(x, y));
    assert((-a) * b == -(a * b) && a * (-b) == -(a * b) && (-a) * (-b) == a * b && (-u) * one == -(u
        * one)) by (nonlinear_arith);
}

/// The quotient of two numbers, rounded.
pub proof fn lemma_format_over(f: Format, x: Num, y: Num)
    requires
        f.valid(),
        f.is_finite(x),
        f.is_finite(y),
        y.magnitude > 0,
        f.is_finite(f.over(x, y)),
    ensures
        ({
            let one = pow2(f.unit as nat) as int;
            let r = f.value(f.over(x, y));
            2 * f.half * distance(r * f.value(y), f.value(x) * one) <= (abs(r) + f.half) * abs(
                f.value(y),
            )
        }),
{
    let one = pow2(f.unit as nat) as int;
    lemma_pow2_pos(f.unit as nat);
    let a = f.size(x);
    let b = f.size(y);
    lemma_sizes(f, x);
    lemma_sizes(f, y);
    assert(a * one >= 0) by (nonlinear_arith)
        requires
            a >= 0,
            one >= 0,
    ;
    lemma_nearest_exists(f.p(), f.top as int, a * one, b);
    lemma_rounded_close(f, a * one, b);
    let u = f.size(f.over(x, y));
    assert((-a) * one == -(a * one) && u * (-b) == -(u * b) && (-u) * b == -(u * b) && (-u) * (-b)
        == u * b) by (nonlinear_arith);
}

/// Sizes are not negative, and zero only for zero.
pub proof fn lemma_sizes(f: Format, x: Num)
    requires
        f.valid(),
    ensures
        f.size(x) >= 0,
        x.magnitude > 0 <==> f.size(x) > 0,
{
    lemma_zero_units(f.p());
    lemma_units_increasing(f.p(), x.magnitude as int, x.magnitude + 1);
    if x.magnitude > 0 {
        lemma_units_increasing(f.p(), 0, x.magnitude as int);
    }
}

/// The unit of double precision: `2^1074` of them are one.
pub open spec fn one() -> int {
    pow2(1074) as int
}

/// Far below the largest number: `2^1023`, in units.
pub open spec fn limit() -> int {
    0x10_0000_0000_0000int * pow2(2045)
}

pub proof fn lemma_one()
    ensures
        one() > 0,
        limit() > 0,
{
    lemma_pow2_pos(1074);
    lemma_pow2_pos(2045);
}

/// A magnitude that is the limit.
proof fn lemma_limit() -> (c: int)
    ensures
        0 <= c < binary64().top,
        units(53, c) == limit(),
{
    lemma_place(0x10_0000_0000_0000, 2045);
    place(0x10_0000_0000_0000, 2045)
}

/// A sum is off by at most half a unit in its last of 53 digits.
pub proof fn law_sum_is_close(a: Double, b: Double)
    requires
        a.finite(),
        b.finite(),
        abs(a.units() + b.units()) <= limit(),
    ensures
        a.plus(b).finite(),
        0x20_0000_0000_0000 * distance(a.plus(b).units(), a.units() + b.units()) <= abs(
            a.plus(b).units(),
        ),
        0x1f_ffff_ffff_ffff * distance(a.plus(b).units(), a.units() + b.units()) <= abs(
            a.units() + b.units(),
        ),
        abs(a.plus(b).units()) <= limit(),
{
    lemma_double_format();
    lemma_one();
    let f = binary64();
    let e = a.units() + b.units();
    let c = lemma_limit();
    lemma_zero_units(53);
    assert(units(53, c) * 1 == limit());
    lemma_rounded_bounded(f, abs(e), 1, c);
    let r = f.plus(a.num(), b.num());
    if e != 0 && r.magnitude < c {
        lemma_units_increasing(53, r.magnitude as int, c);
    }
    lemma_format_plus(f, a.num(), b.num());
    lemma_of_num(r);
}

/// So is a difference.
pub proof fn law_difference_is_close(a: Double, b: Double)
    requires
        a.finite(),
        b.finite(),
        abs(a.units() - b.units()) <= limit(),
    ensures
        a.minus(b).finite(),
        0x20_0000_0000_0000 * distance(a.minus(b).units(), a.units() - b.units()) <= abs(
            a.minus(b).units(),
        ),
        0x1f_ffff_ffff_ffff * distance(a.minus(b).units(), a.units() - b.units()) <= abs(
            a.units() - b.units(),
        ),
        abs(a.minus(b).units()) <= limit(),
{
    lemma_double_format();
    lemma_of_num(Num { negative: !b.num().negative, magnitude: b.num().magnitude });
    law_sum_is_close(a, b.negated());
}

/// A product is off by at most half a unit in its last of 53 digits, or half the
/// smallest number.
pub proof fn law_product_is_close(a: Double, b: Double)
    requires
        a.finite(),
        b.finite(),
        abs(a.units() * b.units()) <= limit() * one(),
    ensures
        a.times(b).finite(),
        a.times(b).num().negative == (a.num().negative != b.num().negative),
        0x20_0000_0000_0000 * distance(a.times(b).units() * one(), a.units() * b.units()) <= (abs(
            a.times(b).units(),
        ) + 0x10_0000_0000_0000) * one(),
        abs(a.times(b).units()) <= limit(),
{
    lemma_double_format();
    lemma_one();
    let f = binary64();
    let c = lemma_limit();
    let x = f.size(a.num());
    let y = f.size(b.num());
    lemma_sizes(f, a.num());
    lemma_sizes(f, b.num());
    assert((-x) * y == -(x * y) && x * (-y) == -(x * y) && (-x) * (-y) == x * y) by (nonlinear_arith);
    assert(x * y >= 0) by (nonlinear_arith)
        requires
            x >= 0,
            y >= 0,
    ;
    lemma_rounded_bounded(f, x * y, one(), c);
    let r = f.times(a.num(), b.num());
    if r.magnitude < c {
        lemma_units_increasing(53, r.magnitude as int, c);
    }
    lemma_format_times(f, a.num(), b.num());
    lemma_of_num(r);
}

/// A quotient is off by at most half a unit in its last of 53 digits, or half the
/// smallest number.
pub proof fn law_quotient_is_close(a: Double, b: Double)
    requires
        a.finite(),
        b.finite(),
        b.units() != 0,
        abs(a.units()) * one() <= limit() * abs(b.units()),
    ensures
        a.over(b).finite(),
        a.over(b).num().negative == (a.num().negative != b.num().negative),
        0x20_0000_0000_0000 * distance(a.over(b).units() * b.units(), a.units() * one()) <= (abs(
            a.over(b).units(),
        ) + 0x10_0000_0000_0000) * abs(b.units()),
        abs(a.over(b).units()) <= limit(),
{
    lemma_double_format();
    lemma_one();
    let f = binary64();
    let c = lemma_limit();
    let x = f.size(a.num());
    let y = f.size(b.num());
    lemma_sizes(f, a.num());
    lemma_sizes(f, b.num());
    assert(x * one() >= 0) by (nonlinear_arith)
        requires
            x >= 0,
            one() >= 0,
    ;
    lemma_rounded_bounded(f, x * one(), y, c);
    let r = f.over(a.num(), b.num());
    if r.magnitude < c {
        lemma_units_increasing(53, r.magnitude as int, c);
    }
    lemma_format_over(f, a.num(), b.num());
    lemma_of_num(r);
}

/// Squares of non-negative numbers are ordered as they are.
pub proof fn lemma_squares_ordered(a: int, b: int)
    requires
        0 <= a <= b,
    ensures
        a * a <= b * b,
{
    assert(a * a <= b * b) by (nonlinear_arith)
        requires
            0 <= a <= b,
    ;
}

/// The largest double has fewer than `2^2098` units.
proof fn lemma_largest(x: Double)
    requires
        x.finite(),
    ensures
        0 <= binary64().size(x.num()) < pow2(2098),
{
    lemma_double_format();
    let f = binary64();
    let top = f.top as int;
    lemma_sizes(f, x.num());
    lemma_units_increasing(53, x.num().magnitude as int, top);
    lemma_half_span(53);
    vstd::arithmetic::power2::lemma2_to64();
    vstd::arithmetic::power2::lemma2_to64_rest();
    let h = half_span(53);
    assert(h == 0x10_0000_0000_0000);
    vstd::arithmetic::div_mod::lemma_fundamental_div_mod_converse(top, h, 2047, 0);
    assert(gap_exponent(53, top) == 2046);
    assert(significand(53, top) == h);
    lemma_pow2_adds(52, 2046);
}

/// A root is off by at most half a unit in its last of 53 digits: so is its square, by
/// about one unit.
pub proof fn law_root_is_close(x: Double)
    requires
        x.finite(),
        x.units() > 0,
    ensures
        x.root().finite(),
        x.root().units() > 0,
        ({
            let r = x.root().units();
            &&& (0x1f_ffff_ffff_ffff * r) * (0x1f_ffff_ffff_ffff * r) <= 0x20_0000_0000_0000
                * 0x20_0000_0000_0000 * (x.units() * one())
            &&& 0x20_0000_0000_0000 * 0x20_0000_0000_0000 * (x.units() * one()) <= (
            0x20_0000_0000_0001 * r) * (0x20_0000_0000_0001 * r)
        }),
{
    lemma_double_format();
    lemma_one();
    let f = binary64();
    let top = f.top as int;
    lemma_sizes(f, x.num());
    let size = f.size(x.num());
    assert(size == x.units());
    let rad = size * one();
    lemma_largest(x);
    // between 2^537 and 2^1600
    lemma_place(1, 1600);
    let c = place(1, 1600);
    lemma_place(1, 537);
    let low = place(1, 537);
    lemma_pow2_adds(1600, 1600);
    lemma_pow2_adds(537, 537);
    lemma_pow2_adds(2098, 1074);
    lemma_pow2_strictly_increases(3172, 3200);
    lemma_pow2_strictly_increases(53, 537);
    assert(rad <= pow2(3172)) by (nonlinear_arith)
        requires
            rad == size * one(),
            size <= pow2(2098),
            one() == pow2(1074),
            one() >= 0,
            pow2(3172) == pow2(2098) * pow2(1074),
    ;
    assert(units(53, c) * units(53, c) == pow2(3200)) by (nonlinear_arith)
        requires
            units(53, c) == 1 * pow2(1600),
            pow2(3200) == pow2(1600) * pow2(1600),
    ;
    assert(units(53, low) * units(53, low) == one()) by (nonlinear_arith)
        requires
            units(53, low) == 1 * pow2(537),
            one() == pow2(537) * pow2(537),
    ;
    assert(one() <= rad) by (nonlinear_arith)
        requires
            rad == size * one(),
            size >= 1,
            one() > 0,
    ;
    lemma_root_exact(53, top, c);
    lemma_root_exact(53, top, low);
    lemma_root_monotone(53, top, rad, units(53, c) * units(53, c));
    lemma_root_monotone(53, top, units(53, low) * units(53, low), rad);
    lemma_root_exists(53, top, rad);
    let b = nearest_root(53, top, rad);
    let u = units(53, b);
    if low < b {
        lemma_units_increasing(53, low, b);
    }
    assert(u >= pow2(537));
    lemma_half_span(53);
    lemma_split(53, b);
    vstd::arithmetic::power2::lemma2_to64();
    vstd::arithmetic::power2::lemma2_to64_rest();
    let h = half_span(53);
    assert(h == 0x10_0000_0000_0000);
    let g = pow2(gap_exponent(53, b)) as int;
    let q = significand(53, b);
    assert(gap_exponent(53, b) > 0) by {
        if gap_exponent(53, b) == 0 {
            assert(u == q * 1);
        }
    }
    assert(u >= h * g) by (nonlinear_arith)
        requires
            u == q * g,
            q >= h,
            g >= 0,
    ;
    lemma_units_step(53, b);
    lemma_units_step(53, b - 1);
    lemma_gaps_grow(53, b - 1, b);
    let l = pow2(gap_exponent(53, b - 1)) as int;
    lemma_pow2_pos(gap_exponent(53, b));
    let high = 2 * u + g;
    let below = 2 * u - l;
    assert(below == units(53, b - 1) + u);
    assert(high == u + units(53, b + 1));
    // h (2u + g) <= (2h + 1) u
    assert(0 <= h * high <= 0x20_0000_0000_0001 * u) by (nonlinear_arith)
        requires
            high == 2 * u + g,
            u >= h * g,
            h == 0x10_0000_0000_0000,
            g > 0,
            u >= 0,
    ;
    assert(0 <= 0x1f_ffff_ffff_ffff * u <= h * below) by (nonlinear_arith)
        requires
            below == 2 * u - l,
            l <= g,
            u >= h * g,
            h == 0x10_0000_0000_0000,
            u >= 0,
    ;
    lemma_squares_ordered(h * high, 0x20_0000_0000_0001 * u);
    lemma_squares_ordered(0x1f_ffff_ffff_ffff * u, h * below);
    assert((h * high) * (h * high) == h * h * (high * high)) by (nonlinear_arith);
    assert((h * below) * (h * below) == h * h * (below * below)) by (nonlinear_arith);
    assert(h * h * (below * below) <= h * h * (4 * rad) && h * h * (4 * rad) <= h * h * (high
        * high)) by (nonlinear_arith)
        requires
            below * below <= 4 * rad <= high * high,
            h > 0,
    ;
    assert(h * h * (4 * rad) == 0x20_0000_0000_0000 * 0x20_0000_0000_0000 * rad) by (nonlinear_arith)
        requires
            h == 0x10_0000_0000_0000,
    ;
    lemma_of_num(f.root(x.num()));
    assert(x.root().units() == u);
}

/// The arithmetic of the square of a root.
pub proof fn lemma_root_arith(r: int, w: int)
    requires
        r >= 0,
        w >= 0,
        (0x1f_ffff_ffff_ffff * r) * (0x1f_ffff_ffff_ffff * r) <= 0x20_0000_0000_0000
            * 0x20_0000_0000_0000 * w,
        0x20_0000_0000_0000 * 0x20_0000_0000_0000 * w <= (0x20_0000_0000_0001 * r) * (
        0x20_0000_0000_0001 * r),
    ensures
        0x4_0000_0000_0000 * distance(r * r, w) <= w,
{
    let rr = r * r;
    assert((0x1f_ffff_ffff_ffff * r) * (0x1f_ffff_ffff_ffff * r) == 0x3ff_ffff_ffff_ffc0_0000_0000_0001
        * rr) by (nonlinear_arith)
        requires
            rr == r * r,
    ;
    assert((0x20_0000_0000_0001 * r) * (0x20_0000_0000_0001 * r) == 0x400_0000_0000_0040_0000_0000_0001
        * rr) by (nonlinear_arith)
        requires
            rr == r * r,
    ;
    assert(0x20_0000_0000_0000 * 0x20_0000_0000_0000 * w == 0x400_0000_0000_0000_0000_0000_0000 * w)
        by (nonlinear_arith);
}

/// Adding one more to a sum of integers.
pub proof fn lemma_sum_step(s: Seq<int>, n: nat)
    requires
        n < s.len(),
    ensures
        sum(s.take((n + 1) as int)) == sum(s.take(n as int)) + s[n as int],
{
    let t = s.take((n + 1) as int);
    assert(t.drop_last() =~= s.take(n as int));
    assert(t.last() == s[n as int]);
}

/// The exact values of numbers, in units.
pub open spec fn units_of(values: Seq<Double>) -> Seq<int> {
    Seq::new(values.len(), |i: int| values[i].units())
}

/// Their magnitudes.
pub open spec fn sizes_of(values: Seq<int>) -> Seq<int> {
    Seq::new(values.len(), |i: int| abs(values[i]))
}

/// A sum of magnitudes is at least that of the numbers, and grows.
pub proof fn lemma_sizes_sum(s: Seq<int>, n: nat)
    requires
        n <= s.len(),
    ensures
        abs(sum(s.take(n as int))) <= sum(sizes_of(s).take(n as int)),
        0 <= sum(sizes_of(s).take(n as int)) <= sum(sizes_of(s)),
{
    lemma_sizes_prefix(s, n);
    assert(sizes_of(s).take(s.len() as int) =~= sizes_of(s));
    lemma_sizes_rise(s, n, s.len());
}

proof fn lemma_sizes_prefix(s: Seq<int>, n: nat)
    requires
        n <= s.len(),
    ensures
        abs(sum(s.take(n as int))) <= sum(sizes_of(s).take(n as int)),
    decreases n,
{
    if n > 0 {
        let m = (n - 1) as nat;
        lemma_sizes_prefix(s, m);
        lemma_sum_step(s, m);
        lemma_sum_step(sizes_of(s), m);
    } else {
        assert(s.take(0).len() == 0);
        assert(sizes_of(s).take(0).len() == 0);
    }
}

proof fn lemma_sizes_rise(s: Seq<int>, n: nat, m: nat)
    requires
        n <= m <= s.len(),
    ensures
        0 <= sum(sizes_of(s).take(n as int)) <= sum(sizes_of(s).take(m as int)),
    decreases m,
{
    if n < m {
        lemma_sizes_rise(s, n, (m - 1) as nat);
        lemma_sum_step(sizes_of(s), (m - 1) as nat);
    } else if n > 0 {
        lemma_sizes_rise(s, (n - 1) as nat, (n - 1) as nat);
        lemma_sum_step(sizes_of(s), (n - 1) as nat);
    } else {
        assert(sizes_of(s).take(0).len() == 0);
    }
}

/// One step of the bound on the error of a sum.
pub proof fn lemma_error_step(k: int, far: int, far2: int, a: int, a2: int, e: int, d: int)
    requires
        0 <= k < 0x8_0000_0000_0000,
        0 <= a <= a2,
        0 <= far,
        0x10_0000_0000_0000 * far <= k * a,
        0 <= e <= a2 + far,
        0x1f_ffff_ffff_ffff * d <= e,
        0 <= far2 <= far + d,
        0 <= d,
    ensures
        0x10_0000_0000_0000 * far2 <= (k + 1) * a2,
{
    let ka = k * a;
    let ka2 = k * a2;
    assert(ka <= ka2) by (nonlinear_arith)
        requires
            ka == k * a,
            ka2 == k * a2,
            0 <= k,
            a <= a2,
    ;
    assert((k + 1) * a2 == ka2 + a2) by (nonlinear_arith)
        requires
            ka2 == k * a2,
    ;
    assert(ka2 <= 0x8_0000_0000_0000 * a2) by (nonlinear_arith)
        requires
            ka2 == k * a2,
            k <= 0x8_0000_0000_0000,
            a2 >= 0,
    ;
}

/// A sum added up one number after the other is off by at most its length times a unit
/// in the last place of the sum of the magnitudes.
pub proof fn law_added_is_close(start: Double, values: Seq<Double>, n: nat)
    requires
        start.finite(),
        start.units() == 0,
        n <= values.len(),
        n <= 0x8_0000_0000_0000,
        forall|i: int| 0 <= i < n ==> (#[trigger] values[i]).finite(),
        2 * sum(sizes_of(units_of(values)).take(n as int)) <= limit(),
    ensures
        added(start, values, n).finite(),
        0x10_0000_0000_0000 * distance(
            added(start, values, n).units(),
            sum(units_of(values).take(n as int)),
        ) <= n * sum(sizes_of(units_of(values)).take(n as int)),
    decreases n,
{
    let u = units_of(values);
    let z = sizes_of(u);
    if n > 0 {
        let m = (n - 1) as nat;
        lemma_sizes_rise(u, m, n);
        law_added_is_close(start, values, m);
        lemma_sum_step(u, m);
        lemma_sum_step(z, m);
        lemma_sizes_sum(u, n);
        let s = added(start, values, m);
        let v = values[m as int];
        assert(v.finite());
        let before = sum(u.take(m as int));
        let far = distance(s.units(), before);
        let a = sum(z.take(m as int));
        let a2 = sum(z.take(n as int));
        assert(far <= a) by (nonlinear_arith)
            requires
                0x10_0000_0000_0000 * far <= m * a,
                m <= 0x8_0000_0000_0000,
                a >= 0,
        ;
        law_sum_is_close(s, v);
        let e = s.units() + v.units();
        let d = distance(s.plus(v).units(), e);
        let far2 = distance(s.plus(v).units(), sum(u.take(n as int)));
        lemma_error_step(m as int, far, far2, a, a2, abs(e), d);
    } else {
        assert(u.take(0).len() == 0);
        assert(z.take(0).len() == 0);
        assert(0x10_0000_0000_0000 * 0 == 0);
    }
}

} // verus!
