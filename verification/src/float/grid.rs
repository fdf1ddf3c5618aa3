//! The grid of magnitudes of a binary floating-point format.
//!
//! A format of precision `p` writes a magnitude as an integer `b` (the bits
//! below the sign). Consecutive integers are consecutive magnitudes: counted in
//! units of the smallest positive one, they lie at distance 1 up to `2^p`, at
//! distance 2 up to `2^(p+1)`, and so on. [`units`] gives the exact value.

use vstd::arithmetic::div_mod::{lemma_fundamental_div_mod, lemma_fundamental_div_mod_converse};
use vstd::arithmetic::power2::{lemma_pow2_pos, lemma_pow2_unfold, pow2};
use vstd::prelude::*;

verus! {

/// Half the number of significands: `2^(p-1)`.
pub open spec fn half_span(p: nat) -> int {
    pow2((p - 1) as nat) as int
}

/// The exponent of the distance between magnitude `b` and its successor.
pub open spec fn gap_exponent(p: nat, b: int) -> nat {
    if b < half_span(p) {
        0
    } else {
        (b / half_span(p) - 1) as nat
    }
}

/// The integer significand of magnitude `b`.
pub open spec fn significand(p: nat, b: int) -> int {
    b - gap_exponent(p, b) * half_span(p)
}

/// The exact value of magnitude `b`, counted in the smallest positive
/// magnitude of the format.
pub open spec fn units(p: nat, b: int) -> int {
    significand(p, b) * pow2(gap_exponent(p, b))
}

/// `(g, q)` is the exponent and significand of some magnitude.
pub open spec fn is_parts(p: nat, g: nat, q: int) -> bool {
    &&& 0 <= q < 2 * half_span(p)
    &&& g > 0 ==> half_span(p) <= q
}

/// `num / den` (in units) rounds to magnitude `b`, ties to even: it lies between
/// the midpoints with the two neighbours, a midpoint itself belonging to the
/// even neighbour. Magnitude `top` stands for everything above as well.
pub open spec fn rounds_to(p: nat, top: int, num: int, den: int, b: int) -> bool {
    &&& 0 <= b <= top
    &&& b > 0 ==> {
        let low = (units(p, b - 1) + units(p, b)) * den;
        if b % 2 == 0 { low <= 2 * num } else { low < 2 * num }
    }
    &&& b < top ==> {
        let high = (units(p, b) + units(p, b + 1)) * den;
        if b % 2 == 0 { 2 * num <= high } else { 2 * num < high }
    }
}

/// The magnitude that `num / den` (in units) rounds to.
pub open spec fn nearest(p: nat, top: int, num: int, den: int) -> int {
    choose|b: int| rounds_to(p, top, num, den, b)
}

pub proof fn lemma_half_span(p: nat)
    requires
        p >= 1,
    ensures
        half_span(p) >= 1,
        2 * half_span(p) == pow2(p),
{
    lemma_pow2_pos((p - 1) as nat);
    lemma_pow2_unfold(p);
}

/// Exponent and significand are recovered from the magnitude they make up.
pub proof fn lemma_parts(p: nat, g: nat, q: int)
    requires
        p >= 1,
        is_parts(p, g, q),
    ensures
        g * half_span(p) + q >= 0,
        gap_exponent(p, g * half_span(p) + q) == g,
        significand(p, g * half_span(p) + q) == q,
        units(p, g * half_span(p) + q) == q * pow2(g),
{
    lemma_half_span(p);
    let h = half_span(p);
    let b = g * h + q;
    assert(g * h >= 0) by (nonlinear_arith)
        requires
            h >= 1,
    ;
    if q < h {
        assert(g == 0);
        assert(b == q) by (nonlinear_arith)
            requires
                g == 0,
                b == g * h + q,
        ;
    } else {
        assert(b == (g + 1) * h + (q - h)) by (nonlinear_arith)
            requires
                b == g * h + q,
        ;
        lemma_fundamental_div_mod_converse(b, h, (g + 1) as int, q - h);
        assert(b >= h);
    }
}

/// Every magnitude has an exponent and a significand in range.
pub proof fn lemma_split(p: nat, b: int)
    requires
        p >= 1,
        b >= 0,
    ensures
        is_parts(p, gap_exponent(p, b), significand(p, b)),
        b == gap_exponent(p, b) * half_span(p) + significand(p, b),
{
    lemma_half_span(p);
    let h = half_span(p);
    if b < h {
        assert(0 * h == 0);
    } else {
        let k = b / h;
        lemma_fundamental_div_mod(b, h);
        assert(k >= 1) by (nonlinear_arith)
            requires
                b >= h,
                h >= 1,
                k == b / h,
        ;
        assert((k - 1) * h == h * k - h) by (nonlinear_arith);
    }
}

/// The distance to the next magnitude is `2^gap_exponent`.
pub proof fn lemma_units_step(p: nat, b: int)
    requires
        p >= 1,
        b >= 0,
    ensures
        units(p, b + 1) == units(p, b) + pow2(gap_exponent(p, b)),
{
    lemma_half_span(p);
    lemma_split(p, b);
    let h = half_span(p);
    let g = gap_exponent(p, b);
    let q = significand(p, b);
    lemma_pow2_pos(g);
    if q + 1 < 2 * h {
        lemma_parts(p, g, q + 1);
        assert((q + 1) * pow2(g) == q * pow2(g) + pow2(g)) by (nonlinear_arith);
    } else {
        lemma_parts(p, g + 1, h);
        assert((g + 1) * h == g * h + h) by (nonlinear_arith);
        lemma_pow2_unfold(g + 1);
        assert(h * (2 * pow2(g)) == (2 * h - 1) * pow2(g) + pow2(g)) by (nonlinear_arith);
    }
}

/// Magnitudes are ordered as their values.
pub proof fn lemma_units_increasing(p: nat, a: int, b: int)
    requires
        p >= 1,
        0 <= a < b,
    ensures
        units(p, a) < units(p, b),
        units(p, a) + pow2(gap_exponent(p, a)) <= units(p, b),
        units(p, a) >= 0,
    decreases b - a,
{
    lemma_units_step(p, a);
    lemma_pow2_pos(gap_exponent(p, a));
    lemma_split(p, a);
    assert(significand(p, a) * pow2(gap_exponent(p, a)) >= 0) by (nonlinear_arith)
        requires
            significand(p, a) >= 0,
    ;
    if a + 1 < b {
        lemma_units_increasing(p, a + 1, b);
    }
}

/// A value rounds to at most one magnitude.
pub proof fn lemma_nearest_unique(p: nat, top: int, num: int, den: int, b: int)
    requires
        p >= 1,
        den > 0,
        rounds_to(p, top, num, den, b),
    ensures
        nearest(p, top, num, den) == b,
{
    let c = nearest(p, top, num, den);
    assert(rounds_to(p, top, num, den, c));
    lemma_rounds_monotone(p, top, num, num, den, b, c);
    lemma_rounds_monotone(p, top, num, num, den, c, b);
}

/// A representable value rounds to itself.
pub proof fn lemma_representable(p: nat, top: int, den: int, b: int)
    requires
        p >= 1,
        den > 0,
        0 <= b <= top,
    ensures
        rounds_to(p, top, units(p, b) * den, den, b),
        nearest(p, top, units(p, b) * den, den) == b,
{
    let u = units(p, b);
    if b > 0 {
        lemma_units_increasing(p, b - 1, b);
        let l = units(p, b - 1);
        assert((l + u) * den < 2 * (u * den)) by (nonlinear_arith)
            requires
                l < u,
                den > 0,
        ;
    }
    lemma_units_increasing(p, b, b + 1);
    let h = units(p, b + 1);
    assert(2 * (u * den) < (u + h) * den) by (nonlinear_arith)
        requires
            u < h,
            den > 0,
    ;
    lemma_nearest_unique(p, top, u * den, den, b);
}

/// Rounding keeps the order: the larger of two values (over one denominator)
/// never rounds to the smaller magnitude.
pub proof fn lemma_rounds_monotone(p: nat, top: int, x: int, y: int, den: int, a: int, b: int)
    requires
        p >= 1,
        den > 0,
        x <= y,
        rounds_to(p, top, x, den, a),
        rounds_to(p, top, y, den, b),
    ensures
        a <= b,
{
    if b < a {
        let high = units(p, b) + units(p, b + 1);
        let low = units(p, a - 1) + units(p, a);
        if b + 1 < a {
            lemma_units_increasing(p, b, a - 1);
            lemma_units_increasing(p, b + 1, a);
            assert(high * den < low * den) by (nonlinear_arith)
                requires
                    high < low,
                    den > 0,
            ;
        }
    }
}

/// The rounded magnitude is a nearest one: no other magnitude of the format up
/// to `top` lies closer to `num / den`.
pub proof fn law_nearest_is_closest(p: nat, top: int, num: int, den: int, b: int, c: int)
    requires
        p >= 1,
        den > 0,
        rounds_to(p, top, num, den, b),
        0 <= c <= top,
    ensures
        distance(units(p, b) * den, num) <= distance(units(p, c) * den, num),
{
    let ub = units(p, b);
    let uc = units(p, c);
    if c < b {
        lemma_units_increasing(p, b - 1, b);
        let l = units(p, b - 1);
        if c < b - 1 {
            lemma_units_increasing(p, c, b - 1);
        }
        assert(uc * den <= l * den && l * den <= ub * den && (l + ub) * den == l * den + ub * den)
            by (nonlinear_arith)
            requires
                uc <= l < ub,
                den > 0,
        ;
    } else if b < c {
        lemma_units_increasing(p, b, b + 1);
        let h = units(p, b + 1);
        if b + 1 < c {
            lemma_units_increasing(p, b + 1, c);
        }
        assert(ub * den <= h * den && h * den <= uc * den && (ub + h) * den == ub * den + h * den)
            by (nonlinear_arith)
            requires
                ub < h <= uc,
                den > 0,
        ;
    }
}

/// The distance between two integers.
pub open spec fn distance(x: int, y: int) -> int {
    if x <= y { y - x } else { x - y }
}

} // verus!
