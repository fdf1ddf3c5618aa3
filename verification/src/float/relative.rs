//! Relative errors, and how they add up through a formula.

use vstd::arithmetic::power2::{lemma_pow2_adds, lemma_pow2_strictly_increases, pow2};
use vstd::prelude::*;
use crate::float::arith::abs;
use crate::float::error::{law_product_is_close, law_quotient_is_close, law_root_is_close, law_sum_is_close, lemma_one, lemma_root_arith, limit, one};
use crate::float::grid::distance;
use crate::float::Double;

verus! {

/// `a` is `b`, up to `k` parts in `2^50`.
pub open spec fn is_near(a: int, b: int, k: int) -> bool {
    &&& 0 <= a
    &&& 0 <= b
    &&& 0 <= k
    &&& 0x4_0000_0000_0000 * distance(a, b) <= k * b
}

/// Every number is near itself.
pub proof fn lemma_near_same(a: int)
    requires
        0 <= a,
    ensures
        is_near(a, a, 0),
{
    assert(0 * a == 0);
}

/// A wider bound.
pub proof fn lemma_near_wider(a: int, b: int, k: int, l: int)
    requires
        is_near(a, b, k),
        k <= l,
    ensures
        is_near(a, b, l),
{
    assert(k * b <= l * b) by (nonlinear_arith)
        requires
            k <= l,
            b >= 0,
    ;
}

/// One error after the other.
pub proof fn lemma_near_chain(a: int, b: int, c: int, k: int, l: int)
    requires
        is_near(a, b, k),
        is_near(b, c, l),
        k <= 0x100_0000,
        l <= 0x100_0000,
    ensures
        is_near(a, c, k + l + 1),
{
    let kb = k * b;
    let kc = k * c;
    let lc = l * c;
    let klc = k * lc;
    assert(0x4_0000_0000_0000 * kb <= 0x4_0000_0000_0000 * kc + klc) by (nonlinear_arith)
        requires
            0x4_0000_0000_0000 * b <= 0x4_0000_0000_0000 * c + lc,
            kb == k * b,
            kc == k * c,
            klc == k * lc,
            k >= 0,
    ;
    assert(klc <= 0x1_0000_0000_0000 * c) by (nonlinear_arith)
        requires
            klc == k * lc,
            lc == l * c,
            0 <= k <= 0x100_0000,
            0 <= l <= 0x100_0000,
            c >= 0,
    ;
    assert((k + l + 1) * c == kc + lc + c) by (nonlinear_arith)
        requires
            kc == k * c,
            lc == l * c,
    ;
}

/// From the other side.
pub proof fn lemma_near_back(a: int, b: int, k: int)
    requires
        is_near(a, b, k),
        k <= 0x100_0000,
    ensures
        is_near(b, a, k + 1),
{
    let kb = k * b;
    let ka = k * a;
    let d = distance(a, b);
    let kd = k * d;
    assert(kb <= ka + kd) by (nonlinear_arith)
        requires
            kb == k * b,
            ka == k * a,
            kd == k * d,
            b <= a + d,
            k >= 0,
    ;
    let kkb = k * kb;
    assert(0x4_0000_0000_0000 * kd <= kkb) by (nonlinear_arith)
        requires
            0x4_0000_0000_0000 * d <= kb,
            kd == k * d,
            kkb == k * kb,
            k >= 0,
    ;
    assert(kkb <= 0x1_0000_0000_0000 * b) by (nonlinear_arith)
        requires
            kkb == k * kb,
            kb == k * b,
            0 <= k <= 0x100_0000,
            b >= 0,
    ;
    assert(4 * kd <= b);
    assert(0x400_0000 * d <= b) by (nonlinear_arith)
        requires
            0x4_0000_0000_0000 * d <= k * b,
            0 <= k <= 0x100_0000,
            b >= 0,
    ;
    assert((k + 1) * a == ka + a) by (nonlinear_arith)
        requires
            ka == k * a,
    ;
}

/// Errors of factors.
pub proof fn lemma_near_product(a: int, b: int, c: int, d: int, k: int, l: int)
    requires
        is_near(a, b, k),
        is_near(c, d, l),
        k <= 0x100_0000,
        l <= 0x100_0000,
    ensures
        is_near(a * c, b * d, k + l + 1),
{
    lemma_near_scaled(a, b, c, k);
    lemma_near_scaled(c, d, b, l);
    assert(c * b == b * c && d * b == b * d) by (nonlinear_arith);
    lemma_near_chain(a * c, b * c, b * d, k, l);
}

/// A common factor.
pub proof fn lemma_near_scaled(a: int, b: int, e: int, k: int)
    requires
        is_near(a, b, k),
        e >= 0,
    ensures
        is_near(a * e, b * e, k),
{
    let d = distance(a, b);
    let (ae, be) = (a * e, b * e);
    assert(distance(ae, be) == d * e && 0 <= ae && 0 <= be) by (nonlinear_arith)
        requires
            ae == a * e,
            be == b * e,
            d == (if a <= b { b - a } else { a - b }),
            distance(ae, be) == (if ae <= be { be - ae } else { ae - be }),
            e >= 0,
            a >= 0,
            b >= 0,
    ;
    assert(0x4_0000_0000_0000 * (d * e) <= k * be) by (nonlinear_arith)
        requires
            0x4_0000_0000_0000 * d <= k * b,
            be == b * e,
            e >= 0,
    ;
}

/// A common factor taken away.
pub proof fn lemma_near_divided(a: int, b: int, e: int, k: int)
    requires
        is_near(a * e, b * e, k),
        e > 0,
    ensures
        is_near(a, b, k),
{
    let d = distance(a, b);
    let (ae, be) = (a * e, b * e);
    assert(0 <= a && 0 <= b && distance(ae, be) == d * e) by (nonlinear_arith)
        requires
            ae == a * e,
            be == b * e,
            0 <= ae,
            0 <= be,
            d == (if a <= b { b - a } else { a - b }),
            distance(ae, be) == (if ae <= be { be - ae } else { ae - be }),
            e > 0,
    ;
    assert(0x4_0000_0000_0000 * d <= k * b) by (nonlinear_arith)
        requires
            0x4_0000_0000_0000 * (d * e) <= k * be,
            be == b * e,
            e > 0,
    ;
}

/// Errors of terms that are not negative.
pub proof fn lemma_near_sum(a: int, b: int, c: int, d: int, k: int)
    requires
        is_near(a, b, k),
        is_near(c, d, k),
    ensures
        is_near(a + c, b + d, k),
{
    assert(k * (b + d) == k * b + k * d) by (nonlinear_arith);
}

/// Large against the smallest number, small against the largest: from `2^-600` to
/// `2^400`.
pub open spec fn is_usual(x: Double) -> bool {
    x.finite() && pow2(474) <= x.units() <= pow2(1474)
}

/// From `2^-100` to `2^100`.
pub open spec fn is_plain(x: Double) -> bool {
    x.finite() && pow2(974) <= x.units() <= pow2(1174)
}

/// A product of usual numbers.
pub proof fn lemma_usual_product(a: Double, b: Double)
    requires
        a.finite(),
        b.finite(),
        0 <= a.units(),
        0 <= b.units(),
        a.units() * b.units() <= pow2(3100),
        a.units() * b.units() >= pow2(1200),
    ensures
        a.times(b).finite(),
        0 <= a.times(b).units(),
        is_near(a.times(b).units() * one(), a.units() * b.units(), 1),
{
    lemma_one();
    lemma_pow2_adds(2045, 1074);
    lemma_pow2_strictly_increases(3100, 3119);
    lemma_pow2_adds(126, 1074);
    let u = one();
    let t = a.units() * b.units();
    assert(pow2(3119) <= limit() * u) by (nonlinear_arith)
        requires
            limit() == 0x10_0000_0000_0000 * pow2(2045),
            pow2(3119) == pow2(2045) * pow2(1074),
            u == pow2(1074),
            pow2(2045) * pow2(1074) >= 0,
    ;
    law_product_is_close(a, b);
    let r = a.times(b).units();
    let ru = r * u;
    let ra = abs(r);
    assert((ra + 0x10_0000_0000_0000) * u == ra * u + 0x10_0000_0000_0000 * u && abs(ru) == ra * u)
        by (nonlinear_arith)
        requires
            ru == r * u,
            ra == (if r < 0 { -r } else { r }),
            abs(ru) == (if ru < 0 { -ru } else { ru }),
            u > 0,
    ;
    lemma_pow2_strictly_increases(62, 126);
    vstd::arithmetic::power2::lemma2_to64_rest();
    assert(0x1000_0000_0000_0000 * u <= t) by (nonlinear_arith)
        requires
            t >= pow2(126) * u,
            pow2(126) >= 0x1000_0000_0000_0000,
            u > 0,
    ;
    assert(r >= 0) by (nonlinear_arith)
        requires
            ru == r * u,
            ru >= 0,
            u > 0,
    ;
}

/// A quotient of usual numbers.
pub proof fn lemma_usual_quotient(a: Double, b: Double)
    requires
        a.finite(),
        b.finite(),
        0 < b.units(),
        0 <= a.units(),
        a.units() * one() <= limit() * b.units(),
        a.units() * one() >= pow2(64) * b.units(),
    ensures
        a.over(b).finite(),
        0 <= a.over(b).units(),
        is_near(a.over(b).units() * b.units(), a.units() * one(), 1),
{
    lemma_one();
    let u = one();
    let y = b.units();
    law_quotient_is_close(a, b);
    let r = a.over(b).units();
    let ry = r * y;
    let ra = abs(r);
    let t = a.units() * u;
    assert((ra + 0x10_0000_0000_0000) * y == ra * y + 0x10_0000_0000_0000 * y && abs(ry) == ra * y)
        by (nonlinear_arith)
        requires
            ry == r * y,
            ra == (if r < 0 { -r } else { r }),
            abs(ry) == (if ry < 0 { -ry } else { ry }),
            y > 0,
    ;
    vstd::arithmetic::power2::lemma2_to64_rest();
    assert(0x1000_0000_0000_0000 * y <= t) by (nonlinear_arith)
        requires
            t >= pow2(64) * y,
            pow2(64) >= 0x1000_0000_0000_0000,
            y > 0,
    ;
    assert(r >= 0) by (nonlinear_arith)
        requires
            ry == r * y,
            ry >= 0,
            y > 0,
    ;
}

/// A sum of numbers that are not negative.
pub proof fn lemma_usual_sum(a: Double, b: Double)
    requires
        a.finite(),
        b.finite(),
        0 <= a.units(),
        0 <= b.units(),
        a.units() + b.units() <= limit(),
    ensures
        a.plus(b).finite(),
        0 <= a.plus(b).units(),
        is_near(a.plus(b).units(), a.units() + b.units(), 1),
{
    law_sum_is_close(a, b);
}

/// The square of a root.
pub proof fn lemma_usual_root(x: Double)
    requires
        x.finite(),
        x.units() > 0,
    ensures
        x.root().finite(),
        x.root().units() > 0,
        is_near(x.root().units() * x.root().units(), x.units() * one(), 1),
{
    law_root_is_close(x);
    lemma_one();
    let r = x.root().units();
    let w = x.units() * one();
    assert(w >= 0 && r * r >= 0) by (nonlinear_arith)
        requires
            w == x.units() * one(),
            x.units() > 0,
            one() > 0,
    ;
    lemma_root_arith(r, w);
}

} // verus!
