//! Numbers that stand for exact values, scaled, up to rounding.

use vstd::arithmetic::power2::{lemma_pow2_adds, lemma_pow2_pos, lemma_pow2_strictly_increases, pow2};
use vstd::prelude::*;
use crate::float::arith::abs;
use crate::float::error::{law_difference_is_close, law_product_is_close, law_sum_is_close, lemma_one, limit, one};
use crate::float::grid::distance;
use crate::float::Double;

verus! {

/// `x` times `s` is `e`, up to `k` parts in `2^50` of `m`, which bounds `e`.
pub open spec fn is_about(x: int, s: int, e: int, m: int, k: int) -> bool {
    &&& s > 0
    &&& 0 <= k <= 0x100_0000_0000
    &&& abs(e) <= m
    &&& 0x4_0000_0000_0000 * distance(x * s, e) <= k * m
}

/// Finite, of at most `2^n` units.
pub open spec fn is_within(x: Double, n: nat) -> bool {
    x.finite() && abs(x.units()) <= pow2(n)
}

/// A number stands for itself.
pub proof fn lemma_about_itself(x: Double)
    ensures
        is_about(x.units(), 1, x.units(), abs(x.units()), 0),
{
    assert(0 * abs(x.units()) == 0);
}

/// A wider bound.
pub proof fn lemma_about_wider(x: int, s: int, e: int, m: int, k: int, n: int, l: int)
    requires
        is_about(x, s, e, m, k),
        m <= n,
        k <= l <= 0x100_0000_0000,
    ensures
        is_about(x, s, e, n, l),
{
    assert(k * m <= l * n) by (nonlinear_arith)
        requires
            0 <= k <= l,
            0 <= m <= n,
    ;
}

/// Another scale.
pub proof fn lemma_about_scaled(x: int, s: int, e: int, m: int, k: int, f: int)
    requires
        is_about(x, s, e, m, k),
        f > 0,
    ensures
        is_about(x, s * f, e * f, m * f, k),
{
    let y = x * s;
    let d = distance(y, e);
    assert(s * f > 0) by (nonlinear_arith)
        requires
            s > 0,
            f > 0,
    ;
    assert(x * (s * f) == y * f && distance(y * f, e * f) == d * f && abs(e * f) <= m * f) by (
    nonlinear_arith)
        requires
            y == x * s,
            d == (if y <= e { e - y } else { y - e }),
            distance(y * f, e * f) == (if y * f <= e * f { e * f - y * f } else { y * f - e * f }),
            abs(e) == (if e < 0 { -e } else { e }),
            abs(e * f) == (if e * f < 0 { -(e * f) } else { e * f }),
            abs(e) <= m,
            f > 0,
    ;
    assert(0x4_0000_0000_0000 * (d * f) <= k * (m * f)) by (nonlinear_arith)
        requires
            0x4_0000_0000_0000 * d <= k * m,
            f > 0,
    ;
}

/// A sum of numbers on one scale.
#[verifier::spinoff_prover]
pub proof fn lemma_about_sum(a: Double, b: Double, s: int, ea: int, ma: int, eb: int, mb: int, k: int)
    requires
        a.finite(),
        b.finite(),
        abs(a.units() + b.units()) <= limit(),
        is_about(a.units(), s, ea, ma, k),
        is_about(b.units(), s, eb, mb, k),
        k < 0x100_0000_0000,
    ensures
        is_about(a.plus(b).units(), s, ea + eb, ma + mb, k + 1),
{
    law_sum_is_close(a, b);
    let r = a.plus(b).units();
    let (x, y) = (a.units(), b.units());
    lemma_sum_arith(r, x, y, s, ea, ma, eb, mb, k);
}

/// A difference of numbers on one scale.
pub proof fn lemma_about_difference(a: Double, b: Double, s: int, ea: int, ma: int, eb: int, mb: int, k: int)
    requires
        a.finite(),
        b.finite(),
        abs(a.units() - b.units()) <= limit(),
        is_about(a.units(), s, ea, ma, k),
        is_about(b.units(), s, eb, mb, k),
        k < 0x100_0000_0000,
    ensures
        is_about(a.minus(b).units(), s, ea - eb, ma + mb, k + 1),
{
    law_difference_is_close(a, b);
    let r = a.minus(b).units();
    let (x, y) = (a.units(), b.units());
    assert((-y) * s == -(y * s)) by (nonlinear_arith);
    lemma_sum_arith(r, x, -y, s, ea, ma, -eb, mb, k);
}

/// The arithmetic of a sum.
proof fn lemma_sum_arith(r: int, x: int, y: int, s: int, ea: int, ma: int, eb: int, mb: int, k: int)
    requires
        is_about(x, s, ea, ma, k),
        is_about(y, s, eb, mb, k),
        k < 0x100_0000_0000,
        0x1f_ffff_ffff_ffff * distance(r, x + y) <= abs(x + y),
    ensures
        is_about(r, s, ea + eb, ma + mb, k + 1),
{
    let rs = r * s;
    let (xs, ys) = (x * s, y * s);
    let t = xs + ys;
    assert(0x1f_ffff_ffff_ffff * distance(rs, t) <= abs(t)) by (nonlinear_arith)
        requires
            0x1f_ffff_ffff_ffff * distance(r, x + y) <= abs(x + y),
            distance(r, x + y) == (if r <= x + y { x + y - r } else { r - (x + y) }),
            distance(rs, t) == (if rs <= t { t - rs } else { rs - t }),
            abs(x + y) == (if x + y < 0 { -(x + y) } else { x + y }),
            abs(t) == (if t < 0 { -t } else { t }),
            rs == r * s,
            t == x * s + y * s,
            s > 0,
    ;
    let m = ma + mb;
    let km = k * m;
    assert(km == k * ma + k * mb && km <= 0x100_0000_0000 * m) by (nonlinear_arith)
        requires
            km == k * m,
            m == ma + mb,
            0 <= k <= 0x100_0000_0000,
            m >= 0,
    ;
    assert((k + 1) * m == km + m) by (nonlinear_arith)
        requires
            km == k * m,
    ;
}

/// A product: the scales multiply, and one more unit comes in.
#[verifier::spinoff_prover]
pub proof fn lemma_about_product(
    a: Double,
    b: Double,
    sa: int,
    ea: int,
    ma: int,
    ka: int,
    sb: int,
    eb: int,
    mb: int,
    kb: int,
)
    requires
        a.finite(),
        b.finite(),
        abs(a.units() * b.units()) <= limit() * one(),
        is_about(a.units(), sa, ea, ma, ka),
        is_about(b.units(), sb, eb, mb, kb),
        ka + 2 * kb + 1 <= 0x100_0000_0000,
    ensures
        is_about(
            a.times(b).units(),
            one() * (sa * sb),
            ea * eb,
            ma * mb + 0x4_0000_0000_0000 * (one() * (sa * sb)),
            ka + 2 * kb + 1,
        ),
{
    law_product_is_close(a, b);
    lemma_one();
    let u = one();
    let (x, y) = (a.units(), b.units());
    let r = a.times(b).units();
    let ra = abs(r);
    let s = sa * sb;
    let us = u * s;
    let (xs, ys) = (x * sa, y * sb);
    let rs = r * us;
    let t = xs * ys;
    let e = ea * eb;
    assert(s > 0 && us > 0) by (nonlinear_arith)
        requires
            s == sa * sb,
            us == u * s,
            sa > 0,
            sb > 0,
            u > 0,
    ;
    let ru = r * u;
    let xy = x * y;
    // the rounding of the product
    assert(0x20_0000_0000_0000 * distance(ru, xy) <= abs(ru) + 0x10_0000_0000_0000 * u) by {
        assert(abs(ru) == ra * u && (ra + 0x10_0000_0000_0000) * u == ra * u
            + 0x10_0000_0000_0000 * u) by (nonlinear_arith)
            requires
                ru == r * u,
                ra == (if r < 0 { -r } else { r }),
                abs(ru) == (if ru < 0 { -ru } else { ru }),
                u > 0,
        ;
    }
    assert(0x10_0000_0000_0000 * distance(ru, xy) <= abs(xy) + 0x10_0000_0000_0000 * u);
    assert(rs == ru * s && t == xy * s) by (nonlinear_arith)
        requires
            rs == r * us,
            us == u * s,
            ru == r * u,
            t == xs * ys,
            xs == x * sa,
            ys == y * sb,
            xy == x * y,
            s == sa * sb,
    ;
    assert(0x10_0000_0000_0000 * distance(rs, t) <= abs(t) + 0x10_0000_0000_0000 * us) by (
    nonlinear_arith)
        requires
            0x10_0000_0000_0000 * distance(ru, xy) <= abs(xy) + 0x10_0000_0000_0000 * u,
            distance(ru, xy) == (if ru <= xy { xy - ru } else { ru - xy }),
            distance(rs, t) == (if rs <= t { t - rs } else { rs - t }),
            abs(xy) == (if xy < 0 { -xy } else { xy }),
            abs(t) == (if t < 0 { -t } else { t }),
            rs == ru * s,
            t == xy * s,
            us == u * s,
            s > 0,
    ;
    lemma_product_arith(xs, ys, ea, ma, ka, eb, mb, kb);
    let mm = ma * mb;
    let kk = (ka + 2 * kb) * mm;
    let m = mm + 0x4_0000_0000_0000 * us;
    assert(mm >= 0 && kk <= 0x100_0000_0000 * mm) by (nonlinear_arith)
        requires
            mm == ma * mb,
            ma >= 0,
            mb >= 0,
            kk == (ka + 2 * kb) * mm,
            ka + 2 * kb <= 0x100_0000_0000,
    ;
    assert(0x4_0000_0000_0000 * distance(t, e) <= kk);
    assert(abs(t) <= 2 * mm);
    assert(0x4_0000_0000_0000 * distance(rs, e) <= kk + mm + 0x4_0000_0000_0000 * us);
    assert((ka + 2 * kb + 1) * m >= kk + mm + 0x4_0000_0000_0000 * us) by (nonlinear_arith)
        requires
            m == mm + 0x4_0000_0000_0000 * us,
            kk == (ka + 2 * kb) * mm,
            ka >= 0,
            kb >= 0,
            us > 0,
            mm >= 0,
    ;
}

/// Products of close numbers.
proof fn lemma_product_arith(x: int, y: int, ea: int, ma: int, ka: int, eb: int, mb: int, kb: int)
    requires
        0 <= ka,
        0 <= kb <= 0x100_0000_0000,
        ka <= 0x100_0000_0000,
        abs(ea) <= ma,
        abs(eb) <= mb,
        0x4_0000_0000_0000 * distance(x, ea) <= ka * ma,
        0x4_0000_0000_0000 * distance(y, eb) <= kb * mb,
    ensures
        0x4_0000_0000_0000 * distance(x * y, ea * eb) <= (ka + 2 * kb) * (ma * mb),
        abs(ea * eb) <= ma * mb,
{
    let (d, f) = (distance(x, ea), distance(y, eb));
    let xa = abs(x);
    assert(d <= ma) by (nonlinear_arith)
        requires
            0x4_0000_0000_0000 * d <= ka * ma,
            ka <= 0x100_0000_0000,
            ma >= 0,
            d >= 0,
    ;
    assert(xa <= 2 * ma);
    let (xy, ee, xe) = (x * y, ea * eb, x * eb);
    assert(distance(xy, xe) == xa * f) by (nonlinear_arith)
        requires
            xy == x * y,
            xe == x * eb,
            xa == (if x < 0 { -x } else { x }),
            f == (if y <= eb { eb - y } else { y - eb }),
            distance(xy, xe) == (if xy <= xe { xe - xy } else { xy - xe }),
    ;
    let eba = abs(eb);
    assert(distance(xe, ee) == eba * d) by (nonlinear_arith)
        requires
            ee == ea * eb,
            xe == x * eb,
            eba == (if eb < 0 { -eb } else { eb }),
            d == (if x <= ea { ea - x } else { x - ea }),
            distance(xe, ee) == (if xe <= ee { ee - xe } else { xe - ee }),
    ;
    let mm = ma * mb;
    assert(0x4_0000_0000_0000 * (xa * f) <= 2 * (kb * mm)) by (nonlinear_arith)
        requires
            0 <= xa <= 2 * ma,
            0 <= f,
            0x4_0000_0000_0000 * f <= kb * mb,
            mm == ma * mb,
    ;
    assert(0x4_0000_0000_0000 * (eba * d) <= ka * mm) by (nonlinear_arith)
        requires
            0 <= eba <= mb,
            0 <= d,
            0x4_0000_0000_0000 * d <= ka * ma,
            mm == ma * mb,
    ;
    assert((ka + 2 * kb) * mm == ka * mm + 2 * (kb * mm)) by (nonlinear_arith);
    assert(abs(ee) <= mm) by (nonlinear_arith)
        requires
            ee == ea * eb,
            abs(ee) == (if ee < 0 { -ee } else { ee }),
            -ma <= ea <= ma,
            -mb <= eb <= mb,
            mm == ma * mb,
    ;
}

/// How large a sum is.
pub proof fn lemma_within_sum(a: Double, b: Double, n: nat)
    requires
        is_within(a, n),
        is_within(b, n),
        n <= 2000,
    ensures
        abs(a.units() + b.units()) <= limit(),
        abs(a.units() - b.units()) <= limit(),
        is_within(a.plus(b), n + 2),
        is_within(a.minus(b), n + 2),
{
    lemma_pow2_adds(1, n);
    lemma_pow2_adds(2, n);
    lemma_pow2_strictly_increases(n + 1, 2045);
    vstd::arithmetic::power2::lemma2_to64();
    let p = pow2(n) as int;
    assert(pow2(n + 1) == 2 * p && pow2(n + 2) == 4 * p) by (nonlinear_arith)
        requires
            pow2(n + 1) == pow2(1) * p,
            pow2(n + 2) == pow2(2) * p,
            pow2(1) == 2,
            pow2(2) == 4,
    ;
    law_sum_is_close(a, b);
    law_difference_is_close(a, b);
}

/// How large a product is.
pub proof fn lemma_within_product(a: Double, b: Double, n: nat, m: nat, r: nat)
    requires
        is_within(a, n),
        is_within(b, m),
        n + m + 1 <= 1074 + r,
        r <= 2000,
    ensures
        abs(a.units() * b.units()) <= limit() * one(),
        is_within(a.times(b), r + 1),
{
    let u = one();
    lemma_one();
    lemma_pow2_adds(n, m);
    lemma_pow2_adds(1074, r);
    lemma_pow2_adds(1, n + m);
    if n + m + 1 < 1074 + r {
        lemma_pow2_strictly_increases(n + m + 1, 1074 + r);
    }
    lemma_pow2_strictly_increases(r, 2045);
    lemma_pow2_adds(1, r);
    lemma_pow2_pos(r);
    lemma_pow2_pos(n);
    lemma_pow2_pos(m);
    vstd::arithmetic::power2::lemma2_to64();
    let (x, y) = (a.units(), b.units());
    let t = x * y;
    let p = pow2(r) as int;
    let pu = p * u;
    assert(abs(t) <= pow2(n + m)) by (nonlinear_arith)
        requires
            t == x * y,
            -pow2(n) <= x <= pow2(n),
            -pow2(m) <= y <= pow2(m),
            pow2(n + m) == pow2(n) * pow2(m),
            abs(t) == (if t < 0 { -t } else { t }),
    ;
    assert(pow2(n + m + 1) == 2 * pow2(n + m)) by (nonlinear_arith)
        requires
            pow2(n + m + 1) == pow2(1) * pow2(n + m),
            pow2(1) == 2,
    ;
    assert(pow2(1074 + r) == pu) by (nonlinear_arith)
        requires
            pow2(1074 + r) == pow2(1074) * pow2(r),
            pu == p * u,
            p == pow2(r),
            u == pow2(1074),
    ;
    assert(2 * abs(t) <= pu);
    assert(pu <= limit() * u) by (nonlinear_arith)
        requires
            pu == p * u,
            p <= limit(),
            u > 0,
    ;
    law_product_is_close(a, b);
    let q = a.times(b).units();
    let qa = abs(q);
    let qu = q * u;
    assert(abs(qu) == qa * u && (qa + 0x10_0000_0000_0000) * u == qa * u + 0x10_0000_0000_0000 * u)
        by (nonlinear_arith)
        requires
            qu == q * u,
            qa == (if q < 0 { -q } else { q }),
            abs(qu) == (if qu < 0 { -qu } else { qu }),
            u > 0,
    ;
    assert(pu >= u) by (nonlinear_arith)
        requires
            pu == p * u,
            p >= 1,
            u > 0,
    ;
    assert(abs(qu) <= 2 * pu);
    assert(qa <= 2 * p) by (nonlinear_arith)
        requires
            qa * u <= 2 * pu,
            pu == p * u,
            u > 0,
    ;
    assert(pow2(r + 1) == 2 * p) by (nonlinear_arith)
        requires
            pow2(r + 1) == pow2(1) * p,
            pow2(1) == 2,
    ;
}

/// A wider range.
pub proof fn lemma_within_wider(x: Double, n: nat, m: nat)
    requires
        is_within(x, n),
        n <= m,
    ensures
        is_within(x, m),
{
    if n < m {
        lemma_pow2_strictly_increases(n, m);
    }
}

} // verus!
