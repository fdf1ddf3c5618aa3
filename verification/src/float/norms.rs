//! Lengths of vectors, and vectors divided by their lengths.

use vstd::arithmetic::power2::{lemma_pow2_adds, lemma_pow2_pos, lemma_pow2_strictly_increases, pow2};
use vstd::prelude::*;
use crate::cluster::ahc::distance_laws::lemma_sum_nonnegative;
use crate::cluster::hungarian::sums::sum;
use crate::float::arith::abs;
use crate::float::error::{law_product_is_close, law_root_is_close, lemma_one, lemma_root_arith, limit, one, sizes_of};
use crate::float::error_terms::{is_moderate, is_term, law_terms_add_up, lemma_product_term};
use crate::float::grid::distance;
use crate::float::relative::lemma_usual_quotient;
use crate::float::sums::added;
use crate::float::nearest::lemma_one_number;
use crate::float::Double;

verus! {

/// `2^50` times the error of the square of a length whose exact square is `total`.
pub open spec fn length_error(n: int, total: int) -> int {
    (n + 8) * total + 0x10_0000_0000_0000 * (n * one())
}

/// The arithmetic of the bound.
proof fn lemma_length_arith(n: int, u: int, rr: int, su: int, total: int)
    requires
        0 <= n <= 0x100_0000_0000,
        u > 0,
        0 <= total,
        0 <= su,
        0x4_0000_0000_0000 * distance(rr, su) <= su,
        0x4_0000_0000_0000 * distance(su, total) <= (n + 4) * total + 0x8_0000_0000_0000 * (n * u),
    ensures
        0x4_0000_0000_0000 * distance(rr, total) <= (n + 8) * total + 0x10_0000_0000_0000 * (n * u),
{
    let nt = n * total;
    let nu = n * u;
    assert(0 <= nt <= 0x100_0000_0000 * total && 0 <= nu) by (nonlinear_arith)
        requires
            nt == n * total,
            nu == n * u,
            0 <= n <= 0x100_0000_0000,
            total >= 0,
            u > 0,
    ;
    assert((n + 4) * total == nt + 4 * total && (n + 8) * total == nt + 8 * total)
        by (nonlinear_arith)
        requires
            nt == n * total,
    ;
}

/// The root of a sum of squares is the length: its square is the exact sum, up to
/// rounding.
pub proof fn law_root_of_squares_is_the_length(start: Double, values: Seq<Double>, t: Seq<int>)
    requires
        start.finite(),
        start.units() == 0,
        values.len() == t.len(),
        values.len() <= 0x100_0000_0000,
        forall|k: int|
            0 <= k < t.len() ==> is_term(#[trigger] values[k], t[k]) && 0 <= t[k] <= pow2(2950),
        0 <= added(start, values, values.len()).units(),
    ensures
        ({
            let r = added(start, values, values.len()).root();
            &&& r.finite()
            &&& 0 <= r.units()
            &&& 0 <= sum(t)
            &&& 0x4_0000_0000_0000 * distance(r.units() * r.units(), sum(t)) <= length_error(
                t.len() as int,
                sum(t),
            )
        }),
{
    let u = one();
    lemma_one();
    assert forall|k: int| 0 <= k < t.len() implies 0 <= #[trigger] t[k] by {
        assert(is_term(values[k], t[k]));
    }
    lemma_sum_nonnegative(t);
    assert(sizes_of(t) =~= t);
    assert forall|k: int| 0 <= k < t.len() implies is_term(#[trigger] values[k], t[k]) && abs(t[k])
        <= pow2(2950) by {}
    law_terms_add_up(start, values, t);
    let s = added(start, values, values.len());
    let su = s.units() * u;
    assert(su >= 0) by (nonlinear_arith)
        requires
            su == s.units() * u,
            s.units() >= 0,
            u > 0,
    ;
    let r = s.root();
    crate::float::double::lemma_double_format();
    if s.units() > 0 {
        law_root_is_close(s);
        lemma_root_arith(r.units(), su);
    } else {
        crate::float::error::lemma_sizes(crate::float::double::binary64(), s.num());
        assert(r == Double::of(s.num()));
        crate::float::order::lemma_of_num(s.num());
        assert(r.units() == 0);
        assert(0 * 0 == 0int);
        assert(su == 0) by (nonlinear_arith)
            requires
                su == s.units() * u,
                s.units() == 0,
        ;
    }
    lemma_length_arith(t.len() as int, u, r.units() * r.units(), su, sum(t));
}

/// A sum of squares is not negative.
pub proof fn lemma_squares_not_negative(start: Double, values: Seq<Double>, n: nat)
    requires
        start.finite(),
        start.units() == 0,
        n <= values.len() <= 0x100_0000_0000,
        forall|k: int|
            0 <= k < values.len() ==> (#[trigger] values[k]).finite() && 0 <= values[k].units()
                <= pow2(1900),
    ensures
        added(start, values, n).finite(),
        0 <= added(start, values, n).units() <= (2 * n) * pow2(1900),
    decreases n,
{
    if n > 0 {
        let m = (n - 1) as nat;
        lemma_squares_not_negative(start, values, m);
        let s = added(start, values, m);
        let v = values[m as int];
        assert(v.finite());
        let p = pow2(1900) as int;
        lemma_pow2_pos(1900);
        lemma_pow2_adds(42, 1900);
        lemma_pow2_strictly_increases(1942, 2045);
        vstd::arithmetic::power2::lemma2_to64();
        vstd::arithmetic::power2::lemma2_to64_rest();
        assert((2 * m) * p + 2 * p == (2 * n) * p && (2 * n) * p <= 0x200_0000_0000 * p)
            by (nonlinear_arith)
            requires
                n == m + 1,
                n <= 0x100_0000_0000,
                p > 0,
        ;
        crate::float::error::law_sum_is_close(s, v);
        let e = s.units() + v.units();
        assert(0x1f_ffff_ffff_ffff * distance(s.plus(v).units(), e) <= e);
        lemma_small_growth(n as int, p, s.units(), v.units(), s.plus(v).units());
    } else {
        assert((2 * 0nat) * pow2(1900) == 0) by (nonlinear_arith);
    }
}

/// One more term of at most `p` adds at most `2 p`.
proof fn lemma_small_growth(n: int, p: int, s: int, v: int, r: int)
    requires
        1 <= n <= 0x100_0000_0000,
        p > 0,
        0 <= s <= (2 * n) * p - 2 * p,
        0 <= v <= p,
        0x1f_ffff_ffff_ffff * distance(r, s + v) <= s + v,
    ensures
        0 <= r <= (2 * n) * p,
{
    let np = n * p;
    assert((2 * n) * p == 2 * np && np <= 0x100_0000_0000 * p) by (nonlinear_arith)
        requires
            np == n * p,
            n <= 0x100_0000_0000,
            p > 0,
    ;
}

/// The square of a moderate number, as a term.
pub proof fn lemma_square_term(x: Double)
    requires
        is_moderate(x),
    ensures
        is_term(x.times(x), x.units() * x.units()),
        0 <= x.units() * x.units() <= pow2(2950),
        0 <= x.times(x).units() <= pow2(1900),
{
    lemma_product_term(x, x);
    lemma_one();
    let t = x.units() * x.units();
    assert(t >= 0) by (nonlinear_arith)
        requires
            t == x.units() * x.units(),
    ;
    lemma_pow2_strictly_increases(2948, 2950);
    crate::float::double::lemma_double_format();
    let q = x.times(x);
    let u = one();
    assert(!q.num().negative) by {
        lemma_pow2_adds(2045, 1074);
        lemma_pow2_strictly_increases(2948, 3119);
        assert(pow2(3119) <= limit() * u) by (nonlinear_arith)
            requires
                limit() == 0x10_0000_0000_0000 * pow2(2045),
                pow2(3119) == pow2(2045) * pow2(1074),
                u == pow2(1074),
                pow2(2045) * pow2(1074) >= 0,
        ;
        law_product_is_close(x, x);
    }
    crate::float::error::lemma_sizes(crate::float::double::binary64(), q.num());
    lemma_pow2_adds(1874, 1074);
    lemma_pow2_adds(2, 1874);
    lemma_pow2_strictly_increases(1876, 1900);
    lemma_pow2_pos(1874);
    vstd::arithmetic::power2::lemma2_to64();
    let qu = q.units() * u;
    let a = pow2(1874) as int;
    assert(qu <= 2 * (a * u) + u);
    assert(q.units() <= 4 * a) by (nonlinear_arith)
        requires
            qu == q.units() * u,
            qu <= 2 * (a * u) + u,
            a >= 1,
            u > 0,
    ;
}

/// The arithmetic of a division by a length.
#[verifier::spinoff_prover]
proof fn lemma_inverse_arith(u: int, n: int, i: int, v: int, r: int)
    requires
        u > 0,
        n > 0,
        0x4_0000_0000_0000 * distance(i * n, u * u) <= u * u,
        0x20_0000_0000_0000 * distance(r * u, v * i) <= (abs(r) + 0x10_0000_0000_0000) * u,
    ensures
        0x4_0000_0000_0000 * distance(r * n, v * u) <= abs(v) * u + abs(r) * n + 0x4_0000_0000_0000
            * n,
{
    let va = abs(v);
    let ra = abs(r);
    let d1 = distance(i * n, u * u);
    let d2 = distance(r * u, v * i);
    let rnu = (r * n) * u;
    let vin = v * (i * n);
    let vuu = (v * u) * u;
    let nd2 = n * d2;
    let vd1 = va * d1;
    assert(distance(rnu, vin) == nd2) by (nonlinear_arith)
        requires
            rnu == (r * n) * u,
            vin == v * (i * n),
            nd2 == n * d2,
            d2 == (if r * u <= v * i { v * i - r * u } else { r * u - v * i }),
            distance(rnu, vin) == (if rnu <= vin { vin - rnu } else { rnu - vin }),
            n > 0,
    ;
    assert(distance(vin, vuu) == vd1) by (nonlinear_arith)
        requires
            vin == v * (i * n),
            vuu == (v * u) * u,
            vd1 == va * d1,
            va == (if v < 0 { -v } else { v }),
            d1 == (if i * n <= u * u { u * u - i * n } else { i * n - u * u }),
            distance(vin, vuu) == (if vin <= vuu { vuu - vin } else { vin - vuu }),
    ;
    let e = ra * n + 0x10_0000_0000_0000 * n;
    assert(0x20_0000_0000_0000 * nd2 <= e * u) by (nonlinear_arith)
        requires
            0x20_0000_0000_0000 * d2 <= (ra + 0x10_0000_0000_0000) * u,
            nd2 == n * d2,
            e == ra * n + 0x10_0000_0000_0000 * n,
            n > 0,
    ;
    let vu = va * u;
    assert(0x4_0000_0000_0000 * vd1 <= vu * u) by (nonlinear_arith)
        requires
            0x4_0000_0000_0000 * d1 <= u * u,
            vd1 == va * d1,
            vu == va * u,
            va >= 0,
    ;
    let far = distance(r * n, v * u);
    let all = distance(rnu, vuu);
    assert(all == far * u) by (nonlinear_arith)
        requires
            rnu == (r * n) * u,
            vuu == (v * u) * u,
            far == (if r * n <= v * u { v * u - r * n } else { r * n - v * u }),
            all == (if rnu <= vuu { vuu - rnu } else { rnu - vuu }),
            u > 0,
    ;
    let b = vu + ra * n + 0x4_0000_0000_0000 * n;
    assert(8 * (b * u) >= 8 * (vu * u) + e * u) by (nonlinear_arith)
        requires
            b == vu + ra * n + 0x4_0000_0000_0000 * n,
            e == ra * n + 0x10_0000_0000_0000 * n,
            ra >= 0,
            n > 0,
            u > 0,
    ;
    assert(0x4_0000_0000_0000 * (far * u) <= b * u);
    assert(0x4_0000_0000_0000 * far <= b) by (nonlinear_arith)
        requires
            0x4_0000_0000_0000 * (far * u) <= b * u,
            u > 0,
    ;
}

/// A number times the inverse of a length is the quotient, up to rounding.
pub proof fn law_inverse_divides(v: Double, n: Double)
    requires
        is_moderate(v),
        n.finite(),
        pow2(474) <= n.units() <= pow2(1900),
    ensures
        v.times(Double::one_spec().over(n)).finite(),
        ({
            let r = v.times(Double::one_spec().over(n)).units();
            0x4_0000_0000_0000 * distance(r * n.units(), v.units() * one()) <= abs(v.units())
                * one() + abs(r) * n.units() + 0x4_0000_0000_0000 * n.units()
        }),
{
    let u = one();
    lemma_one_number();
    lemma_pow2_pos(474);
    lemma_pow2_adds(1074, 1074);
    lemma_pow2_adds(2045, 474);
    lemma_pow2_strictly_increases(2148, 2519);
    lemma_pow2_adds(64, 1900);
    lemma_pow2_strictly_increases(1964, 2148);
    let y = n.units();
    assert(u * u <= limit() * y) by (nonlinear_arith)
        requires
            u * u <= pow2(2519),
            limit() == 0x10_0000_0000_0000 * pow2(2045),
            pow2(2519) == pow2(2045) * pow2(474),
            y >= pow2(474),
            limit() > 0,
            pow2(474) > 0,
    ;
    assert(pow2(64) * y <= u * u) by (nonlinear_arith)
        requires
            y <= pow2(1900),
            pow2(1964) == pow2(64) * pow2(1900),
            pow2(1964) <= u * u,
            pow2(64) >= 0,
    ;
    lemma_usual_quotient(Double::one_spec(), n);
    let iv = Double::one_spec().over(n);
    let i = iv.units();
    // the product stays in range
    lemma_pow2_adds(1674, 474);
    lemma_pow2_adds(1, 1674);
    let big = pow2(1674) as int;
    lemma_pow2_pos(1674);
    assert(i * y <= 2 * (u * u));
    assert(i <= 2 * big) by (nonlinear_arith)
        requires
            i * y <= 2 * (u * u),
            u * u == pow2(2148),
            pow2(2148) == big * pow2(474),
            y >= pow2(474),
            pow2(474) > 0,
            i >= 0,
    ;
    lemma_pow2_adds(1474, 1675);
    lemma_pow2_adds(2045, 1074);
    lemma_pow2_adds(30, 3119);
    vstd::arithmetic::power2::lemma2_to64();
    let va = v.units();
    let vi = va * i;
    assert(abs(vi) <= pow2(1474) * pow2(1675)) by (nonlinear_arith)
        requires
            vi == va * i,
            abs(va) <= pow2(1474),
            abs(va) == (if va < 0 { -va } else { va }),
            abs(vi) == (if vi < 0 { -vi } else { vi }),
            0 <= i <= pow2(1675),
    ;
    assert(pow2(3149) <= limit() * u) by (nonlinear_arith)
        requires
            pow2(3149) == 0x4000_0000 * pow2(3119),
            limit() == 0x10_0000_0000_0000 * pow2(2045),
            pow2(3119) == pow2(2045) * pow2(1074),
            u == pow2(1074),
            pow2(2045) * pow2(1074) >= 0,
    ;
    law_product_is_close(v, iv);
    let r = v.times(iv).units();
    assert(1 * (u * u) == u * u);
    lemma_inverse_arith(u, y, i, va, r);
}

} // verus!
