//! Bounds on the rounding error in single precision, and of means taken in double
//! precision.

use vstd::arithmetic::power2::{lemma_pow2_adds, lemma_pow2_pos, lemma_pow2_strictly_increases, pow2};
use vstd::prelude::*;
use crate::cluster::hungarian::sums::sum;
use crate::float::arith::{abs, lemma_zero_units, Num};
use crate::float::double::{binary64, lemma_double_format, Double};
use crate::float::error::{law_added_is_close, law_quotient_is_close, lemma_format_over, lemma_format_plus, lemma_format_times, lemma_one, lemma_rounded_bounded, lemma_rounded_close, lemma_sizes, lemma_sizes_sum, lemma_sum_step, limit, one, sizes_of, units_of};
use crate::float::exact::lemma_widened_exact;
use crate::float::grid::{distance, half_span, lemma_half_span, lemma_parts, lemma_units_increasing, units};
use crate::float::order::{lemma_natural_exact, lemma_nearest_exists};
use crate::float::single::{binary32, lemma_single_format, Single};
use crate::float::sums::{added, added_single};

verus! {

/// `2^127`, in units of single precision.
pub open spec fn single_limit() -> int {
    0x80_0000int * pow2(253)
}

/// The units of double precision in one of single precision.
pub open spec fn widening() -> int {
    pow2(925) as int
}

/// A magnitude that is the limit.
proof fn lemma_single_limit() -> (c: int)
    ensures
        0 <= c < binary32().top,
        units(24, c) == single_limit(),
        single_limit() > 0,
{
    lemma_half_span(24);
    vstd::arithmetic::power2::lemma2_to64();
    let h = half_span(24);
    assert(h == 0x80_0000);
    lemma_parts(24, 253, h);
    lemma_pow2_pos(253);
    253 * h + h
}

/// Sign and magnitude survive packing.
pub proof fn lemma_single_of_num(n: Num)
    requires
        n.magnitude < 0x8000_0000,
    ensures
        Single::of(n).num() == n,
{
}

/// A sum is off by at most half a unit in its last of 24 digits.
pub proof fn law_single_sum_is_close(a: Single, b: Single)
    requires
        a.finite(),
        b.finite(),
        abs(a.units() + b.units()) <= single_limit(),
    ensures
        a.plus(b).finite(),
        0x100_0000 * distance(a.plus(b).units(), a.units() + b.units()) <= abs(a.plus(b).units()),
        0xff_ffff * distance(a.plus(b).units(), a.units() + b.units()) <= abs(
            a.units() + b.units(),
        ),
        abs(a.plus(b).units()) <= single_limit(),
{
    lemma_single_format();
    let f = binary32();
    let e = a.units() + b.units();
    let c = lemma_single_limit();
    lemma_zero_units(24);
    assert(units(24, c) * 1 == single_limit());
    lemma_rounded_bounded(f, abs(e), 1, c);
    let r = f.plus(a.num(), b.num());
    if e != 0 && r.magnitude < c {
        lemma_units_increasing(24, r.magnitude as int, c);
    }
    lemma_format_plus(f, a.num(), b.num());
    lemma_single_of_num(r);
}

/// So is a difference.
pub proof fn law_single_difference_is_close(a: Single, b: Single)
    requires
        a.finite(),
        b.finite(),
        abs(a.units() - b.units()) <= single_limit(),
    ensures
        a.minus(b).finite(),
        0x100_0000 * distance(a.minus(b).units(), a.units() - b.units()) <= abs(a.minus(b).units()),
        0xff_ffff * distance(a.minus(b).units(), a.units() - b.units()) <= abs(
            a.units() - b.units(),
        ),
        abs(a.minus(b).units()) <= single_limit(),
{
    lemma_single_of_num(Num { negative: !b.num().negative, magnitude: b.num().magnitude });
    law_single_sum_is_close(a, b.negated());
}

/// A product is off by at most half a unit in its last of 24 digits, or half the
/// smallest number.
pub proof fn law_single_product_is_close(a: Single, b: Single)
    requires
        a.finite(),
        b.finite(),
        abs(a.units() * b.units()) <= single_limit() * pow2(149),
    ensures
        a.times(b).finite(),
        a.times(b).num().negative == (a.num().negative != b.num().negative),
        0x100_0000 * distance(a.times(b).units() * pow2(149), a.units() * b.units()) <= (abs(
            a.times(b).units(),
        ) + 0x80_0000) * pow2(149),
        abs(a.times(b).units()) <= single_limit(),
{
    lemma_single_format();
    lemma_pow2_pos(149);
    let f = binary32();
    let c = lemma_single_limit();
    let x = f.size(a.num());
    let y = f.size(b.num());
    lemma_sizes(f, a.num());
    lemma_sizes(f, b.num());
    assert((-x) * y == -(x * y) && x * (-y) == -(x * y) && (-x) * (-y) == x * y) by (nonlinear_arith);
    assert(x * y >= 0) by (nonlinear_arith)
        requires
            x >= 0,
            y >= 0,
    ;
    lemma_rounded_bounded(f, x * y, pow2(149) as int, c);
    let r = f.times(a.num(), b.num());
    if r.magnitude < c {
        lemma_units_increasing(24, r.magnitude as int, c);
    }
    lemma_format_times(f, a.num(), b.num());
    lemma_single_of_num(r);
}

/// So is a quotient.
pub proof fn law_single_quotient_is_close(a: Single, b: Single)
    requires
        a.finite(),
        b.finite(),
        b.units() != 0,
        abs(a.units()) * pow2(149) <= single_limit() * abs(b.units()),
    ensures
        a.over(b).finite(),
        0x100_0000 * distance(a.over(b).units() * b.units(), a.units() * pow2(149)) <= (abs(
            a.over(b).units(),
        ) + 0x80_0000) * abs(b.units()),
        abs(a.over(b).units()) <= single_limit(),
{
    lemma_single_format();
    lemma_pow2_pos(149);
    let f = binary32();
    let c = lemma_single_limit();
    let x = f.size(a.num());
    let y = f.size(b.num());
    lemma_sizes(f, a.num());
    lemma_sizes(f, b.num());
    assert(x * pow2(149) >= 0) by (nonlinear_arith)
        requires
            x >= 0,
            pow2(149) >= 0,
    ;
    lemma_rounded_bounded(f, x * pow2(149), y, c);
    let r = f.over(a.num(), b.num());
    if r.magnitude < c {
        lemma_units_increasing(24, r.magnitude as int, c);
    }
    lemma_format_over(f, a.num(), b.num());
    lemma_single_of_num(r);
}

/// Widening keeps the value.
pub proof fn lemma_widened_units(x: Single)
    requires
        x.finite(),
    ensures
        x.widened().finite(),
        x.widened().units() == x.units() * widening(),
{
    lemma_widened_exact(x);
    let u = binary32().size(x.num());
    assert((-u) * widening() == -(u * widening())) by (nonlinear_arith);
}

/// Narrowing is off by at most half a unit in the last of 24 digits, or half the
/// smallest number.
pub proof fn law_narrowing_is_close(x: Double)
    requires
        x.finite(),
        abs(x.units()) <= single_limit() * widening(),
    ensures
        x.narrowed().finite(),
        0x100_0000 * distance(x.narrowed().units() * widening(), x.units()) <= (abs(
            x.narrowed().units(),
        ) + 0x80_0000) * widening(),
        abs(x.narrowed().units()) <= single_limit(),
{
    lemma_single_format();
    lemma_double_format();
    let f = binary32();
    let c = lemma_single_limit();
    let size = binary64().size(x.num());
    lemma_sizes(binary64(), x.num());
    lemma_pow2_adds(925, 149);
    lemma_pow2_pos(149);
    lemma_pow2_pos(925);
    let w = pow2(149) as int;
    let k = widening();
    assert(pow2(1074) == k * w);
    let num = size * w;
    let den = k * w;
    assert(den > 0) by (nonlinear_arith)
        requires
            den == k * w,
            k > 0,
            w > 0,
    ;
    assert(0 <= num <= units(24, c) * den) by (nonlinear_arith)
        requires
            num == size * w,
            den == k * w,
            0 <= size <= units(24, c) * k,
            w > 0,
    ;
    lemma_rounded_bounded(f, num, den, c);
    let r = binary64().converted(f, x.num());
    if r.magnitude < c {
        lemma_units_increasing(24, r.magnitude as int, c);
    }
    lemma_nearest_exists(24, f.top as int, num, den);
    lemma_rounded_close(f, num, den);
    let u = f.size(r);
    let uk = u * k;
    let far = distance(uk, size);
    let bound = (u + 0x80_0000) * k;
    assert(u * den == uk * w) by (nonlinear_arith)
        requires
            uk == u * k,
            den == k * w,
    ;
    assert(distance(u * den, num) == far * w) by (nonlinear_arith)
        requires
            u * den == uk * w,
            num == size * w,
            far == (if uk <= size { size - uk } else { uk - size }),
            distance(u * den, num) == (if u * den <= num { num - u * den } else { u * den - num }),
            w > 0,
    ;
    assert((u + 0x80_0000) * den == bound * w) by (nonlinear_arith)
        requires
            bound == (u + 0x80_0000) * k,
            den == k * w,
    ;
    assert(0x100_0000 * far <= bound) by (nonlinear_arith)
        requires
            0x100_0000 * (far * w) <= bound * w,
            w > 0,
    ;
    lemma_single_of_num(r);
    assert((-u) * k == -(u * k)) by (nonlinear_arith);
}

/// The exact values of numbers, in units of single precision.
pub open spec fn single_units(values: Seq<Single>) -> Seq<int> {
    Seq::new(values.len(), |i: int| values[i].units())
}

/// A sum of multiples.
pub proof fn lemma_sum_scaled(s: Seq<int>, t: Seq<int>, k: int)
    requires
        s.len() == t.len(),
        forall|i: int| 0 <= i < s.len() ==> #[trigger] t[i] == s[i] * k,
    ensures
        sum(t) == sum(s) * k,
    decreases s.len(),
{
    if s.len() > 0 {
        let a = s.drop_last();
        let b = t.drop_last();
        assert forall|i: int| 0 <= i < a.len() implies #[trigger] b[i] == a[i] * k by {
            assert(t[i] == s[i] * k);
        }
        lemma_sum_scaled(a, b, k);
        assert(t[s.len() - 1] == s[s.len() - 1] * k);
        assert((sum(a) + s.last()) * k == sum(a) * k + s.last() * k) by (nonlinear_arith);
    } else {
        assert(0 * k == 0);
    }
}

/// A sum of `n` numbers of at most `most` is at most `n most`.
pub proof fn lemma_sum_bounded(s: Seq<int>, most: int)
    requires
        forall|i: int| 0 <= i < s.len() ==> abs(#[trigger] s[i]) <= most,
    ensures
        abs(sum(s)) <= s.len() * most,
        0 <= sum(sizes_of(s)) <= s.len() * most,
    decreases s.len(),
{
    if s.len() > 0 {
        let a = s.drop_last();
        assert forall|i: int| 0 <= i < a.len() implies abs(#[trigger] a[i]) <= most by {
            assert(abs(s[i]) <= most);
        }
        lemma_sum_bounded(a, most);
        assert(sizes_of(s).drop_last() =~= sizes_of(a));
        assert(abs(s[s.len() - 1]) <= most);
        let n = s.len() as int;
        assert((n - 1) * most + most == n * most) by (nonlinear_arith);
    } else {
        assert(0 * most == 0);
    }
}

/// The mean of the values, added up and divided in double precision and narrowed.
pub open spec fn narrowed_mean(wide: Seq<Double>) -> Single {
    added(Double::zero_spec(), wide, wide.len()).over(Double::natural(wide.len())).narrowed()
}

/// The bound on `2^52` times the error of a mean, for one of `n` values of at most
/// `most` units.
pub open spec fn mean_error(n: int, most: int) -> int {
    (0x2000_0000 + 2 * n) * most + 0x10_0000_0000_0000
}

/// The arithmetic of the bound on a mean.
#[verifier::spinoff_prover]
proof fn lemma_mean_bounds(n: int, most: int, k: int, total: int, s: int, q: int, m: int)
    requires
        0 < n <= 0x4_0000_0000_0000,
        0 <= most,
        0x10_0000_0000_0000 <= k,
        0x10_0000_0000_0000 * distance(s, k * total) <= n * (n * (k * most)),
        abs(k * total) <= n * (k * most),
        0x20_0000_0000_0000 * distance(q * n, s) <= (abs(q) + 0x10_0000_0000_0000) * n,
        0x100_0000 * distance(m * k, q) <= (abs(m) + 0x80_0000) * k,
    ensures
        0x10_0000_0000_0000 * distance(n * m, total) <= n * mean_error(n, most),
{
    let km = k * most;
    let nkm = n * km;
    let kt = k * total;
    let qa = abs(q);
    let nq = n * qa;
    assert(0 <= km && 0 <= nkm) by (nonlinear_arith)
        requires
            km == k * most,
            nkm == n * km,
            k >= 0,
            most >= 0,
            n > 0,
    ;
    let nn = n * nkm;
    assert(nn <= 0x4_0000_0000_0000 * nkm) by (nonlinear_arith)
        requires
            nn == n * nkm,
            n <= 0x4_0000_0000_0000,
            nkm >= 0,
    ;
    assert(4 * distance(s, kt) <= nkm);
    assert(4 * abs(s) <= 5 * nkm);
    assert(abs(q * n) == nq) by (nonlinear_arith)
        requires
            nq == n * qa,
            qa == (if q < 0 { -q } else { q }),
            abs(q * n) == (if q * n < 0 { -(q * n) } else { q * n }),
            n > 0,
    ;
    assert((qa + 0x10_0000_0000_0000) * n == nq + 0x10_0000_0000_0000 * n) by (nonlinear_arith)
        requires
            nq == n * qa,
    ;
    // n q is at most 1.3 n k most and n
    assert(10 * nq <= 13 * nkm + 10 * n);
    assert(10 * qa <= 13 * km + 10) by (nonlinear_arith)
        requires
            10 * nq <= 13 * nkm + 10 * n,
            nq == n * qa,
            nkm == n * km,
            n > 0,
    ;
    let ma = abs(m);
    let mk = ma * k;
    assert(abs(m * k) == mk) by (nonlinear_arith)
        requires
            mk == ma * k,
            ma == (if m < 0 { -m } else { m }),
            abs(m * k) == (if m * k < 0 { -(m * k) } else { m * k }),
            k > 0,
    ;
    assert((ma + 0x80_0000) * k == mk + 0x80_0000 * k) by (nonlinear_arith)
        requires
            mk == ma * k,
    ;
    assert(10 * mk <= 14 * km + 10 * k);
    // n (m k - q)
    let d1 = distance(m * k, q);
    let d2 = distance(q * n, s);
    let d3 = distance(s, kt);
    let nd1 = n * d1;
    let nmk = n * (m * k);
    assert(distance(nmk, q * n) == nd1) by (nonlinear_arith)
        requires
            nmk == n * (m * k),
            nd1 == n * d1,
            d1 == (if m * k <= q { q - m * k } else { m * k - q }),
            distance(nmk, q * n) == (if nmk <= q * n { q * n - nmk } else { nmk - q * n }),
            n > 0,
    ;
    let all = distance(nmk, kt);
    assert(all <= nd1 + d2 + d3);
    let nk = n * k;
    // 2^24 n d1 <= n (1.4 km + k + 2^23 k)
    assert(0xa00_0000 * nd1 <= 14 * nkm + 0x500_000a * nk) by (nonlinear_arith)
        requires
            0x100_0000 * d1 <= mk + 0x80_0000 * k,
            10 * mk <= 14 * km + 10 * k,
            nd1 == n * d1,
            nkm == n * km,
            nk == n * k,
            n > 0,
    ;
    assert(n * 0x10_0000_0000_0000 <= nk) by (nonlinear_arith)
        requires
            nk == n * k,
            k >= 0x10_0000_0000_0000,
            n > 0,
    ;
    assert(0x10_0000_0000_0000 * d3 <= nn);
    assert(0x20_0000_0000_0000 * d2 <= nq + 0x10_0000_0000_0000 * n);
    assert(nn >= 0) by (nonlinear_arith)
        requires
            nn == n * nkm,
            n > 0,
            nkm >= 0,
    ;
    assert(0x10_0000_0000_0000 * (10 * nd1) <= 0x1000_0000 * (14 * nkm + 0x500_000a * nk));
    assert(20 * (0x10_0000_0000_0000 * d2) <= 10 * nq + 10 * nk);
    assert(0x10_0000_0000_0000 * all <= 0x2000_0000 * nkm + 2 * nn + 0x10_0000_0000_0000 * nk);
    let far = distance(n * m, total);
    assert(all == far * k) by (nonlinear_arith)
        requires
            nmk == n * (m * k),
            kt == k * total,
            far == (if n * m <= total { total - n * m } else { n * m - total }),
            all == (if nmk <= kt { kt - nmk } else { nmk - kt }),
            k > 0,
    ;
    let e = mean_error(n, most);
    assert(n * e * k == 0x2000_0000 * nkm + 2 * nn + 0x10_0000_0000_0000 * nk) by (nonlinear_arith)
        requires
            e == (0x2000_0000 + 2 * n) * most + 0x10_0000_0000_0000,
            nkm == n * (k * most),
            nn == n * nkm,
            nk == n * k,
    ;
    assert(0x10_0000_0000_0000 * far <= n * e) by (nonlinear_arith)
        requires
            0x10_0000_0000_0000 * (far * k) <= n * e * k,
            k > 0,
    ;
}

/// A mean taken in double precision and narrowed is the mean of the exact values, up to
/// a unit in the last of 24 digits of the largest (and, for very many values, as many
/// units in the last of 53).
pub proof fn law_mean_is_close(values: Seq<Single>, wide: Seq<Double>, most: int)
    requires
        0 < values.len() <= 0x4_0000_0000_0000,
        wide.len() == values.len(),
        forall|i: int| 0 <= i < values.len() ==> #[trigger] wide[i] == values[i].widened(),
        forall|i: int|
            0 <= i < values.len() ==> (#[trigger] values[i]).finite() && abs(values[i].units())
                <= most,
        most <= pow2(274),
    ensures
        narrowed_mean(wide).finite(),
        0x10_0000_0000_0000 * distance(
            values.len() * narrowed_mean(wide).units(),
            sum(single_units(values)),
        ) <= values.len() * mean_error(values.len() as int, most),
        abs(narrowed_mean(wide).units()) <= single_limit(),
{
    let n = values.len() as int;
    let k = widening();
    let v = single_units(values);
    let w = units_of(wide);
    let total = sum(v);
    lemma_one();
    lemma_pow2_pos(925);
    lemma_pow2_pos(274);
    assert(abs(values[0].units()) <= most);
    assert forall|i: int| 0 <= i < v.len() implies #[trigger] w[i] == v[i] * k by {
        assert(wide[i] == values[i].widened());
        assert(values[i].finite());
        lemma_widened_units(values[i]);
    }
    assert forall|i: int| 0 <= i < v.len() implies abs(#[trigger] v[i]) <= most by {
        assert(abs(values[i].units()) <= most);
    }
    assert forall|i: int| 0 <= i < n implies (#[trigger] wide[i]).finite() by {
        assert(wide[i] == values[i].widened());
        assert(values[i].finite());
        lemma_widened_units(values[i]);
    }
    lemma_sum_scaled(v, w, k);
    lemma_sum_bounded(v, most);
    let za = sizes_of(v);
    let zw = sizes_of(w);
    assert forall|i: int| 0 <= i < za.len() implies #[trigger] zw[i] == za[i] * k by {
        assert(w[i] == v[i] * k);
        let x = v[i];
        assert(abs(x * k) == abs(x) * k) by (nonlinear_arith)
            requires
                k > 0,
                abs(x) == (if x < 0 { -x } else { x }),
                abs(x * k) == (if x * k < 0 { -(x * k) } else { x * k }),
        ;
    }
    lemma_sum_scaled(za, zw, k);
    let a = sum(za);
    assert(w.take(n) =~= w);
    assert(zw.take(n) =~= zw);
    // far below the limit
    lemma_pow2_adds(925, 274);
    lemma_pow2_adds(1199, 52);
    lemma_pow2_strictly_increases(1251, 2045);
    vstd::arithmetic::power2::lemma2_to64();
    vstd::arithmetic::power2::lemma2_to64_rest();
    let km = k * most;
    let nkm = n * km;
    assert(0 <= km <= pow2(1199)) by (nonlinear_arith)
        requires
            km == k * most,
            0 <= most <= pow2(274),
            k == pow2(925),
            k > 0,
            pow2(1199) == pow2(925) * pow2(274),
    ;
    assert(0 <= a * k <= nkm) by (nonlinear_arith)
        requires
            0 <= a <= n * most,
            nkm == n * (k * most),
            k > 0,
    ;
    assert(0 <= 4 * nkm <= pow2(1251)) by (nonlinear_arith)
        requires
            nkm == n * km,
            0 < n <= 0x4_0000_0000_0000,
            0 <= km <= pow2(1199),
            pow2(1251) == pow2(1199) * pow2(52),
            pow2(52) == 0x10_0000_0000_0000,
    ;
    assert(pow2(1251) <= limit());
    crate::float::arith::lemma_zero_units(53);
    law_added_is_close(Double::zero_spec(), wide, n as nat);
    let s = added(Double::zero_spec(), wide, n as nat);
    assert(0x10_0000_0000_0000 * distance(s.units(), total * k) <= n * (a * k));
    assert(n * (a * k) <= n * nkm) by (nonlinear_arith)
        requires
            a * k <= nkm,
            n > 0,
    ;
    assert(abs(k * total) <= nkm) by (nonlinear_arith)
        requires
            abs(total) <= n * most,
            abs(total) == (if total < 0 { -total } else { total }),
            abs(k * total) == (if k * total < 0 { -(k * total) } else { k * total }),
            nkm == n * (k * most),
            k > 0,
    ;
    assert(total * k == k * total) by (nonlinear_arith);
    assert(n * nkm <= 0x4_0000_0000_0000 * nkm) by (nonlinear_arith)
        requires
            0 < n <= 0x4_0000_0000_0000,
            nkm >= 0,
    ;
    assert(4 * abs(s.units()) <= 5 * nkm);
    lemma_natural_exact(n as nat);
    let d = Double::natural(n as nat);
    let u = one();
    assert(d.units() == n * u);
    assert(n * u > 0) by (nonlinear_arith)
        requires
            n > 0,
            u > 0,
    ;
    let sa = abs(s.units());
    assert(sa * u <= limit() * (n * u)) by (nonlinear_arith)
        requires
            0 <= sa <= limit(),
            n >= 1,
            u > 0,
            limit() > 0,
    ;
    law_quotient_is_close(s, d);
    let q = s.over(d).units();
    let qa = abs(q);
    let far = distance(q * n, s.units());
    assert(distance(q * (n * u), s.units() * u) == far * u) by (nonlinear_arith)
        requires
            far == (if q * n <= s.units() { s.units() - q * n } else { q * n - s.units() }),
            distance(q * (n * u), s.units() * u) == (if q * (n * u) <= s.units() * u {
                s.units() * u - q * (n * u)
            } else {
                q * (n * u) - s.units() * u
            }),
            u > 0,
    ;
    assert(0x20_0000_0000_0000 * far <= (qa + 0x10_0000_0000_0000) * n) by (nonlinear_arith)
        requires
            0x20_0000_0000_0000 * (far * u) <= (qa + 0x10_0000_0000_0000) * (n * u),
            u > 0,
    ;
    // narrowing stays in range
    let nq = n * qa;
    assert(abs(q * n) == nq) by (nonlinear_arith)
        requires
            nq == n * qa,
            qa == (if q < 0 { -q } else { q }),
            abs(q * n) == (if q * n < 0 { -(q * n) } else { q * n }),
            n > 0,
    ;
    assert((qa + 0x10_0000_0000_0000) * n == nq + 0x10_0000_0000_0000 * n) by (nonlinear_arith)
        requires
            nq == n * qa,
    ;
    assert(nq <= 2 * nkm + n);
    assert(qa <= 2 * km + 1) by (nonlinear_arith)
        requires
            nq <= 2 * nkm + n,
            nq == n * qa,
            nkm == n * km,
            n > 0,
    ;
    lemma_pow2_adds(274, 2);
    lemma_pow2_adds(23, 253);
    assert(single_limit() == pow2(276));
    assert(2 * km + 1 <= single_limit() * k) by (nonlinear_arith)
        requires
            km == k * most,
            0 <= most <= pow2(274),
            single_limit() == 4 * pow2(274),
            pow2(274) >= 1,
            k >= 1,
    ;
    law_narrowing_is_close(s.over(d));
    lemma_pow2_strictly_increases(52, 925);
    lemma_mean_bounds(n, most, k, total, s.units(), q, s.over(d).narrowed().units());
}

/// One step of the bound on the error of a sum.
proof fn lemma_single_error_step(k: int, far: int, far2: int, a: int, a2: int, e: int, d: int)
    requires
        0 <= k < 0x40_0000,
        0 <= a <= a2,
        0 <= far,
        0x80_0000 * far <= k * a,
        0 <= e <= a2 + far,
        0xff_ffff * d <= e,
        0 <= far2 <= far + d,
        0 <= d,
    ensures
        0x80_0000 * far2 <= (k + 1) * a2,
{
    let ka = k * a;
    let ka2 = k * a2;
    assert(ka <= ka2) by (nonlinear_arith)
        requires
            ka == k * a,
            ka2 == k * a2,
            0 <= k,
            a <= a2,
    ;
    assert((k + 1) * a2 == ka2 + a2) by (nonlinear_arith)
        requires
            ka2 == k * a2,
    ;
    assert(ka2 <= 0x40_0000 * a2) by (nonlinear_arith)
        requires
            ka2 == k * a2,
            k <= 0x40_0000,
            a2 >= 0,
    ;
}

/// A sum in single precision is off by at most its length times a unit in the last place
/// of the sum of the magnitudes.
pub proof fn law_added_single_is_close(start: Single, values: Seq<Single>, n: nat)
    requires
        start.finite(),
        start.units() == 0,
        n <= values.len(),
        n <= 0x40_0000,
        forall|i: int| 0 <= i < n ==> (#[trigger] values[i]).finite(),
        2 * sum(sizes_of(single_units(values)).take(n as int)) <= single_limit(),
    ensures
        added_single(start, values, n).finite(),
        0x80_0000 * distance(
            added_single(start, values, n).units(),
            sum(single_units(values).take(n as int)),
        ) <= n * sum(sizes_of(single_units(values)).take(n as int)),
    decreases n,
{
    let u = single_units(values);
    let z = sizes_of(u);
    if n > 0 {
        let m = (n - 1) as nat;
        lemma_sum_step(u, m);
        lemma_sum_step(z, m);
        lemma_sizes_sum(u, n);
        lemma_sizes_sum(u, m);
        law_added_single_is_close(start, values, m);
        let s = added_single(start, values, m);
        let v = values[m as int];
        assert(v.finite());
        let before = sum(u.take(m as int));
        let far = distance(s.units(), before);
        let a = sum(z.take(m as int));
        let a2 = sum(z.take(n as int));
        assert(far <= a) by (nonlinear_arith)
            requires
                0x80_0000 * far <= m * a,
                m <= 0x40_0000,
                a >= 0,
        ;
        law_single_sum_is_close(s, v);
        let e = s.units() + v.units();
        let d = distance(s.plus(v).units(), e);
        let far2 = distance(s.plus(v).units(), sum(u.take(n as int)));
        lemma_single_error_step(m as int, far, far2, a, a2, abs(e), d);
    } else {
        assert(u.take(0).len() == 0);
        assert(z.take(0).len() == 0);
        assert(0x80_0000 * 0 == 0);
    }
}

/// The bounds of terms bound the difference of sums.
pub proof fn lemma_sums_close(x: Seq<int>, y: Seq<int>, e: Seq<int>, c: int)
    requires
        x.len() == y.len() == e.len(),
        c > 0,
        forall|i: int| 0 <= i < x.len() ==> c * distance(#[trigger] x[i], y[i]) <= e[i],
    ensures
        c * distance(sum(x), sum(y)) <= sum(e),
    decreases x.len(),
{
    if x.len() > 0 {
        let (x1, y1, e1) = (x.drop_last(), y.drop_last(), e.drop_last());
        assert forall|i: int| 0 <= i < x1.len() implies c * distance(#[trigger] x1[i], y1[i])
            <= e1[i] by {
            assert(c * distance(x[i], y[i]) <= e[i]);
        }
        lemma_sums_close(x1, y1, e1, c);
        let k = x.len() - 1;
        assert(c * distance(x[k], y[k]) <= e[k]);
        let a = distance(sum(x1), sum(y1));
        let b = distance(x[k], y[k]);
        let far = distance(sum(x), sum(y));
        assert(c * far <= c * a + c * b) by (nonlinear_arith)
            requires
                far <= a + b,
                c > 0,
        ;
    } else {
        assert(c * 0 == 0);
    }
}

} // verus!
