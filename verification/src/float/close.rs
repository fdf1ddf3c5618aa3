//! How far rounding moves a value.

use vstd::arithmetic::div_mod::lemma_fundamental_div_mod_converse;
use vstd::arithmetic::power2::{lemma_pow2_adds, lemma_pow2_pos, lemma_pow2_strictly_increases, pow2};
use vstd::prelude::*;
use crate::float::arith::{nearest_integer, Num};
use crate::float::double::{binary64, lemma_double_format, Double};
use crate::float::exact::{lemma_place, place};
use crate::float::grid::{distance, gap_exponent, half_span, lemma_half_span, lemma_split, lemma_units_increasing, lemma_units_step, nearest, rounds_to, significand, units};
use crate::float::laws::lemma_quotient_bound;
use crate::float::order::{lemma_natural_exact, lemma_natural_ordered, lemma_natural_rounded, lemma_nearest_exists, lemma_nearest_monotone, lemma_of_num, lemma_over_ordered, lemma_rounded_ordered, lemma_saturated_ordered, ordered};

verus! {

/// Gaps do not shrink upwards.
pub proof fn lemma_gaps_grow(p: nat, a: int, b: int)
    requires
        p >= 1,
        0 <= a <= b,
    ensures
        gap_exponent(p, a) <= gap_exponent(p, b),
        pow2(gap_exponent(p, a)) <= pow2(gap_exponent(p, b)),
{
    lemma_half_span(p);
    let h = half_span(p);
    if a >= h {
        vstd::arithmetic::div_mod::lemma_div_is_ordered(a, b, h);
        assert(a / h >= 1) by (nonlinear_arith)
            requires
                a >= h,
                h >= 1,
        ;
    } else if b >= h {
        assert(b / h >= 1) by (nonlinear_arith)
            requires
                b >= h,
                h >= 1,
        ;
    }
    if gap_exponent(p, a) < gap_exponent(p, b) {
        lemma_pow2_strictly_increases(gap_exponent(p, a), gap_exponent(p, b));
    }
}

/// A rounded value lies within half a gap of the exact one. Above the smallest
/// magnitudes that is half a unit in the last of `p` digits.
pub proof fn law_rounding_is_close(p: nat, top: int, num: int, den: int, b: int)
    requires
        p >= 1,
        den > 0,
        num >= 0,
        rounds_to(p, top, num, den, b),
        b < top,
    ensures
        2 * distance(units(p, b) * den, num) <= pow2(gap_exponent(p, b)) * den,
        gap_exponent(p, b) > 0 ==> pow2(p) * distance(units(p, b) * den, num) <= units(p, b) * den,
{
    let u = units(p, b);
    let g = pow2(gap_exponent(p, b)) as int;
    lemma_units_step(p, b);
    assert((u + (u + g)) * den == 2 * (u * den) + g * den) by (nonlinear_arith);
    if b > 0 {
        let l = pow2(gap_exponent(p, b - 1)) as int;
        lemma_units_step(p, b - 1);
        lemma_gaps_grow(p, b - 1, b);
        assert((u - l + u) * den == 2 * (u * den) - l * den) by (nonlinear_arith);
        assert(l * den <= g * den) by (nonlinear_arith)
            requires
                l <= g,
                den > 0,
        ;
    } else {
        crate::float::arith::lemma_zero_units(p);
        assert(0 * den == 0);
    }
    let far = distance(u * den, num);
    if gap_exponent(p, b) > 0 {
        lemma_half_span(p);
        lemma_split(p, b);
        let h = half_span(p);
        let q = significand(p, b);
        assert(pow2(p) * far <= u * den) by (nonlinear_arith)
            requires
                pow2(p) == 2 * h,
                2 * far <= g * den,
                u == q * g,
                h <= q,
                h >= 1,
                g >= 0,
                den > 0,
        ;
    }
}

/// Natural numbers convert with an error in the last of 53 digits.
pub proof fn lemma_natural_close(n: nat)
    requires
        1 <= n <= 0x1000_0000_0000_0000_0000_0000,
    ensures
        Double::natural(n).finite(),
        !Double::natural(n).num().negative,
        Double::natural(n).num().magnitude > 0,
        ({
            let size = binary64().size(Double::natural(n).num());
            &&& size >= pow2(1074)
            &&& 0x20_0000_0000_0000 * distance(size, (n * pow2(1074)) as int) <= size
        }),
{
    lemma_double_format();
    vstd::arithmetic::power2::lemma2_to64();
    vstd::arithmetic::power2::lemma2_to64_rest();
    let f = binary64();
    let one = pow2(1074) as int;
    lemma_pow2_pos(1074);
    let top = f.top as int;
    lemma_natural_exact(1);
    lemma_natural_ordered(1, n);
    assert(n * one >= 0) by (nonlinear_arith)
        requires
            one > 0,
    ;
    lemma_nearest_exists(53, top, n * one, 1);
    let b = nearest(53, top, n * one, 1);
    lemma_of_num(f.natural(n));
    // far below the largest number
    lemma_place(1, 1174);
    let c = place(1, 1174);
    crate::float::grid::lemma_representable(53, top, 1, c);
    lemma_pow2_adds(1074, 100);
    lemma_pow2_adds(64, 36);
    assert(n * one <= units(53, c) * 1) by (nonlinear_arith)
        requires
            n <= 0x1000_0000_0000_0000_0000_0000,
            pow2(100) == 0x10_0000_0000_0000_0000_0000_0000,
            units(53, c) == 1 * pow2(1174),
            pow2(1174) == one * pow2(100),
            one > 0,
    ;
    lemma_nearest_monotone(53, top, n * one, units(53, c) * 1, 1);
    assert(b < top);
    // no smaller than one
    let a = Double::natural(1).num().magnitude as int;
    assert(1 * one == one);
    if a < b {
        lemma_units_increasing(53, a, b);
    }
    assert(gap_exponent(53, b) > 0) by {
        if gap_exponent(53, b) == 0 {
            lemma_split(53, b);
            lemma_half_span(53);
            lemma_pow2_strictly_increases(53, 1074);
            assert(units(53, b) == significand(53, b) * 1);
        }
    }
    law_rounding_is_close(53, top, n * one, 1, b);
    assert(units(53, b) * 1 == units(53, b));
}

/// The magnitude of `n` quarters.
proof fn lemma_quarters(n: nat) -> (q: Num)
    requires
        n < 0x20_0000_0000_0000,
    ensures
        binary64().is_finite(q),
        !q.negative,
        binary64().size(q) == n * pow2(1072),
{
    lemma_double_format();
    lemma_place(n, 1072);
    Num { negative: false, magnitude: place(n, 1072) as u64 }
}

/// The integer nearest to a quarter more or less than `k` is `k`.
proof fn lemma_quarter_rounds(q: Num, n: nat, k: nat)
    requires
        k <= 0x10_0000,
        n == 4 * k + 1 || n == 4 * k - 1,
        binary64().is_finite(q),
        !q.negative,
        binary64().size(q) == n * pow2(1072),
    ensures
        Double::of(q).num() == q,
        Double::of(q).rounded() == Double::natural(k),
{
    lemma_double_format();
    lemma_of_num(q);
    let one = pow2(1074) as int;
    let quarter = pow2(1072) as int;
    vstd::arithmetic::power2::lemma2_to64();
    lemma_pow2_adds(1072, 2);
    lemma_pow2_pos(1072);
    if n == 4 * k + 1 {
        assert(n * quarter == k * one + quarter) by (nonlinear_arith)
            requires
                n == 4 * k + 1,
                one == quarter * 4,
        ;
        lemma_fundamental_div_mod_converse((n * quarter) as int, one, k as int, quarter);
    } else {
        assert(n * quarter == (k - 1) * one + 3 * quarter) by (nonlinear_arith)
            requires
                n == 4 * k - 1,
                one == quarter * 4,
        ;
        lemma_fundamental_div_mod_converse((n * quarter) as int, one, k - 1, 3 * quarter);
    }
    assert(nearest_integer((n * quarter) as int, one) == k);
}

/// An average of at most `k` rounds to at most `k`.
pub proof fn lemma_average_at_most(total: nat, coverage: nat, k: nat)
    requires
        0 < coverage <= u64::MAX,
        total <= k * coverage,
        k <= 0x10_0000,
    ensures
        0 <= Double::natural(total).over(Double::natural(coverage)).rounded().saturated() <= k,
{
    lemma_double_format();
    let f = binary64();
    let one = pow2(1074) as int;
    let quarter = pow2(1072) as int;
    vstd::arithmetic::power2::lemma2_to64();
    lemma_pow2_adds(1072, 2);
    lemma_pow2_pos(1072);
    let most = k * coverage;
    assert(most <= 0x10_0000 * coverage) by (nonlinear_arith)
        requires
            most == k * coverage,
            k <= 0x10_0000,
    ;
    lemma_natural_close(coverage);
    lemma_natural_ordered(total, most);
    let x = Double::natural(total).num();
    let y = Double::natural(coverage).num();
    let big = f.size(Double::natural(most).num());
    let den = f.size(y);
    let q = lemma_quarters(4 * k + 1);
    lemma_quarter_rounds(q, 4 * k + 1, k);
    let m = k * den;
    assert(0 <= m <= 0x10_0000 * den) by (nonlinear_arith)
        requires
            m == k * den,
            0 <= k <= 0x10_0000,
            den >= 0,
    ;
    assert(4 * big <= 4 * m + den && f.is_finite(Double::natural(most).num())) by {
        if most == 0 {
            lemma_natural_exact(0);
            assert(0 * pow2(1074) == 0);
        } else {
            lemma_natural_close(most);
            let c1 = coverage * one;
            assert(most * one == k * c1) by (nonlinear_arith)
                requires
                    most == k * coverage,
                    c1 == coverage * one,
            ;
            // coverage in units is at most den and an error
            let kc = k * c1;
            assert(0x20_0000_0000_0000 * kc <= 0x20_0000_0000_0001 * m) by (nonlinear_arith)
                requires
                    0x20_0000_0000_0000 * c1 <= 0x20_0000_0000_0001 * den,
                    kc == k * c1,
                    m == k * den,
                    k >= 0,
            ;
        }
    }
    let sx = f.size(x);
    assert(sx <= big) by {
        let b = Double::natural(most).num().magnitude as int;
        if x.magnitude < b {
            lemma_units_increasing(53, x.magnitude as int, b);
        }
    }
    assert(sx * one <= f.size(q) * den) by (nonlinear_arith)
        requires
            4 * sx <= 4 * m + den,
            m == k * den,
            one == quarter * 4,
            f.size(q) == (4 * k + 1) * quarter,
            quarter > 0,
    ;
    lemma_quotient_bound(f, x, y, q);
    lemma_of_num(f.over(x, y));
    let average = Double::natural(total).over(Double::natural(coverage));
    assert(ordered(average, Double::of(q)));
    lemma_rounded_ordered(average, Double::of(q));
    lemma_natural_rounded(k);
    lemma_saturated_ordered(average.rounded(), Double::natural(k));
}

/// An average of at least `k` rounds to at least `k`.
pub proof fn lemma_average_at_least(total: nat, coverage: nat, k: nat)
    requires
        0 < coverage <= u64::MAX,
        k * coverage <= total <= 0x1000_0000_0000_0000_0000_0000,
        k <= 0x10_0000,
    ensures
        Double::natural(total).over(Double::natural(coverage)).finite(),
        k <= Double::natural(total).over(Double::natural(coverage)).rounded().saturated(),
{
    lemma_double_format();
    let f = binary64();
    let one = pow2(1074) as int;
    let quarter = pow2(1072) as int;
    vstd::arithmetic::power2::lemma2_to64();
    vstd::arithmetic::power2::lemma2_to64_rest();
    lemma_pow2_adds(1072, 2);
    lemma_pow2_pos(1072);
    lemma_natural_close(coverage);
    let x = Double::natural(total).num();
    let y = Double::natural(coverage).num();
    let sx = f.size(x);
    let den = f.size(y);
    let average = Double::natural(total).over(Double::natural(coverage));
    if total == 0 {
        lemma_natural_exact(0);
    } else {
        lemma_natural_close(total);
    }
    assert(k * coverage >= k) by (nonlinear_arith)
        requires
            coverage >= 1,
            k >= 0,
    ;
    // the average is finite
    lemma_place(1, 1174);
    let high = Num { negative: false, magnitude: place(1, 1174) as u64 };
    lemma_pow2_adds(1074, 100);
    lemma_pow2_adds(64, 36);
    let p100 = 0x10_0000_0000_0000_0000_0000_0000int;
    assert(pow2(100) == p100);
    assert(sx <= p100 * one) by {
        assert(total * one <= 0x1000_0000_0000_0000_0000_0000 * one) by (nonlinear_arith)
            requires
                total <= 0x1000_0000_0000_0000_0000_0000,
                one > 0,
        ;
        if total == 0 {
            assert(0 * one == 0);
        }
    }
    assert(sx * one <= f.size(high) * den) by (nonlinear_arith)
        requires
            sx <= p100 * one,
            f.size(high) == 1 * (one * p100),
            den >= one,
            one > 0,
            p100 > 0,
    ;
    lemma_quotient_bound(f, x, y, high);
    lemma_of_num(f.over(x, y));
    assert(average.finite());
    assert(!average.num().negative);
    if k == 0 {
        lemma_rounded_ordered(average, average);
        lemma_saturated_ordered(average.rounded(), average.rounded());
    } else {
        let n = (4 * k - 1) as nat;
        let q = lemma_quarters(n);
        lemma_quarter_rounds(q, n, k);
        let m = k * den;
        assert(0 <= m <= 0x10_0000 * den) by (nonlinear_arith)
            requires
                m == k * den,
                0 <= k <= 0x10_0000,
                den >= 0,
        ;
        let c1 = coverage * one;
        let kc = k * c1;
        assert(kc <= total * one) by (nonlinear_arith)
            requires
                kc == k * c1,
                c1 == coverage * one,
                k * coverage <= total,
                one > 0,
        ;
        assert(0x20_0000_0000_0000 * kc >= 0x1f_ffff_ffff_ffff * m) by (nonlinear_arith)
            requires
                0x20_0000_0000_0000 * c1 >= 0x1f_ffff_ffff_ffff * den,
                kc == k * c1,
                m == k * den,
                k >= 0,
        ;
        assert(4 * sx >= 4 * m - den);
        assert(sx * one >= f.size(q) * den) by (nonlinear_arith)
            requires
                4 * sx >= 4 * m - den,
                m == k * den,
                one == quarter * 4,
                f.size(q) == (4 * k - 1) * quarter,
                quarter > 0,
        ;
        lemma_quotient_bound(f, x, y, q);
        assert(ordered(Double::of(q), average));
        lemma_rounded_ordered(Double::of(q), average);
        lemma_natural_rounded(k);
        lemma_saturated_ordered(Double::natural(k), average.rounded());
    }
}

/// The larger of two sums has no smaller average.
pub proof fn lemma_average_ordered(total: nat, larger: nat, coverage: nat)
    requires
        0 < coverage <= u64::MAX,
        total <= larger <= 0x1000_0000_0000_0000_0000_0000,
    ensures
        ({
            let x = Double::natural(total).over(Double::natural(coverage)).rounded().saturated();
            let y = Double::natural(larger).over(Double::natural(coverage)).rounded().saturated();
            0 <= x <= y
        }),
{
    lemma_natural_close(coverage);
    lemma_natural_ordered(total, larger);
    lemma_average_at_least(larger, coverage, 0);
    if larger == 0 {
        lemma_natural_exact(0);
    } else {
        lemma_natural_close(larger);
    }
    let z = Double::natural(coverage);
    lemma_over_ordered(Double::natural(total), Double::natural(larger), z);
    lemma_rounded_ordered(Double::natural(total).over(z), Double::natural(larger).over(z));
    lemma_saturated_ordered(
        Double::natural(total).over(z).rounded(),
        Double::natural(larger).over(z).rounded(),
    );
}

} // verus!
