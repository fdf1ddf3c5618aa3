//! What the window and the mel bank hold, in exact arithmetic.

use vstd::arithmetic::power2::{lemma_pow2_adds, lemma_pow2_pos, lemma_pow2_strictly_increases, pow2};
use vstd::prelude::*;
use crate::aggregate::hamming::window_weight;
use crate::aggregate::hamming_laws::law_window_weight_is_raised_cosine;
use crate::embed::dot_laws::single_one;
use crate::embed::mel::{band, band_corner, band_step, frequency, mel, mel_argument, window_from, FFT_SPECTRUM_LEN, NUM_FFT_BINS};
use crate::float::arith::{abs, law_rank_orders_values};
use crate::float::double::{binary64, lemma_double_format};
use crate::float::error::{law_difference_is_close, law_product_is_close, law_quotient_is_close, law_sum_is_close, lemma_one, lemma_sizes, limit, one};
use crate::float::error_single::{law_narrowing_is_close, single_limit, widening};
use crate::float::grid::distance;
use crate::float::nearest::{lemma_one_number, lemma_pattern};
use crate::float::order::lemma_natural_exact;
use crate::float::relative::{is_near, lemma_near_back, lemma_near_chain, lemma_near_scaled, lemma_usual_quotient};
use crate::float::{Double, Single};

verus! {

/// The window holds `0.54 - 0.46 cos` for each cosine, up to rounding.
pub proof fn law_window_is_raised_cosine(cosines: Seq<Double>, i: int)
    requires
        0 <= i < cosines.len(),
        cosines[i].finite(),
        abs(cosines[i].units()) <= one(),
    ensures
        window_from(cosines).len() == cosines.len(),
        window_from(cosines)[i].finite(),
        0x1_0000 * distance(
            100 * (window_from(cosines)[i].units() * widening()),
            54 * one() - 46 * cosines[i].units(),
        ) <= one(),
{
    law_window_weight_is_raised_cosine(cosines[i]);
    let w = window_weight(cosines[i]);
    let k = widening();
    let u = one();
    let p = single_one();
    lemma_one();
    lemma_pow2_pos(925);
    lemma_pow2_adds(149, 925);
    lemma_pow2_strictly_increases(149, 253);
    lemma_pow2_strictly_increases(62, 149);
    vstd::arithmetic::power2::lemma2_to64_rest();
    assert(u == p * k);
    assert(abs(w.units()) <= 2 * u);
    assert(2 * u <= single_limit() * k) by (nonlinear_arith)
        requires
            u == p * k,
            2 * p <= single_limit(),
            k > 0,
    ;
    law_narrowing_is_close(w);
    let n = w.narrowed().units();
    let na = abs(n);
    let nk = n * k;
    assert((na + 0x80_0000) * k == na * k + 0x80_0000 * k && abs(nk) == na * k) by (nonlinear_arith)
        requires
            nk == n * k,
            na == (if n < 0 { -n } else { n }),
            abs(nk) == (if nk < 0 { -nk } else { nk }),
            k > 0,
    ;
    assert(u >= 0x1000_0000_0000_0000 * k) by (nonlinear_arith)
        requires
            u == p * k,
            p >= 0x1000_0000_0000_0000,
            k > 0,
    ;
    assert(0x100_0000 * distance(nk, w.units()) <= 5 * u);
}

/// The frequencies: bin `k` lies at 31.25 `k`, up to rounding, and the bank reaches from
/// 20 to 8000.
pub proof fn law_bins_are_evenly_spaced(k: int)
    requires
        0 <= k < NUM_FFT_BINS,
    ensures
        0x10_0000_0000_0000 * distance(4 * frequency(k).units(), (125 * k) * one()) <= (125 * k)
            * one() + 0x40_0000_0000_0000,
        frequency(NUM_FFT_BINS as int).units() == 20 * one(),
        frequency(NUM_FFT_BINS + 1).units() == 8000 * one(),
{
    let u = one();
    lemma_one();
    let x = Double { bits: 0x403f_4000_0000_0000 };
    assert(1026 * 0x10_0000_0000_0000 + 0x1f_4000_0000_0000 == 0x403f_4000_0000_0000);
    assert(1026 * 0x10_0000_0000_0000 + 0x14_0000_0000_0000 == 0x4034_0000_0000_0000);
    assert(1034 * 0x10_0000_0000_0000 + 0x1f_4000_0000_0000 == 0x40bf_4000_0000_0000);
    lemma_pattern(0x403f_4000_0000_0000, 1026, 0x1f_4000_0000_0000);
    lemma_pattern(0x4034_0000_0000_0000, 1026, 0x14_0000_0000_0000);
    lemma_pattern(0x40bf_4000_0000_0000, 1034, 0x1f_4000_0000_0000);
    let v = pow2(1026) as int;
    lemma_pow2_pos(1026);
    lemma_pow2_adds(48, 1026);
    lemma_pow2_adds(8, 1026);
    lemma_pow2_strictly_increases(1074, 2045);
    vstd::arithmetic::power2::lemma2_to64();
    vstd::arithmetic::power2::lemma2_to64_rest();
    assert(u == 0x1_0000_0000_0000 * v) by (nonlinear_arith)
        requires
            u == pow2(48) * v,
            pow2(48) == 0x1_0000_0000_0000,
    ;
    assert(pow2(1034) == 256 * v) by (nonlinear_arith)
        requires
            pow2(1034) == pow2(8) * v,
            pow2(8) == 256,
    ;
    let w = pow2(1034) as int;
    assert((Double { bits: 0x40bf_4000_0000_0000 }).units() == 0x1f_4000_0000_0000 * w);
    assert(4 * x.units() == 125 * u);
    lemma_natural_exact(k as nat);
    let c = x.units();
    let ku = k * u;
    let ck = c * k;
    assert(c * ku == ck * u && 0 <= ck <= 0x1_0000 * u) by (nonlinear_arith)
        requires
            ku == k * u,
            ck == c * k,
            0 <= k <= 0x200,
            4 * c == 125 * u,
            u > 0,
    ;
    assert(0 <= ck * u <= limit() * u) by (nonlinear_arith)
        requires
            0 <= ck <= limit(),
            u > 0,
    ;
    law_product_is_close(x, Double::natural(k as nat));
    let r = frequency(k).units();
    let ra = abs(r);
    let d = distance(r, ck);
    assert(0x20_0000_0000_0000 * d <= ra + 0x10_0000_0000_0000) by (nonlinear_arith)
        requires
            0x20_0000_0000_0000 * distance(r * u, ck * u) <= (ra + 0x10_0000_0000_0000) * u,
            distance(r * u, ck * u) == (if r * u <= ck * u { ck * u - r * u } else { r * u - ck
                * u }),
            d == (if r <= ck { ck - r } else { r - ck }),
            u > 0,
    ;
    assert(4 * ck == (125 * k) * u) by (nonlinear_arith)
        requires
            ck == c * k,
            4 * c == 125 * u,
    ;
}

/// The logarithm is taken of one and the frequency over 700, up to rounding.
pub proof fn law_mel_argument_is_its_formula(f: Double)
    requires
        f.finite(),
        0 <= f.units() <= 0x1_0000 * one(),
    ensures
        mel_argument(f).finite(),
        0x4_0000_0000_0000 * distance(700 * mel_argument(f).units(), 700 * one() + f.units())
            <= 700 * one() + f.units(),
{
    let u = one();
    lemma_one();
    lemma_one_number();
    let x = Double { bits: 0x4085_e000_0000_0000 };
    assert(1031 * 0x10_0000_0000_0000 + 0x15_e000_0000_0000 == 0x4085_e000_0000_0000);
    lemma_pattern(0x4085_e000_0000_0000, 1031, 0x15_e000_0000_0000);
    let v = pow2(1031) as int;
    lemma_pow2_pos(1031);
    lemma_pow2_adds(43, 1031);
    lemma_pow2_strictly_increases(1074, 2045);
    lemma_pow2_strictly_increases(62, 1074);
    vstd::arithmetic::power2::lemma2_to64();
    vstd::arithmetic::power2::lemma2_to64_rest();
    assert(u == 0x800_0000_0000 * v) by (nonlinear_arith)
        requires
            u == pow2(43) * v,
            pow2(43) == 0x800_0000_0000,
    ;
    assert(x.units() == 700 * u);
    let a = f.units();
    assert(a * u <= limit() * (700 * u)) by (nonlinear_arith)
        requires
            0 <= a <= 0x1_0000 * u,
            0x1_0000 * u <= limit(),
            u > 0,
    ;
    law_quotient_is_close(f, x);
    let q = f.over(x).units();
    let qa = abs(q);
    let d = distance(700 * q, a);
    assert(0x20_0000_0000_0000 * d <= 700 * (qa + 0x10_0000_0000_0000)) by (nonlinear_arith)
        requires
            0x20_0000_0000_0000 * distance(q * (700 * u), a * u) <= (qa + 0x10_0000_0000_0000)
                * (700 * u),
            distance(q * (700 * u), a * u) == (if q * (700 * u) <= a * u { a * u - q * (700 * u) }
            else { q * (700 * u) - a * u }),
            d == (if 700 * q <= a { a - 700 * q } else { 700 * q - a }),
            u > 0,
    ;
    assert(700 * qa <= 2 * a + 700);
    law_sum_is_close(Double::one_spec(), f.over(x));
}

/// The mel scale is 1127 times the logarithm, up to rounding.
pub proof fn law_mel_scale_is_its_formula(log: Double)
    requires
        log.finite(),
        abs(log.units()) <= 0x1_0000 * one(),
    ensures
        mel(log).finite(),
        0x10_0000_0000_0000 * distance(mel(log).units(), 1127 * log.units()) <= abs(
            1127 * log.units(),
        ) + 0x10_0000_0000_0000,
{
    let u = one();
    lemma_one();
    let x = Double { bits: 0x4091_9c00_0000_0000 };
    assert(1032 * 0x10_0000_0000_0000 + 0x11_9c00_0000_0000 == 0x4091_9c00_0000_0000);
    lemma_pattern(0x4091_9c00_0000_0000, 1032, 0x11_9c00_0000_0000);
    let v = pow2(1032) as int;
    lemma_pow2_pos(1032);
    lemma_pow2_adds(42, 1032);
    lemma_pow2_strictly_increases(1074, 2045);
    vstd::arithmetic::power2::lemma2_to64();
    vstd::arithmetic::power2::lemma2_to64_rest();
    assert(u == 0x400_0000_0000 * v) by (nonlinear_arith)
        requires
            u == pow2(42) * v,
            pow2(42) == 0x400_0000_0000,
    ;
    assert(x.units() == 1127 * u);
    let a = log.units();
    let y = 1127 * a;
    assert((1127 * u) * a == y * u) by (nonlinear_arith)
        requires
            y == 1127 * a,
    ;
    let ya = abs(y);
    assert(abs(y * u) == ya * u && ya * u <= limit() * u) by (nonlinear_arith)
        requires
            ya == (if y < 0 { -y } else { y }),
            abs(y * u) == (if y * u < 0 { -(y * u) } else { y * u }),
            ya <= limit(),
            u > 0,
    ;
    law_product_is_close(x, log);
    let r = mel(log).units();
    let ra = abs(r);
    let d = distance(r, y);
    assert(0x20_0000_0000_0000 * d <= ra + 0x10_0000_0000_0000) by (nonlinear_arith)
        requires
            0x20_0000_0000_0000 * distance(r * u, y * u) <= (ra + 0x10_0000_0000_0000) * u,
            distance(r * u, y * u) == (if r * u <= y * u { y * u - r * u } else { r * u - y * u }),
            d == (if r <= y { y - r } else { r - y }),
            u > 0,
    ;
}

/// The lower corner of band `m`.
pub open spec fn left_corner(logs: Seq<Double>, m: int) -> Double {
    mel(logs[NUM_FFT_BINS as int]).plus(Double::natural(m as nat).times(band_step(logs)))
}

/// Its peak.
pub open spec fn peak(logs: Seq<Double>, m: int) -> Double {
    band_corner(logs, m, Double::one_spec())
}

/// Its upper corner.
pub open spec fn right_corner(logs: Seq<Double>, m: int) -> Double {
    band_corner(logs, m, Double { bits: 0x4000_0000_0000_0000 })
}

/// A natural number and one more.
proof fn lemma_natural_plus(n: nat, x: Double, k: nat)
    requires
        n <= 0x1_0000,
        1 <= k <= 2,
        x.finite(),
        x.units() == k * one(),
    ensures
        Double::natural(n).plus(x) == Double::natural(n + k),
{
    lemma_double_format();
    lemma_one();
    lemma_natural_exact(n);
    lemma_natural_exact(n + k);
    let f = binary64();
    let u = one();
    lemma_sizes(f, x.num());
    lemma_sizes(f, Double::natural(n).num());
    assert(n * u + k * u == (n + k) * u && (n + k) * u > 0) by (nonlinear_arith)
        requires
            n + k >= 1,
            u > 0,
    ;
    assert(f.value(Double::natural(n).num()) + f.value(x.num()) == (n + k) * u);
}

/// Neighbouring bands overlap by half: the peak of a band is the lower corner of the
/// next, and its upper corner the next one's peak.
pub proof fn law_bands_overlap_by_half(logs: Seq<Double>, m: int)
    requires
        0 <= m < 0x1_0000,
    ensures
        peak(logs, m) == left_corner(logs, m + 1),
        right_corner(logs, m) == peak(logs, m + 1),
{
    lemma_one_number();
    let two = Double { bits: 0x4000_0000_0000_0000 };
    assert(1023 * 0x10_0000_0000_0000 + 0x10_0000_0000_0000 == 0x4000_0000_0000_0000);
    lemma_pattern(0x4000_0000_0000_0000, 1023, 0x10_0000_0000_0000);
    lemma_pow2_adds(52, 1023);
    lemma_pow2_adds(1, 1074);
    vstd::arithmetic::power2::lemma2_to64();
    vstd::arithmetic::power2::lemma2_to64_rest();
    assert(two.units() == 2 * one());
    assert(Double::one_spec().units() == 1 * one());
    lemma_natural_plus(m as nat, Double::one_spec(), 1);
    lemma_natural_plus(m as nat, two, 2);
    lemma_natural_plus((m + 1) as nat, Double::one_spec(), 1);
}

/// A gap between two points that is neither tiny nor huge.
pub open spec fn is_gap(a: Double, b: Double) -> bool {
    a.finite() && b.finite() && pow2(1024) <= b.units() - a.units() <= pow2(1124)
}

/// The share of a gap that another makes up.
proof fn lemma_share(a: Double, b: Double, c: Double, d: Double)
    requires
        is_gap(a, b),
        is_gap(c, d),
    ensures
        ({
            let q = b.minus(a).over(d.minus(c));
            &&& q.finite()
            &&& pow2(971) <= q.units() <= pow2(1177)
            &&& is_near(
                q.units() * (d.units() - c.units()),
                (b.units() - a.units()) * one(),
                6,
            )
        }),
{
    let u = one();
    lemma_one();
    let (x, y) = (b.units() - a.units(), d.units() - c.units());
    lemma_pow2_pos(1024);
    lemma_pow2_strictly_increases(1124, 2045);
    law_difference_is_close(b, a);
    law_difference_is_close(d, c);
    let (p, q) = (b.minus(a), d.minus(c));
    let (s, t) = (p.units(), q.units());
    assert(is_near(s, x, 1)) by {
        assert(1 * x == x);
    }
    assert(is_near(t, y, 1)) by {
        assert(1 * y == y);
    }
    lemma_pow2_adds(1, 1124);
    lemma_pow2_adds(1, 1023);
    vstd::arithmetic::power2::lemma2_to64();
    assert(pow2(1125) == 2 * pow2(1124)) by (nonlinear_arith)
        requires
            pow2(1125) == pow2(1) * pow2(1124),
            pow2(1) == 2,
    ;
    assert(pow2(1024) == 2 * pow2(1023)) by (nonlinear_arith)
        requires
            pow2(1024) == pow2(1) * pow2(1023),
            pow2(1) == 2,
    ;
    assert(1 * x == x && 1 * y == y);
    assert(pow2(1023) <= s <= pow2(1125) && pow2(1023) <= t <= pow2(1125));
    lemma_pow2_adds(1125, 1074);
    lemma_pow2_adds(2045, 1023);
    lemma_pow2_strictly_increases(2199, 3068);
    lemma_pow2_adds(1023, 1074);
    lemma_pow2_adds(64, 1125);
    lemma_pow2_strictly_increases(1189, 2097);
    lemma_pow2_pos(1023);
    lemma_pow2_pos(2045);
    assert(s * u <= limit() * t) by (nonlinear_arith)
        requires
            0 <= s <= pow2(1125),
            u == pow2(1074),
            t >= pow2(1023),
            limit() == 0x10_0000_0000_0000 * pow2(2045),
            pow2(2199) == pow2(1125) * pow2(1074),
            pow2(3068) == pow2(2045) * pow2(1023),
            pow2(2199) < pow2(3068),
            pow2(2045) > 0,
            u > 0,
    ;
    assert(s * u >= pow2(64) * t) by (nonlinear_arith)
        requires
            s >= pow2(1023),
            u == pow2(1074),
            0 <= t <= pow2(1125),
            pow2(2097) == pow2(1023) * pow2(1074),
            pow2(1189) == pow2(64) * pow2(1125),
            pow2(1189) < pow2(2097),
            u > 0,
            pow2(64) >= 0,
    ;
    lemma_usual_quotient(p, q);
    let r = p.over(q).units();
    let rt = r * t;
    let su = s * u;
    assert(1 * su == su);
    // bounds on the quotient
    lemma_pow2_adds(971, 1125);
    lemma_pow2_adds(1, 2096);
    lemma_pow2_adds(1, 2199);
    lemma_pow2_adds(1177, 1023);
    lemma_pow2_pos(971);
    assert(pow2(2097) == 2 * pow2(2096)) by (nonlinear_arith)
        requires
            pow2(2097) == pow2(1) * pow2(2096),
            pow2(1) == 2,
    ;
    assert(pow2(2200) == 2 * pow2(2199)) by (nonlinear_arith)
        requires
            pow2(2200) == pow2(1) * pow2(2199),
            pow2(1) == 2,
    ;
    assert(pow2(2097) <= su <= pow2(2199)) by (nonlinear_arith)
        requires
            su == s * u,
            pow2(1023) <= s <= pow2(1125),
            u == pow2(1074),
            u > 0,
            pow2(2097) == pow2(1023) * pow2(1074),
            pow2(2199) == pow2(1125) * pow2(1074),
    ;
    assert(pow2(2096) <= rt <= pow2(2200));
    assert(pow2(971) <= r) by (nonlinear_arith)
        requires
            pow2(2096) <= rt,
            rt == r * t,
            0 < t <= pow2(1125),
            pow2(2096) == pow2(971) * pow2(1125),
            r >= 0,
    ;
    assert(r <= pow2(1177)) by (nonlinear_arith)
        requires
            rt <= pow2(2200),
            rt == r * t,
            t >= pow2(1023),
            pow2(2200) == pow2(1177) * pow2(1023),
            pow2(1023) > 0,
            r >= 0,
    ;
    // r y near r t near s u near x u
    lemma_near_back(t, y, 1);
    lemma_near_scaled(y, t, r, 2);
    assert(y * r == r * y && t * r == rt) by (nonlinear_arith)
        requires
            rt == r * t,
    ;
    lemma_near_scaled(s, x, u, 1);
    lemma_near_chain(rt, su, x * u, 1, 1);
    lemma_near_chain(r * y, rt, x * u, 2, 3);
}

/// Where the corners, the peak and the point of bin `k` lie.
pub open spec fn points(logs: Seq<Double>, m: int, k: int) -> (int, int, int, int) {
    (
        left_corner(logs, m).units(),
        peak(logs, m).units(),
        right_corner(logs, m).units(),
        mel(logs[k]).units(),
    )
}

/// A number of parts in `2^50` is fewer parts in `2^20`, narrowed.
proof fn lemma_narrowed_share(r: int, y: int, x: int, n: int, k: int)
    requires
        k > 0,
        x >= 0,
        y > 0,
        r >= 0x1000_0000_0000 * k,
        0x100_0000 * distance(n * k, r) <= (n + 0x80_0000) * k,
        n >= 0,
        is_near(r * y, x, 6),
    ensures
        0x10_0000 * distance((n * k) * y, x) <= x,
{
    let nk = n * k;
    assert((n + 0x80_0000) * k == nk + 0x80_0000 * k) by (nonlinear_arith)
        requires
            nk == n * k,
    ;
    assert(0x40_0000 * distance(nk, r) <= r);
    let (nky, ry) = (nk * y, r * y);
    assert(0x40_0000 * distance(nky, ry) <= ry) by (nonlinear_arith)
        requires
            0x40_0000 * distance(nk, r) <= r,
            distance(nk, r) == (if nk <= r { r - nk } else { nk - r }),
            distance(nky, ry) == (if nky <= ry { ry - nky } else { nky - ry }),
            nky == nk * y,
            ry == r * y,
            y > 0,
    ;
}

/// Inside its corners a band rises to its peak and falls from there: the weight is the
/// share of the rise that the point has made, or the share of the fall that is left, up
/// to rounding, and more than neither.
#[verifier::spinoff_prover]
pub proof fn law_band_rises_and_falls(logs: Seq<Double>, m: int, k: int)
    requires
        0 <= k < NUM_FFT_BINS,
        is_gap(left_corner(logs, m), mel(logs[k])),
        is_gap(mel(logs[k]), right_corner(logs, m)),
        is_gap(left_corner(logs, m), peak(logs, m)),
        is_gap(peak(logs, m), right_corner(logs, m)),
    ensures
        band(logs, m).len() == FFT_SPECTRUM_LEN,
        band(logs, m)[k].finite(),
        ({
            let (left, top, right, point) = points(logs, m, k);
            let w = band(logs, m)[k].units() * widening();
            let (rise, fall) = (w * (top - left), w * (right - top));
            let (risen, rest) = ((point - left) * one(), (right - point) * one());
            &&& 0x10_0000 * distance(rise, risen) <= risen || 0x10_0000 * distance(fall, rest)
                <= rest
            &&& 0x10_0000 * rise <= 0x10_0001 * risen
            &&& 0x10_0000 * fall <= 0x10_0001 * rest
        }),
{
    let (a, b, c, x) = (left_corner(logs, m), peak(logs, m), right_corner(logs, m), mel(logs[k]));
    lemma_share(a, x, a, b);
    lemma_share(x, c, b, c);
    let up = x.minus(a).over(b.minus(a));
    let down = c.minus(x).over(c.minus(b));
    lemma_double_format();
    law_rank_orders_values(binary64(), down.num(), up.num());
    let least = up.smaller(down);
    let zero = Double::zero_spec();
    crate::float::arith::lemma_zero_units(53);
    lemma_pow2_pos(971);
    law_rank_orders_values(binary64(), least.num(), zero.num());
    let kept = least.larger(zero);
    assert(kept == least);
    let u = one();
    lemma_one();
    let w = widening();
    lemma_pow2_pos(925);
    lemma_pow2_adds(46, 925);
    lemma_pow2_adds(252, 925);
    lemma_pow2_strictly_increases(252, 253);
    vstd::arithmetic::power2::lemma2_to64_rest();
    let r = least.units();
    assert(r >= 0x4000_0000_0000 * w) by (nonlinear_arith)
        requires
            r >= pow2(971),
            pow2(971) == pow2(46) * w,
            pow2(46) == 0x4000_0000_0000,
    ;
    assert(r <= single_limit() * w) by (nonlinear_arith)
        requires
            r <= pow2(1177),
            pow2(1177) == pow2(252) * w,
            pow2(252) < pow2(253),
            single_limit() == 0x80_0000 * pow2(253),
            w > 0,
    ;
    law_narrowing_is_close(kept);
    let n = kept.narrowed().units();
    lemma_pow2_pos(1024);
    assert(n >= 0) by (nonlinear_arith)
        requires
            0x100_0000 * distance(n * w, r) <= (abs(n) + 0x80_0000) * w,
            distance(n * w, r) == (if n * w <= r { r - n * w } else { n * w - r }),
            abs(n) == (if n < 0 { -n } else { n }),
            r >= 0x4000_0000_0000 * w,
            w > 0,
    ;
    let (left, top, right, point) = points(logs, m, k);
    let nw = n * w;
    let (risen, rest) = ((point - left) * u, (right - point) * u);
    assert(risen >= 0 && rest >= 0) by (nonlinear_arith)
        requires
            risen == (point - left) * u,
            rest == (right - point) * u,
            point >= left,
            right >= point,
            u > 0,
    ;
    if r == up.units() {
        lemma_narrowed_share(r, top - left, risen, n, w);
    }
    if r == down.units() {
        lemma_narrowed_share(r, right - top, rest, n, w);
    }
    // the least is at most both
    lemma_upper_share(r, up.units(), top - left, risen, n, w);
    lemma_upper_share(r, down.units(), right - top, rest, n, w);
}

/// A share of the smaller is at most that of the larger.
proof fn lemma_upper_share(r: int, larger: int, y: int, x: int, n: int, k: int)
    requires
        k > 0,
        x >= 0,
        y > 0,
        n >= 0,
        0x1000_0000_0000 * k <= r <= larger,
        0x100_0000 * distance(n * k, r) <= (n + 0x80_0000) * k,
        is_near(larger * y, x, 6),
    ensures
        0x10_0000 * ((n * k) * y) <= 0x10_0001 * x,
{
    let nk = n * k;
    assert((n + 0x80_0000) * k == nk + 0x80_0000 * k) by (nonlinear_arith)
        requires
            nk == n * k,
    ;
    assert(0x40_0000 * nk <= 0x40_0001 * larger);
    let (nky, ly) = (nk * y, larger * y);
    assert(0x40_0000 * nky <= 0x40_0001 * ly) by (nonlinear_arith)
        requires
            0x40_0000 * nk <= 0x40_0001 * larger,
            nky == nk * y,
            ly == larger * y,
            y > 0,
    ;
}

/// A gap that is not positive makes up a share that is not.
proof fn lemma_no_share(a: Double, b: Double, c: Double, d: Double)
    requires
        a.finite(),
        b.finite(),
        abs(b.units() - a.units()) <= pow2(1125),
        is_gap(c, d),
    ensures
        b.minus(a).over(d.minus(c)).finite(),
        b.units() <= a.units() ==> b.minus(a).over(d.minus(c)).units() <= 0,
{
    let u = one();
    lemma_one();
    lemma_pow2_pos(1024);
    lemma_pow2_strictly_increases(1125, 2045);
    lemma_pow2_strictly_increases(1124, 2045);
    law_difference_is_close(b, a);
    law_difference_is_close(d, c);
    let (p, q) = (b.minus(a), d.minus(c));
    let (s, t) = (p.units(), q.units());
    lemma_pow2_adds(1, 1023);
    lemma_pow2_adds(1, 1125);
    vstd::arithmetic::power2::lemma2_to64();
    assert(pow2(1024) == 2 * pow2(1023)) by (nonlinear_arith)
        requires
            pow2(1024) == pow2(1) * pow2(1023),
            pow2(1) == 2,
    ;
    assert(pow2(1126) == 2 * pow2(1125)) by (nonlinear_arith)
        requires
            pow2(1126) == pow2(1) * pow2(1125),
            pow2(1) == 2,
    ;
    let sa = abs(s);
    assert(t >= pow2(1023) && sa <= pow2(1126));
    lemma_pow2_adds(1126, 1074);
    lemma_pow2_adds(2045, 1023);
    lemma_pow2_strictly_increases(2200, 3068);
    lemma_pow2_pos(1023);
    lemma_pow2_pos(2045);
    assert(sa * u <= limit() * t) by (nonlinear_arith)
        requires
            0 <= sa <= pow2(1126),
            u == pow2(1074),
            t >= pow2(1023),
            limit() == 0x10_0000_0000_0000 * pow2(2045),
            pow2(2200) == pow2(1126) * pow2(1074),
            pow2(3068) == pow2(2045) * pow2(1023),
            pow2(2200) < pow2(3068),
            pow2(2045) > 0,
            u > 0,
    ;
    law_quotient_is_close(p, q);
    let r = p.over(q).units();
    if b.units() <= a.units() && r > 0 {
        assert(s <= 0);
        assert(false) by (nonlinear_arith)
            requires
                0x20_0000_0000_0000 * distance(r * t, s * u) <= (r + 0x10_0000_0000_0000) * t,
                distance(r * t, s * u) == (if r * t <= s * u { s * u - r * t } else { r * t - s
                    * u }),
                s <= 0,
                u > 0,
                t > 0,
                r >= 1,
        ;
    }
}

/// At its corners and outside them a band has no weight.
#[verifier::spinoff_prover]
pub proof fn law_band_is_nothing_outside(logs: Seq<Double>, m: int, k: int)
    requires
        0 <= k < NUM_FFT_BINS,
        mel(logs[k]).finite(),
        is_gap(left_corner(logs, m), peak(logs, m)),
        is_gap(peak(logs, m), right_corner(logs, m)),
        ({
            let (left, top, right, point) = points(logs, m, k);
            &&& point <= left || right <= point
            &&& abs(point - left) <= pow2(1125)
            &&& abs(right - point) <= pow2(1125)
        }),
    ensures
        band(logs, m)[k].finite(),
        band(logs, m)[k].units() == 0,
{
    let (a, b, c, x) = (left_corner(logs, m), peak(logs, m), right_corner(logs, m), mel(logs[k]));
    lemma_no_share(a, x, a, b);
    lemma_no_share(x, c, b, c);
    let up = x.minus(a).over(b.minus(a));
    let down = c.minus(x).over(c.minus(b));
    lemma_double_format();
    law_rank_orders_values(binary64(), down.num(), up.num());
    let least = up.smaller(down);
    assert(least.units() <= 0);
    let zero = Double::zero_spec();
    crate::float::arith::lemma_zero_units(53);
    law_rank_orders_values(binary64(), least.num(), zero.num());
    let kept = least.larger(zero);
    assert(kept.finite() && kept.units() == 0);
    let w = widening();
    lemma_pow2_pos(925);
    lemma_pow2_pos(253);
    assert(single_limit() * w >= 0) by (nonlinear_arith)
        requires
            single_limit() >= 0,
            w >= 0,
    ;
    law_narrowing_is_close(kept);
    let n = kept.narrowed().units();
    let na = abs(n);
    assert(n == 0) by (nonlinear_arith)
        requires
            0x100_0000 * distance(n * w, 0) <= (na + 0x80_0000) * w,
            distance(n * w, 0) == (if n * w <= 0 { -(n * w) } else { n * w }),
            na == (if n < 0 { -n } else { n }),
            w > 0,
    ;
}

/// The last entry of a spectrum has no weight in any band.
pub proof fn law_last_entry_has_no_weight(logs: Seq<Double>, m: int)
    ensures
        band(logs, m).len() == FFT_SPECTRUM_LEN,
        band(logs, m)[FFT_SPECTRUM_LEN - 1] == Single::zero_spec(),
{
}

} // verus!
