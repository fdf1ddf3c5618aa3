//! What the steps from samples to band energies are, in exact arithmetic.

use vstd::arithmetic::power2::{lemma_pow2_adds, lemma_pow2_pos, lemma_pow2_strictly_increases, pow2};
use vstd::prelude::*;
use crate::cluster::hungarian::sums::sum;
use crate::embed::dot_laws::single_one;
use crate::embed::fbank::{emphasised, frame_mean, int16_scale, padded, preemphasis, raw_frame, weighted, without_offset};
use crate::embed::mel::{PADDED_WINDOW_SIZE, WINDOW_SHIFT, WINDOW_SIZE};
use crate::float::arith::abs;
use crate::float::error::{lemma_sizes_sum, sizes_of};
use crate::float::error_single::{law_added_single_is_close, law_single_difference_is_close, law_single_product_is_close, law_single_quotient_is_close, lemma_single_of_num, single_limit, single_units};
use crate::float::grid::{distance, half_span, lemma_half_span, lemma_parts, lemma_representable};
use crate::float::single::{binary32, lemma_single_format, Single};

verus! {

/// Of at most `2^60`.
pub open spec fn is_modest(x: Single) -> bool {
    x.finite() && abs(x.units()) <= pow2(209)
}

/// The exact value of a positive bit pattern.
proof fn lemma_single_pattern(b: u32, g: nat, q: int)
    requires
        1 <= g <= 253,
        0x80_0000 <= q < 0x100_0000,
        b == g * 0x80_0000 + q,
    ensures
        (Single { bits: b }).finite(),
        (Single { bits: b }).units() == q * pow2(g),
{
    lemma_single_format();
    lemma_half_span(24);
    vstd::arithmetic::power2::lemma2_to64();
    let h = half_span(24);
    assert(h == 0x80_0000);
    lemma_parts(24, g, q);
    assert((Single { bits: b }).num().magnitude == b);
}

/// A natural number of up to 24 digits is exact.
proof fn lemma_single_natural(n: nat, g: nat, q: int)
    requires
        1 <= g <= 253,
        0x80_0000 <= q < 0x100_0000,
        n * pow2(149) == q * pow2(g),
    ensures
        Single::natural(n).finite(),
        Single::natural(n).units() == n * pow2(149),
{
    lemma_single_format();
    lemma_half_span(24);
    vstd::arithmetic::power2::lemma2_to64();
    let f = binary32();
    let h = half_span(24);
    assert(h == 0x80_0000);
    lemma_parts(24, g, q);
    let b = g * h + q;
    assert(b < f.top);
    lemma_representable(24, f.top as int, 1, b);
    lemma_single_of_num(f.natural(n));
}

/// A product, its bound without the unit.
proof fn lemma_product(a: Single, b: Single)
    requires
        is_modest(a),
        b.finite(),
        abs(b.units()) <= pow2(164),
    ensures
        a.times(b).finite(),
        0x80_0000 * distance(a.times(b).units() * single_one(), a.units() * b.units()) <= abs(
            a.units() * b.units(),
        ) + 0x80_0000 * single_one(),
        abs(a.units() * b.units()) <= single_limit() * single_one(),
{
    let u = single_one();
    lemma_pow2_pos(149);
    lemma_pow2_adds(209, 164);
    lemma_pow2_adds(253, 149);
    lemma_pow2_strictly_increases(373, 402);
    let (x, y) = (a.units(), b.units());
    let t = x * y;
    assert(abs(t) <= pow2(373)) by (nonlinear_arith)
        requires
            t == x * y,
            -pow2(209) <= x <= pow2(209),
            -pow2(164) <= y <= pow2(164),
            pow2(373) == pow2(209) * pow2(164),
            abs(t) == (if t < 0 { -t } else { t }),
    ;
    assert(pow2(402) <= single_limit() * u) by (nonlinear_arith)
        requires
            single_limit() == 0x80_0000 * pow2(253),
            u == pow2(149),
            pow2(402) == pow2(253) * pow2(149),
    ;
    law_single_product_is_close(a, b);
    let r = a.times(b).units();
    let ra = abs(r);
    let ru = r * u;
    assert(abs(ru) == ra * u && (ra + 0x80_0000) * u == ra * u + 0x80_0000 * u) by (nonlinear_arith)
        requires
            ru == r * u,
            ra == (if r < 0 { -r } else { r }),
            abs(ru) == (if ru < 0 { -ru } else { ru }),
            u > 0,
    ;
}

/// A frame holds the samples from its start on, each 32768 times as large, up to
/// rounding.
pub proof fn law_frame_holds_scaled_samples(samples: Seq<Single>, f: int, j: int)
    requires
        0 <= j < WINDOW_SIZE,
        is_modest(samples[f * WINDOW_SHIFT + j]),
    ensures
        raw_frame(samples, f).len() == WINDOW_SIZE,
        raw_frame(samples, f)[j].finite(),
        ({
            let x = samples[f * WINDOW_SHIFT + j].units();
            0x80_0000 * distance(raw_frame(samples, f)[j].units(), 32768 * x) <= abs(32768 * x)
                + 0x80_0000
        }),
{
    let u = single_one();
    lemma_pow2_pos(149);
    lemma_pow2_adds(23, 141);
    lemma_pow2_adds(15, 149);
    vstd::arithmetic::power2::lemma2_to64();
    assert(141 * 0x80_0000 + 0x80_0000 == 0x4700_0000);
    lemma_single_pattern(0x4700_0000, 141, 0x80_0000);
    let s = samples[f * WINDOW_SHIFT + j];
    lemma_product(s, int16_scale());
    let x = s.units();
    let r = s.times(int16_scale()).units();
    let y = 32768 * x;
    assert(int16_scale().units() == 32768 * u);
    assert(x * int16_scale().units() == y * u) by (nonlinear_arith)
        requires
            int16_scale().units() == 32768 * u,
            y == 32768 * x,
    ;
    lemma_without_unit(r, y, u);
}

/// The bound of a product, without the unit.
proof fn lemma_without_unit(r: int, y: int, u: int)
    requires
        0x80_0000 * distance(r * u, y * u) <= abs(y * u) + 0x80_0000 * u,
        u > 0,
    ensures
        0x80_0000 * distance(r, y) <= abs(y) + 0x80_0000,
{
    let d = distance(r, y);
    let ya = abs(y);
    assert(distance(r * u, y * u) == d * u && abs(y * u) == ya * u) by (nonlinear_arith)
        requires
            d == (if r <= y { y - r } else { r - y }),
            distance(r * u, y * u) == (if r * u <= y * u { y * u - r * u } else { r * u - y * u }),
            ya == (if y < 0 { -y } else { y }),
            abs(y * u) == (if y * u < 0 { -(y * u) } else { y * u }),
            u > 0,
    ;
    assert(0x80_0000 * d <= ya + 0x80_0000) by (nonlinear_arith)
        requires
            0x80_0000 * (d * u) <= ya * u + 0x80_0000 * u,
            u > 0,
    ;
}

/// The mean of a frame times its length is the sum of all its values, up to rounding.
#[verifier::spinoff_prover]
pub proof fn law_frame_mean_is_the_mean(frame: Seq<Single>)
    requires
        frame.len() == WINDOW_SIZE,
        forall|j: int| 0 <= j < frame.len() ==> is_modest(#[trigger] frame[j]),
    ensures
        frame_mean(frame).finite(),
        ({
            let n = WINDOW_SIZE as int;
            let m = frame_mean(frame).units();
            0x100_0000 * distance(n * m, sum(single_units(frame))) <= n * (abs(m) + 0x80_0000 + 2
                * sum(sizes_of(single_units(frame))))
        }),
{
    let n = WINDOW_SIZE as int;
    let u = single_one();
    lemma_pow2_pos(149);
    lemma_pow2_pos(209);
    lemma_pow2_adds(15, 134);
    lemma_pow2_adds(9, 209);
    lemma_pow2_strictly_increases(218, 253);
    vstd::arithmetic::power2::lemma2_to64();
    let v = single_units(frame);
    let z = sizes_of(v);
    let most = pow2(209) as int;
    assert forall|j: int| 0 <= j < v.len() implies abs(#[trigger] v[j]) <= most by {
        assert(is_modest(frame[j]));
    }
    crate::float::error_single::lemma_sum_bounded(v, most);
    assert(v.take(n) =~= v);
    assert(z.take(n) =~= z);
    lemma_sizes_sum(v, n as nat);
    assert forall|j: int| 0 <= j < n implies (#[trigger] frame[j]).finite() by {
        assert(is_modest(frame[j]));
    }
    assert(n * most == 400 * most);
    lemma_single_format();
    crate::float::arith::lemma_zero_units(24);
    law_added_single_is_close(Single::zero_spec(), frame, n as nat);
    let s = crate::float::sums::added_single(Single::zero_spec(), frame, n as nat);
    let size = sum(z);
    assert(400 * size == n * size);
    assert(400 * u == 0xc8_0000 * pow2(134));
    lemma_single_natural(400, 134, 0xc8_0000);
    let k = Single::natural(400);
    let sa = abs(s.units());
    assert(sa <= 2 * size + 1);
    assert(sa * pow2(149) <= single_limit() * abs(k.units())) by (nonlinear_arith)
        requires
            0 <= sa <= single_limit(),
            abs(k.units()) == 400 * pow2(149),
            pow2(149) > 0,
    ;
    law_single_quotient_is_close(s, k);
    let m = frame_mean(frame).units();
    let ma = abs(m);
    let nm = n * m;
    let d = distance(nm, s.units());
    assert(0x100_0000 * d <= n * (ma + 0x80_0000)) by (nonlinear_arith)
        requires
            0x100_0000 * distance(m * (400 * u), s.units() * u) <= (ma + 0x80_0000) * (400 * u),
            distance(m * (400 * u), s.units() * u) == (if m * (400 * u) <= s.units() * u {
                s.units() * u - m * (400 * u)
            } else {
                m * (400 * u) - s.units() * u
            }),
            d == (if nm <= s.units() { s.units() - nm } else { nm - s.units() }),
            nm == n * m,
            n == 400,
            u > 0,
    ;
    assert(n * (ma + 0x80_0000 + 2 * size) == n * (ma + 0x80_0000) + 2 * (n * size)) by (
    nonlinear_arith);
}

/// Each value of a frame without its offset is the value less the mean, up to rounding.
pub proof fn law_offset_is_removed(frame: Seq<Single>, j: int)
    requires
        0 <= j < frame.len(),
        is_modest(frame[j]),
        is_modest(frame_mean(frame)),
    ensures
        without_offset(frame)[j].finite(),
        0xff_ffff * distance(
            without_offset(frame)[j].units(),
            frame[j].units() - frame_mean(frame).units(),
        ) <= abs(frame[j].units() - frame_mean(frame).units()),
{
    lemma_pow2_adds(1, 209);
    lemma_pow2_strictly_increases(210, 253);
    vstd::arithmetic::power2::lemma2_to64();
    law_single_difference_is_close(frame[j], frame_mean(frame));
}

/// Each value of an emphasised frame is the value less 0.97 times the one before it, the
/// first one before itself, up to rounding.
#[verifier::spinoff_prover]
pub proof fn law_emphasis_subtracts_the_value_before(frame: Seq<Single>, j: int)
    requires
        0 <= j < frame.len(),
        is_modest(frame[j]),
        is_modest(frame[if j == 0 { 0 } else { j - 1 }]),
    ensures
        emphasised(frame)[j].finite(),
        ({
            let x = frame[j].units();
            let b = frame[if j == 0 { 0 } else { j - 1 }].units();
            0x10_0000 * distance(100 * emphasised(frame)[j].units(), 100 * x - 97 * b) <= 100 * abs(
                x,
            ) + 100 * abs(b) + 0x800_0000
        }),
{
    let u = single_one();
    lemma_pow2_pos(125);
    lemma_pow2_pos(149);
    lemma_pow2_adds(24, 125);
    lemma_pow2_strictly_increases(149, 164);
    vstd::arithmetic::power2::lemma2_to64();
    lemma_single_pattern(0x3f78_51ec, 125, 0xf8_51ec);
    let v = pow2(125) as int;
    assert(u == 0x100_0000 * v);
    let c = preemphasis().units();
    assert(100 * c == 97 * u + 48 * v);
    let before = frame[if j == 0 { 0 } else { j - 1 }];
    let b = before.units();
    let x = frame[j].units();
    let ba = abs(b);
    assert(preemphasis().times(before) == before.times(preemphasis())) by {
        let f = binary32();
        let (p, q) = (preemphasis().num(), before.num());
        assert(f.size(p) * f.size(q) == f.size(q) * f.size(p)) by (nonlinear_arith);
    }
    lemma_product(before, preemphasis());
    let p = before.times(preemphasis()).units();
    let pu = p * u;
    let bc = b * c;
    let bu = b * u;
    let bv = b * v;
    let bav = ba * v;
    assert(100 * bc == 97 * bu + 48 * bv) by (nonlinear_arith)
        requires
            bc == b * c,
            bu == b * u,
            bv == b * v,
            100 * c == 97 * u + 48 * v,
    ;
    assert(abs(bc) <= ba * u && abs(bv) == bav && ba * u == 0x100_0000 * bav) by (nonlinear_arith)
        requires
            bc == b * c,
            bv == b * v,
            bav == ba * v,
            ba == (if b < 0 { -b } else { b }),
            abs(bc) == (if bc < 0 { -bc } else { bc }),
            abs(bv) == (if bv < 0 { -bv } else { bv }),
            0 <= c <= u,
            u == 0x100_0000 * v,
            v > 0,
    ;
    assert(0x80_0000 * distance(pu, bc) <= 0x100_0000 * bav + 0x80_0000 * u);
    assert(distance(pu, bc) <= 2 * bav + u);
    assert(distance(100 * pu, 97 * bu) <= 248 * bav + 100 * u);
    // without the unit
    let e = distance(100 * p, 97 * b);
    assert(0x100_0000 * e <= 248 * ba + 0x6400_0000) by (nonlinear_arith)
        requires
            distance(100 * pu, 97 * bu) <= 248 * bav + 100 * u,
            distance(100 * pu, 97 * bu) == (if 100 * pu <= 97 * bu { 97 * bu - 100 * pu } else {
                100 * pu - 97 * bu
            }),
            e == (if 100 * p <= 97 * b { 97 * b - 100 * p } else { 100 * p - 97 * b }),
            pu == p * u,
            bu == b * u,
            bav == ba * v,
            u == 0x100_0000 * v,
            v > 0,
    ;
    lemma_pow2_adds(2, 209);
    lemma_pow2_strictly_increases(211, 253);
    lemma_pow2_pos(209);
    assert(abs(p) <= 2 * ba + 1);
    assert(pow2(209) >= 1);
    assert(abs(x - p) <= 4 * pow2(209)) by {
        assert(100 * abs(p) <= 97 * ba + e);
    }
    law_single_difference_is_close(frame[j], preemphasis().times(before));
}

/// Each value of a weighted frame is the value times its window weight, up to rounding.
pub proof fn law_window_multiplies_each_value(frame: Seq<Single>, window: Seq<Single>, j: int)
    requires
        0 <= j < frame.len(),
        is_modest(frame[j]),
        window[j].finite(),
        abs(window[j].units()) <= 2 * single_one(),
    ensures
        weighted(frame, window).len() == frame.len(),
        weighted(frame, window)[j].finite(),
        0x80_0000 * distance(
            weighted(frame, window)[j].units() * single_one(),
            frame[j].units() * window[j].units(),
        ) <= abs(frame[j].units() * window[j].units()) + 0x80_0000 * single_one(),
{
    lemma_pow2_adds(1, 149);
    lemma_pow2_strictly_increases(150, 164);
    vstd::arithmetic::power2::lemma2_to64();
    lemma_product(frame[j], window[j]);
}

/// A padded frame is the frame and zeros.
pub proof fn law_padding_appends_zeros(frame: Seq<Single>)
    requires
        frame.len() <= PADDED_WINDOW_SIZE,
    ensures
        padded(frame) =~= frame + Seq::new(
            (PADDED_WINDOW_SIZE - frame.len()) as nat,
            |j: int| Single::zero_spec(),
        ),
{
}

} // verus!
