//! What taking the mean from every band does to the features.

use vstd::arithmetic::power2::{lemma_pow2_adds, lemma_pow2_pos, pow2};
use vstd::prelude::*;
use crate::cluster::hungarian::sums::{is_selection, lemma_picked_all, lemma_selection_is_full, picked, sum};
use crate::embed::fbank::{arranged, band_column, band_mean, is_finished, without_means};
use crate::embed::fbank_laws::frame_row;
use crate::embed::options::{FBANK_FRAMES, FBANK_NUM_MELS};
use crate::float::arith::abs;
use crate::float::error_single::{law_mean_is_close, law_single_difference_is_close, lemma_sum_bounded, mean_error, narrowed_mean, single_limit, single_units};
use crate::float::grid::distance;
use crate::float::Single;

verus! {

/// The exact values of band `m` in all frames.
pub open spec fn band_values(features: Seq<Single>, frames: nat, m: int) -> Seq<int> {
    Seq::new(frames, |f: int| features[f * FBANK_NUM_MELS + m].units())
}

/// Features of so many frames, finite and of at most `most` units.
pub open spec fn are_moderate(features: Seq<Single>, frames: nat, most: int) -> bool {
    &&& 0 < frames <= 0x4_0000_0000_0000
    &&& features.len() == frames * FBANK_NUM_MELS
    &&& most <= pow2(274)
    &&& forall|t: int|
        0 <= t < features.len() ==> (#[trigger] features[t]).finite() && abs(features[t].units())
            <= most
}

/// `2^52` times the error of a feature less the mean of `n` of at most `most` units: a
/// few units in the last of 24 digits of the largest.
pub open spec fn centring_error(n: int, most: int) -> int {
    mean_error(n, most) + 0x4000_0000 * (most + 1)
}

/// The arithmetic of the error.
proof fn lemma_centring(n: int, most: int, x: int, mean: int, r: int, total: int)
    requires
        0 < n <= 0x4_0000_0000_0000,
        0 <= most,
        abs(x) <= most,
        abs(total) <= n * most,
        0x10_0000_0000_0000 * distance(n * mean, total) <= n * mean_error(n, most),
        0xff_ffff * distance(r, x - mean) <= abs(x - mean),
    ensures
        abs(x - mean) <= 3 * most + 2,
        0x10_0000_0000_0000 * distance(n * r, n * x - total) <= n * centring_error(n, most),
{
    let e = mean_error(n, most);
    let nm = n * most;
    assert(n * most <= 0x4_0000_0000_0000 * most) by (nonlinear_arith)
        requires
            n <= 0x4_0000_0000_0000,
            most >= 0,
    ;
    assert(e == 0x2000_0000 * most + 2 * nm + 0x10_0000_0000_0000) by (nonlinear_arith)
        requires
            e == (0x2000_0000 + 2 * n) * most + 0x10_0000_0000_0000,
            nm == n * most,
    ;
    assert(0 <= e <= 0xa_0000_0000_0000 * most + 0x10_0000_0000_0000);
    let a = abs(mean);
    let na = n * a;
    assert(abs(n * mean) == na) by (nonlinear_arith)
        requires
            na == n * a,
            a == (if mean < 0 { -mean } else { mean }),
            abs(n * mean) == (if n * mean < 0 { -(n * mean) } else { n * mean }),
            n > 0,
    ;
    let ne = n * e;
    assert(0x10_0000_0000_0000 * na <= 0x10_0000_0000_0000 * nm + ne);
    assert(0x10_0000_0000_0000 * a <= 0x10_0000_0000_0000 * most + e) by (nonlinear_arith)
        requires
            0x10_0000_0000_0000 * na <= 0x10_0000_0000_0000 * nm + ne,
            na == n * a,
            nm == n * most,
            ne == n * e,
            n > 0,
    ;
    assert(a <= 2 * most + 1);
    let d = distance(r, x - mean);
    assert(0x10_0000_0000_0000 * d <= 0x4000_0000 * (most + 1));
    let nd = n * d;
    assert(distance(n * r, n * x - n * mean) == nd) by (nonlinear_arith)
        requires
            nd == n * d,
            d == (if r <= x - mean { x - mean - r } else { r - (x - mean) }),
            distance(n * r, n * x - n * mean) == (if n * r <= n * x - n * mean {
                n * x - n * mean - n * r
            } else {
                n * r - (n * x - n * mean)
            }),
            n > 0,
    ;
    assert(0x10_0000_0000_0000 * nd <= n * (0x4000_0000 * (most + 1))) by (nonlinear_arith)
        requires
            nd == n * d,
            0x10_0000_0000_0000 * d <= 0x4000_0000 * (most + 1),
            n > 0,
    ;
    assert(n * centring_error(n, most) == ne + n * (0x4000_0000 * (most + 1))) by (nonlinear_arith)
        requires
            ne == n * e,
            centring_error(n, most) == e + 0x4000_0000 * (most + 1),
    ;
}

/// Every feature loses the exact mean of its band over all frames, up to rounding.
pub proof fn law_feature_loses_its_mean(
    features: Seq<Single>,
    frames: nat,
    most: int,
    f: int,
    m: int,
)
    requires
        are_moderate(features, frames, most),
        0 <= f < frames,
        0 <= m < FBANK_NUM_MELS,
    ensures
        0 <= f * FBANK_NUM_MELS + m < features.len(),
        ({
            let r = without_means(features, frames)[f * FBANK_NUM_MELS + m];
            &&& r.finite()
            &&& 0x10_0000_0000_0000 * distance(
                frames * r.units(),
                frames * features[f * FBANK_NUM_MELS + m].units() - sum(
                    band_values(features, frames, m),
                ),
            ) <= frames * centring_error(frames as int, most)
        }),
{
    let own = Seq::new(frames, |g: int| features[g * FBANK_NUM_MELS + m]);
    let wide = band_column(features, frames, m);
    assert forall|g: int| 0 <= g < frames implies (#[trigger] own[g]).finite() && abs(
        own[g].units(),
    ) <= most && wide[g] == own[g].widened() by {
        let t = g * FBANK_NUM_MELS + m;
        assert(0 <= t < features.len());
        assert(features[t].finite());
    }
    assert forall|g: int| 0 <= g < frames implies #[trigger] wide[g] == own[g].widened() by {
        assert(own[g].finite());
    }
    law_mean_is_close(own, wide, most);
    let t = f * FBANK_NUM_MELS + m;
    assert(t % FBANK_NUM_MELS as int == m);
    assert(0 <= t < features.len());
    let mean = narrowed_mean(wide);
    assert(band_mean(features, frames, m).narrowed() == mean);
    assert(single_units(own) =~= band_values(features, frames, m));
    let total = sum(band_values(features, frames, m));
    let x = features[t];
    assert(x.finite());
    assert forall|g: int| 0 <= g < single_units(own).len() implies abs(
        #[trigger] single_units(own)[g],
    ) <= most by {
        assert(abs(own[g].units()) <= most);
    }
    lemma_sum_bounded(single_units(own), most);
    lemma_pow2_adds(274, 2);
    lemma_pow2_adds(23, 253);
    lemma_pow2_pos(274);
    vstd::arithmetic::power2::lemma2_to64();
    assert(single_limit() == 4 * pow2(274));
    lemma_centring(
        frames as int,
        most,
        x.units(),
        mean.units(),
        x.units() - mean.units(),
        total,
    );
    assert(3 * most + 2 <= single_limit()) by {
        lemma_pow2_adds(1, 273);
        lemma_pow2_pos(273);
    }
    law_single_difference_is_close(x, mean);
    let r = x.minus(mean);
    lemma_centring(frames as int, most, x.units(), mean.units(), r.units(), total);
    assert(without_means(features, frames)[t] == r);
}

/// A sum of `n r - n x + total` over all positions.
proof fn lemma_sum_centred(r: Seq<int>, x: Seq<int>, n: int, total: int, d: Seq<int>)
    requires
        r.len() == x.len() == d.len(),
        forall|i: int| 0 <= i < d.len() ==> #[trigger] d[i] == n * r[i] - n * x[i] + total,
    ensures
        sum(d) == n * sum(r) - n * sum(x) + d.len() * total,
    decreases d.len(),
{
    if d.len() > 0 {
        let r1 = r.drop_last();
        let x1 = x.drop_last();
        let d1 = d.drop_last();
        assert forall|i: int| 0 <= i < d1.len() implies #[trigger] d1[i] == n * r1[i] - n * x1[i]
            + total by {
            assert(d[i] == n * r[i] - n * x[i] + total);
        }
        lemma_sum_centred(r1, x1, n, total, d1);
        let k = d.len() as int;
        assert(d[k - 1] == n * r[k - 1] - n * x[k - 1] + total);
        let (a, b, c, e) = (sum(r1), sum(x1), r.last(), x.last());
        assert(n * (a + c) - n * (b + e) + k * total == (n * a - n * b + (k - 1) * total) + (n * c - n
            * e + total)) by (nonlinear_arith);
    } else {
        assert(n * 0 - n * 0 + 0 * total == 0) by (nonlinear_arith);
    }
}

/// Over all frames the centred features of a band add up to nothing, up to rounding:
/// so many frames times a few units in the last place of the largest feature.
pub proof fn law_centred_bands_add_up_to_nothing(
    features: Seq<Single>,
    frames: nat,
    most: int,
    m: int,
)
    requires
        are_moderate(features, frames, most),
        0 <= m < FBANK_NUM_MELS,
    ensures
        0x10_0000_0000_0000 * abs(
            sum(band_values(without_means(features, frames), frames, m)),
        ) <= frames * centring_error(frames as int, most),
{
    let n = frames as int;
    let c = 0x10_0000_0000_0000int;
    let x = band_values(features, frames, m);
    let r = band_values(without_means(features, frames), frames, m);
    let total = sum(x);
    let d = Seq::new(frames, |f: int| n * r[f] - n * x[f] + total);
    let e = n * centring_error(n, most);
    let scaled = Seq::new(frames, |f: int| d[f] * c);
    assert forall|f: int| 0 <= f < scaled.len() implies abs(#[trigger] scaled[f]) <= e by {
        law_feature_loses_its_mean(features, frames, most, f, m);
        assert(scaled[f] == d[f] * c);
    }
    lemma_sum_bounded(scaled, e);
    crate::float::error_single::lemma_sum_scaled(d, scaled, c);
    lemma_sum_centred(r, x, n, total, d);
    let s = sum(r);
    assert(sum(d) == n * s);
    assert(c * abs(s) <= e) by (nonlinear_arith)
        requires
            abs((n * s) * c) <= n * e,
            abs((n * s) * c) == (if (n * s) * c < 0 { -((n * s) * c) } else { (n * s) * c }),
            abs(s) == (if s < 0 { -s } else { s }),
            n > 0,
            c > 0,
    ;
}

/// A sum does not depend on the order of its terms.
pub proof fn lemma_sum_permuted(f: Seq<int>, g: Seq<int>, order: Seq<int>)
    requires
        order.len() == f.len() == g.len(),
        is_selection(order, f.len() as int),
        forall|i: int| 0 <= i < g.len() ==> #[trigger] g[i] == f[order[i]],
    ensures
        sum(g) == sum(f),
{
    lemma_sum_is_picked(f, g, order);
    lemma_selection_is_full(order, f.len() as int);
    assert forall|j: int| 0 <= j < f.len() && !order.contains(j) implies #[trigger] f[j] == 0 by {
        assert(order.contains(j));
    }
    lemma_picked_all(f, order);
}

proof fn lemma_sum_is_picked(f: Seq<int>, g: Seq<int>, order: Seq<int>)
    requires
        order.len() == g.len(),
        forall|i: int| 0 <= i < g.len() ==> #[trigger] g[i] == f[order[i]],
    ensures
        sum(g) == picked(f, order),
    decreases g.len(),
{
    if g.len() > 0 {
        let h = g.drop_last();
        let o = order.drop_last();
        assert forall|i: int| 0 <= i < h.len() implies #[trigger] h[i] == f[o[i]] by {
            assert(g[i] == f[order[i]]);
        }
        lemma_sum_is_picked(f, h, o);
        assert(g[g.len() - 1] == f[order[g.len() - 1]]);
    }
}

/// The order of the frames is of no account: with the frames in another order, the
/// centred frames come in that order, up to rounding.
pub proof fn law_frame_order_is_of_no_account(
    features: Seq<Single>,
    permuted: Seq<Single>,
    order: Seq<int>,
    frames: nat,
    most: int,
    f: int,
    m: int,
)
    requires
        are_moderate(features, frames, most),
        are_moderate(permuted, frames, most),
        order.len() == frames,
        is_selection(order, frames as int),
        forall|g: int|
            0 <= g < frames ==> frame_row(permuted, g) == frame_row(features, #[trigger] order[g]),
        0 <= f < frames,
        0 <= m < FBANK_NUM_MELS,
    ensures
        0x10_0000_0000_0000 * distance(
            frames * without_means(permuted, frames)[f * FBANK_NUM_MELS + m].units(),
            frames * without_means(features, frames)[order[f] * FBANK_NUM_MELS + m].units(),
        ) <= 2 * (frames * centring_error(frames as int, most)),
{
    let x = band_values(features, frames, m);
    let y = band_values(permuted, frames, m);
    assert forall|i: int| 0 <= i < y.len() implies #[trigger] y[i] == x[order[i]] by {
        assert(0 <= order[i] < frames);
        assert(frame_row(permuted, i)[m] == permuted[i * FBANK_NUM_MELS + m]);
        assert(frame_row(features, order[i])[m] == features[order[i] * FBANK_NUM_MELS + m]);
    }
    lemma_sum_permuted(x, y, order);
    assert(0 <= order[f] < frames);
    law_feature_loses_its_mean(permuted, frames, most, f, m);
    law_feature_loses_its_mean(features, frames, most, order[f], m);
    assert(y[f] == x[order[f]]);
}

/// The exact values of band `m` of finished features.
pub open spec fn finished_band(r: Seq<[Single; FBANK_NUM_MELS]>, m: int) -> Seq<int> {
    Seq::new(r.len(), |f: int| r[f]@[m].units())
}

/// The bands of finished features add up to nothing over all their frames, up to
/// rounding.
pub proof fn law_finished_bands_add_up_to_nothing(
    r: Seq<[Single; FBANK_NUM_MELS]>,
    features: Seq<Single>,
    most: int,
    m: int,
)
    requires
        is_finished(r, features),
        0 <= most <= pow2(274),
        forall|t: int|
            0 <= t < features.len() ==> (#[trigger] features[t]).finite() && abs(
                features[t].units(),
            ) <= most,
        0 <= m < FBANK_NUM_MELS,
    ensures
        0x10_0000_0000_0000 * abs(sum(finished_band(r, m))) <= FBANK_FRAMES * centring_error(
            FBANK_FRAMES as int,
            most,
        ),
{
    let all = arranged(features, features.len() / FBANK_NUM_MELS as nat);
    crate::float::arith::lemma_zero_units(24);
    assert forall|t: int| 0 <= t < all.len() implies (#[trigger] all[t]).finite() && abs(
        all[t].units(),
    ) <= most by {
        assert(Single::zero_spec().finite() && Single::zero_spec().units() == 0);
    }
    law_centred_bands_add_up_to_nothing(all, FBANK_FRAMES as nat, most, m);
    assert(finished_band(r, m) =~= band_values(
        without_means(all, FBANK_FRAMES as nat),
        FBANK_FRAMES as nat,
        m,
    ));
}

} // verus!
