//! What the Hamming window and its aggregate are, in exact arithmetic.

use vstd::arithmetic::power2::{lemma_pow2_adds, lemma_pow2_pos, lemma_pow2_strictly_increases, pow2};
use vstd::prelude::*;
use crate::aggregate::count::start_frame;
use crate::aggregate::hamming::{weighted_sum, window_angle, window_weight};
use crate::cluster::hungarian::sums::sum;
use crate::float::arith::abs;
use crate::float::double::lemma_double_format;
use crate::float::error::{law_difference_is_close, law_product_is_close, lemma_one, limit, one, sizes_of};
use crate::float::error_terms::{added_where, is_moderate, is_term, law_kept_terms_add_up, lemma_product_term, terms_error};
use crate::float::grid::distance;
use crate::float::nearest::lemma_pattern;
use crate::float::order::lemma_natural_exact;
use crate::float::relative::{is_near, lemma_near_chain, lemma_near_divided, lemma_near_scaled, lemma_usual_product, lemma_usual_quotient};
use crate::float::Double;

verus! {

/// The window weight is `0.54 - 0.46 cos`, up to rounding.
#[verifier::spinoff_prover]
pub proof fn law_window_weight_is_raised_cosine(cosine: Double)
    requires
        cosine.finite(),
        abs(cosine.units()) <= one(),
    ensures
        window_weight(cosine).finite(),
        0x800_0000_0000 * distance(
            100 * window_weight(cosine).units(),
            54 * one() - 46 * cosine.units(),
        ) <= one(),
{
    let u = one();
    lemma_one();
    let x = Double { bits: 0x3fe1_47ae_147a_e148 };
    let y = Double { bits: 0x3fdd_70a3_d70a_3d71 };
    lemma_pattern(0x3fe1_47ae_147a_e148, 1021, 0x11_47ae_147a_e148);
    lemma_pattern(0x3fdd_70a3_d70a_3d71, 1020, 0x1d_70a3_d70a_3d71);
    let v = pow2(1020) as int;
    lemma_pow2_pos(1020);
    lemma_pow2_adds(1, 1020);
    lemma_pow2_adds(54, 1020);
    lemma_pow2_strictly_increases(62, 1020);
    lemma_pow2_strictly_increases(1074, 2045);
    vstd::arithmetic::power2::lemma2_to64();
    vstd::arithmetic::power2::lemma2_to64_rest();
    assert(u == 0x40_0000_0000_0000 * v) by (nonlinear_arith)
        requires
            u == pow2(54) * v,
            pow2(54) == 0x40_0000_0000_0000,
    ;
    assert(pow2(1021) == 2 * v) by (nonlinear_arith)
        requires
            pow2(1021) == pow2(1) * v,
            pow2(1) == 2,
    ;
    let a = x.units();
    let b = y.units();
    let c = cosine.units();
    assert(a == 0x22_8f5c_28f5_c290 * v) by (nonlinear_arith)
        requires
            a == 0x11_47ae_147a_e148 * pow2(1021),
            pow2(1021) == 2 * v,
    ;
    assert(b == 0x1d_70a3_d70a_3d71 * v);
    assert(100 * a == 54 * u + 64 * v);
    assert(100 * b == 46 * u + 36 * v);
    let bc = b * c;
    let vc = v * c;
    let uc = u * c;
    assert(abs(bc) <= u * u && abs(vc) <= v * u) by (nonlinear_arith)
        requires
            bc == b * c,
            vc == v * c,
            abs(bc) == (if bc < 0 { -bc } else { bc }),
            abs(vc) == (if vc < 0 { -vc } else { vc }),
            -u <= c <= u,
            0 <= b <= u,
            0 <= v,
    ;
    assert(u * u <= limit() * u) by (nonlinear_arith)
        requires
            u <= limit(),
            u >= 0,
    ;
    law_product_is_close(y, cosine);
    let p = y.times(cosine).units();
    let pu = p * u;
    let pa = abs(p);
    let pau = pa * u;
    let vu = v * u;
    let uu = u * u;
    assert((pa + 0x10_0000_0000_0000) * u == pau + 0x10_0000_0000_0000 * u) by (nonlinear_arith)
        requires
            pau == pa * u,
    ;
    assert(abs(pu) == pau) by (nonlinear_arith)
        requires
            pau == pa * u,
            pu == p * u,
            pa == (if p < 0 { -p } else { p }),
            abs(pu) == (if pu < 0 { -pu } else { pu }),
            u > 0,
    ;
    assert(uu == 0x40_0000_0000_0000 * vu) by (nonlinear_arith)
        requires
            uu == u * u,
            vu == v * u,
            u == 0x40_0000_0000_0000 * v,
    ;
    assert(vu >= 0x10_0000_0000_0000 * u) by (nonlinear_arith)
        requires
            vu == v * u,
            v >= 0x10_0000_0000_0000,
            u > 0,
    ;
    // the product is small
    assert(pau <= 2 * uu);
    assert(pa <= 2 * u) by (nonlinear_arith)
        requires
            pau <= 2 * uu,
            pau == pa * u,
            uu == u * u,
            u > 0,
    ;
    assert(100 * bc == 46 * uc + 36 * vc) by (nonlinear_arith)
        requires
            bc == b * c,
            uc == u * c,
            vc == v * c,
            100 * b == 46 * u + 36 * v,
    ;
    assert(0x20_0000_0000_0000 * distance(pu, bc) <= pau + vu);
    assert(distance(pu, bc) <= 5 * vu);
    assert(distance(100 * pu, 46 * uc) <= 536 * vu);
    assert(distance(100 * p, 46 * c) <= 536 * v) by (nonlinear_arith)
        requires
            distance(100 * pu, 46 * uc) <= 536 * vu,
            distance(100 * pu, 46 * uc) == (if 100 * pu <= 46 * uc { 46 * uc - 100 * pu } else {
                100 * pu - 46 * uc
            }),
            distance(100 * p, 46 * c) == (if 100 * p <= 46 * c { 46 * c - 100 * p } else { 100 * p
                - 46 * c }),
            pu == p * u,
            uc == u * c,
            vu == v * u,
            u > 0,
    ;
    law_difference_is_close(x, y.times(cosine));
    let w = window_weight(cosine).units();
    assert(distance(w, a - p) <= 7 * v);
}

/// The exact value of `2 pi` as the window has it.
pub open spec fn turn() -> int {
    0x19_21fb_5444_2d18 * (pow2(1024) as int)
}

/// The window angles divide the full turn evenly: an angle times the steps of the window
/// is the turn times the index of the frame, up to rounding; the first angle is zero.
#[verifier::spinoff_prover]
pub proof fn law_window_angles_are_even(n: nat, frames: nat)
    requires
        0 < n < frames < 0x100_0000_0000,
    ensures
        window_angle(n, frames).finite(),
        is_near(window_angle(n, frames).units() * (frames - 1), turn() * n, 3),
        6_283_185_307 * one() <= 1_000_000_000 * turn() <= 6_283_185_308 * one(),
{
    let u = one();
    lemma_one();
    let x = Double { bits: 0x4019_21fb_5444_2d18 };
    lemma_pattern(0x4019_21fb_5444_2d18, 1024, 0x19_21fb_5444_2d18);
    let m = (frames - 1) as nat;
    lemma_natural_exact(n);
    lemma_natural_exact(m);
    let t = turn();
    let p = pow2(1024) as int;
    lemma_pow2_pos(1024);
    lemma_pow2_adds(50, 1024);
    lemma_pow2_adds(53, 1024);
    vstd::arithmetic::power2::lemma2_to64();
    vstd::arithmetic::power2::lemma2_to64_rest();
    assert(u == 0x4_0000_0000_0000 * p) by (nonlinear_arith)
        requires
            u == pow2(50) * p,
            pow2(50) == 0x4_0000_0000_0000,
    ;
    assert(t == 0x19_21fb_5444_2d18 * p);
    let nu = n * u;
    let tn = t * n;
    lemma_pow2_adds(1074, 1074);
    lemma_pow2_strictly_increases(1200, 2148);
    lemma_pow2_adds(43, 2148);
    lemma_pow2_strictly_increases(2191, 3100);
    assert(u <= t <= 8 * u);
    assert(t * nu == tn * u) by (nonlinear_arith)
        requires
            nu == n * u,
            tn == t * n,
    ;
    assert(u * u <= t * nu) by (nonlinear_arith)
        requires
            u <= t,
            nu == n * u,
            n >= 1,
            u > 0,
    ;
    assert(t * nu <= 0x800_0000_0000 * (u * u)) by (nonlinear_arith)
        requires
            0 <= t <= 8 * u,
            nu == n * u,
            n <= 0x100_0000_0000,
            u > 0,
    ;
    assert(pow2(2191) == 0x800_0000_0000 * (u * u)) by (nonlinear_arith)
        requires
            pow2(2191) == pow2(43) * pow2(2148),
            pow2(43) == 0x800_0000_0000,
            pow2(2148) == u * u,
    ;
    lemma_usual_product(x, Double::natural(n));
    let z = x.times(Double::natural(n));
    lemma_near_divided(z.units(), tn, u, 1);
    let a = z.units();
    assert(u <= tn <= 0x800_0000_0000 * u) by (nonlinear_arith)
        requires
            tn == t * n,
            u <= t <= 8 * u,
            1 <= n < 0x100_0000_0000,
            u > 0,
    ;
    assert(1 * tn == tn);
    let mu = m * u;
    lemma_pow2_strictly_increases(1074, 2045);
    assert(a * u <= limit() * mu) by (nonlinear_arith)
        requires
            0 <= a <= 0x10_0000_0000_0000 * u,
            limit() >= 0x10_0000_0000_0000 * u,
            mu == m * u,
            m >= 1,
            u > 0,
    ;
    lemma_pow2_strictly_increases(105, 1074);
    lemma_pow2_adds(64, 41);
    assert(a * u >= pow2(64) * mu) by (nonlinear_arith)
        requires
            2 * a >= u,
            mu == m * u,
            m < 0x100_0000_0000,
            u > pow2(105),
            pow2(105) == pow2(64) * pow2(41),
            pow2(41) == 0x200_0000_0000,
            pow2(64) > 0,
    ;
    assert(mu > 0) by (nonlinear_arith)
        requires
            mu == m * u,
            m >= 1,
            u > 0,
    ;
    lemma_usual_quotient(z, Double::natural(m));
    let q = z.over(Double::natural(m)).units();
    lemma_near_scaled(a, tn, u, 1);
    lemma_near_chain(q * mu, a * u, tn * u, 1, 1);
    assert(q * mu == (q * m) * u) by (nonlinear_arith)
        requires
            mu == m * u,
    ;
    lemma_near_divided(q * m, tn, u, 3);
}

/// What chunk `c` contributes to output frame `t`, exactly: its value there times the
/// window weight, where the chunk holds the frame.
pub open spec fn contributions(
    values: Seq<Double>,
    cosines: Seq<Double>,
    chunk_step: Double,
    frame_step: Double,
    n: nat,
    t: int,
) -> Seq<int> {
    Seq::new(
        n,
        |c: int|
            {
                let start = start_frame(c as nat, chunk_step, frame_step);
                if start <= t < start + cosines.len() {
                    values[c * cosines.len() + (t - start)].units() * window_weight(
                        cosines[t - start],
                    ).units()
                } else {
                    0
                }
            },
    )
}

/// The products that are added up, and where they are.
proof fn lemma_weighted_is_kept(
    values: Seq<Double>,
    cosines: Seq<Double>,
    chunk_step: Double,
    frame_step: Double,
    products: Seq<Double>,
    kept: Seq<bool>,
    n: nat,
    t: int,
)
    requires
        n <= products.len() == kept.len(),
        forall|c: int|
            0 <= c < products.len() ==> #[trigger] kept[c] == {
                let start = start_frame(c as nat, chunk_step, frame_step);
                start <= t < start + cosines.len()
            },
        forall|c: int|
            0 <= c < products.len() ==> #[trigger] products[c] == {
                let f = t - start_frame(c as nat, chunk_step, frame_step);
                values[c * cosines.len() + f].times(window_weight(cosines[f]))
            },
    ensures
        weighted_sum(values, cosines, chunk_step, frame_step, n, t) == added_where(
            Double::zero_spec(),
            products,
            kept,
            n,
        ),
    decreases n,
{
    if n > 0 {
        let m = (n - 1) as nat;
        lemma_weighted_is_kept(
            values,
            cosines,
            chunk_step,
            frame_step,
            products,
            kept,
            m,
            t,
        );
        let f = t - start_frame(m, chunk_step, frame_step);
        assert(kept[m as int] == (0 <= f < cosines.len()));
        assert(products[m as int] == values[m * cosines.len() + f].times(window_weight(cosines[f])));
    }
}

/// An aggregated frame is the exact sum of what the chunks that hold it contribute, up
/// to rounding.
pub proof fn law_aggregate_adds_all_contributions(
    values: Seq<Double>,
    cosines: Seq<Double>,
    chunk_step: Double,
    frame_step: Double,
    n: nat,
    t: int,
)
    requires
        n <= 0x100_0000_0000,
        values.len() == n * cosines.len(),
        forall|i: int| 0 <= i < values.len() ==> is_moderate(#[trigger] values[i]),
        forall|f: int|
            0 <= f < cosines.len() ==> (#[trigger] cosines[f]).finite() && abs(cosines[f].units())
                <= one(),
    ensures
        ({
            let r = weighted_sum(values, cosines, chunk_step, frame_step, n, t);
            let exact = contributions(values, cosines, chunk_step, frame_step, n, t);
            &&& r.finite()
            &&& 0x4_0000_0000_0000 * distance(r.units() * one(), sum(exact)) <= terms_error(
                n as int,
                sum(sizes_of(exact)),
            )
        }),
{
    let exact = contributions(values, cosines, chunk_step, frame_step, n, t);
    let width = cosines.len() as int;
    let kept = Seq::new(
        n,
        |c: int|
            {
                let start = start_frame(c as nat, chunk_step, frame_step);
                start <= t < start + width
            },
    );
    let products = Seq::new(
        n,
        |c: int|
            {
                let f = t - start_frame(c as nat, chunk_step, frame_step);
                values[c * width + f].times(window_weight(cosines[f]))
            },
    );
    lemma_pow2_strictly_increases(2948, 2950);
    assert forall|c: int| 0 <= c < exact.len() && kept[c] implies is_term(
        #[trigger] products[c],
        exact[c],
    ) && abs(exact[c]) <= pow2(2950) by {
        let f = t - start_frame(c as nat, chunk_step, frame_step);
        crate::cluster::hungarian::sums::lemma_index(n as int, width, c, f);
        assert(is_moderate(values[c * width + f]));
        assert(cosines[f].finite());
        law_window_weight_is_raised_cosine(cosines[f]);
        lemma_pow2_adds(7, 1074);
        lemma_pow2_strictly_increases(1081, 1474);
        lemma_one();
        vstd::arithmetic::power2::lemma2_to64();
        assert(is_moderate(window_weight(cosines[f])));
        lemma_product_term(values[c * width + f], window_weight(cosines[f]));
    }
    assert forall|c: int| 0 <= c < exact.len() && !kept[c] implies #[trigger] exact[c] == 0 by {}
    lemma_weighted_is_kept(values, cosines, chunk_step, frame_step, products, kept, n, t);
    lemma_double_format();
    crate::float::arith::lemma_zero_units(53);
    law_kept_terms_add_up(Double::zero_spec(), products, kept, exact);
}

} // verus!
