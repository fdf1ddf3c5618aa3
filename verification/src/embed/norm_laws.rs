//! What the norm of a vector and its direction are, in exact arithmetic.

use vstd::arithmetic::power2::{lemma_pow2_adds, lemma_pow2_pos, lemma_pow2_strictly_increases, pow2};
use vstd::prelude::*;
use crate::cluster::hungarian::sums::sum;
use crate::embed::types::{direction, norm, squares};
use crate::float::arith::abs;
use crate::float::double::{binary64, lemma_double_format};
use crate::float::error::{law_added_is_close, lemma_one, lemma_sizes, limit, one, sizes_of, units_of};
use crate::float::error_single::{law_narrowing_is_close, law_single_quotient_is_close, lemma_sum_bounded, lemma_sum_scaled, single_limit, widening};
use crate::float::exact::lemma_square_exact;
use crate::float::grid::distance;
use crate::float::relative::{is_near, lemma_near_chain, lemma_near_scaled, lemma_usual_root};
use crate::float::single::{binary32, lemma_single_format};
use crate::float::sums::added;
use crate::float::{Double, Single};

verus! {

/// The exact squares of the components.
pub open spec fn exact_squares(a: Seq<Single>) -> Seq<int> {
    Seq::new(a.len(), |i: int| a[i].units() * a[i].units())
}

/// Components of at most `2^60`.
pub open spec fn are_modest(a: Seq<Single>) -> bool {
    forall|i: int| 0 <= i < a.len() ==> (#[trigger] a[i]).finite() && abs(a[i].units()) <= pow2(209)
}

/// A sum of sizes of numbers that are not negative.
proof fn lemma_sizes_same(s: Seq<int>)
    requires
        forall|i: int| 0 <= i < s.len() ==> #[trigger] s[i] >= 0,
    ensures
        sizes_of(s) =~= s,
        sum(s) >= 0,
    decreases s.len(),
{
    if s.len() > 0 {
        let a = s.drop_last();
        assert forall|i: int| 0 <= i < a.len() implies #[trigger] a[i] >= 0 by {
            assert(s[i] >= 0);
        }
        lemma_sizes_same(a);
        assert(s[s.len() - 1] >= 0);
    }
}

/// The sum of the squares before the root is taken.
proof fn lemma_sum_of_squares(a: Seq<Single>)
    requires
        0 < a.len() <= 0x1_0000,
        are_modest(a),
    ensures
        ({
            let s = added(Double::minus_zero_spec(), squares(a), a.len());
            let total = sum(exact_squares(a));
            &&& s.finite()
            &&& 0 <= total <= 0x1_0000 * pow2(418)
            &&& is_near(s.units(), total * pow2(776), 0x4000)
        }),
{
    let q = squares(a);
    let e = exact_squares(a);
    let n = a.len() as int;
    let k = pow2(776) as int;
    lemma_pow2_pos(776);
    lemma_pow2_pos(418);
    lemma_pow2_adds(209, 209);
    lemma_double_format();
    lemma_single_format();
    let wide = units_of(q);
    assert forall|i: int| 0 <= i < n implies (#[trigger] wide[i]) == e[i] * k && q[i].finite() && 0
        <= e[i] <= pow2(418) by {
        assert(a[i].finite());
        lemma_square_exact(a[i]);
        let (x, z) = (a[i].units(), binary32().size(a[i].num()));
        assert(x * x == z * z) by (nonlinear_arith)
            requires
                x == z || x == -z,
        ;
        assert(0 <= x * x <= pow2(418)) by (nonlinear_arith)
            requires
                -pow2(209) <= x <= pow2(209),
                pow2(418) == pow2(209) * pow2(209),
        ;
        assert(z * z * k == (z * z) * k);
    }
    assert forall|i: int| 0 <= i < e.len() implies #[trigger] e[i] >= 0 by {
        assert(wide[i] == e[i] * k);
    }
    assert forall|i: int| 0 <= i < e.len() implies abs(#[trigger] e[i]) <= pow2(418) by {
        assert(wide[i] == e[i] * k);
    }
    assert forall|i: int| 0 <= i < wide.len() implies #[trigger] wide[i] >= 0 by {
        assert(wide[i] == e[i] * k);
        assert(e[i] * k >= 0) by (nonlinear_arith)
            requires
                e[i] >= 0,
                k >= 0,
        ;
    }
    lemma_sizes_same(e);
    lemma_sizes_same(wide);
    lemma_sum_scaled(e, wide, k);
    lemma_sum_bounded(e, pow2(418) as int);
    let total = sum(e);
    let most = pow2(418) as int;
    assert(total <= 0x1_0000 * most) by (nonlinear_arith)
        requires
            total <= n * most,
            n <= 0x1_0000,
            most >= 0,
    ;
    let t = total * k;
    lemma_pow2_adds(418, 776);
    lemma_pow2_strictly_increases(1194, 2045);
    assert(t <= 0x1_0000 * (most * k)) by (nonlinear_arith)
        requires
            t == total * k,
            total <= 0x1_0000 * most,
            k > 0,
    ;
    assert(2 * t <= limit());
    assert(wide.take(n) =~= wide);
    assert(sizes_of(wide).take(n) =~= sizes_of(wide));
    assert forall|i: int| 0 <= i < n implies (#[trigger] q[i]).finite() by {
        assert(wide[i] == e[i] * k);
    }
    crate::float::arith::lemma_zero_units(53);
    assert(Double::minus_zero_spec().units() == 0);
    law_added_is_close(Double::minus_zero_spec(), q, a.len());
    let s = added(Double::minus_zero_spec(), q, a.len()).units();
    assert(n * t <= 0x1_0000 * t) by (nonlinear_arith)
        requires
            n <= 0x1_0000,
            t >= 0,
    ;
}

/// Squares of close numbers are close.
proof fn lemma_close_squares(a: int, r: int)
    requires
        0 <= a,
        0 <= r,
        0x40_0000 * distance(a, r) <= r,
    ensures
        0x10_0000 * distance(a * a, r * r) <= r * r,
{
    let d = distance(a, r);
    let (aa, rr) = (a * a, r * r);
    assert(distance(aa, rr) == d * (a + r)) by (nonlinear_arith)
        requires
            aa == a * a,
            rr == r * r,
            d == (if a <= r { r - a } else { a - r }),
            distance(aa, rr) == (if aa <= rr { rr - aa } else { aa - rr }),
            0 <= a,
            0 <= r,
    ;
    assert(0x10_0000 * (d * (a + r)) <= rr) by (nonlinear_arith)
        requires
            0x40_0000 * d <= r,
            0 <= d,
            a <= r + d,
            rr == r * r,
            0 <= a,
            0 <= r,
    ;
}

/// The square of the norm is the exact sum of the squares of all components, up to
/// rounding.
#[verifier::spinoff_prover]
pub proof fn law_norm_is_the_euclidean_length(a: Seq<Single>)
    requires
        0 < a.len() <= 0x1_0000,
        are_modest(a),
        pow2(49) <= norm(a).units(),
    ensures
        norm(a).finite(),
        0x4_0000 * distance(norm(a).units() * norm(a).units(), sum(exact_squares(a))) <= sum(
            exact_squares(a),
        ),
{
    lemma_sum_of_squares(a);
    let s = added(Double::minus_zero_spec(), squares(a), a.len());
    let total = sum(exact_squares(a));
    let u = one();
    lemma_one();
    let k = pow2(776) as int;
    let w = widening();
    lemma_pow2_pos(776);
    lemma_pow2_pos(925);
    lemma_pow2_pos(49);
    lemma_double_format();
    lemma_single_format();
    let m = norm(a).units();
    if s.units() == 0 {
        lemma_sizes(binary64(), s.num());
        lemma_small_norm(s);
    }
    lemma_usual_root(s);
    let r = s.root().units();
    let rr = r * r;
    let su = s.units() * u;
    let tk = total * k;
    lemma_near_scaled(s.units(), tk, u, 0x4000);
    lemma_near_chain(rr, su, tk * u, 1, 0x4000);
    let ww = w * w;
    lemma_pow2_adds(925, 925);
    lemma_pow2_adds(776, 1074);
    assert(tk * u == total * ww) by (nonlinear_arith)
        requires
            tk == total * k,
            ww == k * u,
    ;
    let tw = total * ww;
    // the root is in the range of single precision
    let most = pow2(418) as int;
    lemma_pow2_pos(418);
    lemma_pow2_adds(17, 418);
    lemma_pow2_adds(435, 1850);
    lemma_pow2_adds(253, 925);
    lemma_pow2_adds(1178, 1178);
    lemma_pow2_strictly_increases(2285, 2356);
    vstd::arithmetic::power2::lemma2_to64();
    vstd::arithmetic::power2::lemma2_to64_rest();
    assert(ww > 0) by (nonlinear_arith)
        requires
            ww == w * w,
            w > 0,
    ;
    assert(2 * tw <= pow2(2285)) by (nonlinear_arith)
        requires
            tw == total * ww,
            total <= 0x1_0000 * most,
            ww == pow2(1850),
            pow2(435) == 0x2_0000 * most,
            pow2(2285) == pow2(435) * pow2(1850),
            ww > 0,
    ;
    assert(0x4002 * tw <= 0x8000 * tw);
    assert(rr <= 2 * tw);
    let cap = pow2(1178) as int;
    lemma_pow2_pos(1178);
    assert(r <= cap) by (nonlinear_arith)
        requires
            r * r <= cap * cap,
            cap > 0,
            r >= 0,
    ;
    assert(single_limit() * w >= cap) by (nonlinear_arith)
        requires
            single_limit() == 0x80_0000 * pow2(253),
            cap == pow2(253) * w,
            w > 0,
            pow2(253) >= 0,
    ;
    law_narrowing_is_close(s.root());
    let mw = m * w;
    assert((abs(m) + 0x80_0000) * w == mw + 0x80_0000 * w) by (nonlinear_arith)
        requires
            mw == m * w,
            abs(m) == m,
    ;
    assert(mw >= 0x1000_0000_0000 * w) by (nonlinear_arith)
        requires
            mw == m * w,
            m >= 0x1000_0000_0000,
            w > 0,
    ;
    assert(0x40_0000 * distance(mw, r) <= r);
    lemma_close_squares(mw, r);
    let mm = m * m;
    assert(mw * mw == mm * ww) by (nonlinear_arith)
        requires
            mw == m * w,
            mm == m * m,
            ww == w * w,
    ;
    let mmw = mm * ww;
    assert(0x4_0000 * distance(mmw, tw) <= tw);
    assert(0x4_0000 * distance(mm, total) <= total) by (nonlinear_arith)
        requires
            0x4_0000 * distance(mmw, tw) <= tw,
            distance(mmw, tw) == (if mmw <= tw { tw - mmw } else { mmw - tw }),
            distance(mm, total) == (if mm <= total { total - mm } else { mm - total }),
            mmw == mm * ww,
            tw == total * ww,
            ww > 0,
    ;
}

/// The norm of nothing is nothing.
proof fn lemma_small_norm(s: Double)
    requires
        s.finite(),
        s.units() == 0,
    ensures
        s.root().narrowed().units() == 0,
{
    lemma_double_format();
    lemma_single_format();
    lemma_sizes(binary64(), s.num());
    crate::float::order::lemma_of_num(s.num());
    assert(s.root() == Double::of(s.num()));
    let x = s.root();
    assert(x.units() == 0);
    lemma_pow2_pos(253);
    lemma_pow2_pos(925);
    assert(single_limit() * widening() >= 0) by (nonlinear_arith)
        requires
            single_limit() >= 0,
            widening() >= 0,
    ;
    law_narrowing_is_close(x);
    let m = x.narrowed().units();
    let w = widening();
    let ma = abs(m);
    assert(m == 0) by (nonlinear_arith)
        requires
            0x100_0000 * distance(m * w, 0) <= (ma + 0x80_0000) * w,
            distance(m * w, 0) == (if m * w <= 0 { -(m * w) } else { m * w }),
            ma == (if m < 0 { -m } else { m }),
            w > 0,
    ;
}

/// A direction is the vector divided by its norm: each component times the norm is the
/// component before, up to rounding.
pub proof fn law_direction_divides_by_the_norm(a: Seq<Single>, i: int)
    requires
        0 <= i < a.len(),
        are_modest(a),
        norm(a).finite(),
        pow2(109) <= norm(a).units(),
    ensures
        direction(a)[i].finite(),
        0x100_0000 * distance(
            direction(a)[i].units() * norm(a).units(),
            a[i].units() * pow2(149),
        ) <= (abs(direction(a)[i].units()) + 0x80_0000) * norm(a).units(),
{
    assert(a[i].finite());
    lemma_pow2_pos(109);
    lemma_pow2_adds(209, 149);
    lemma_pow2_adds(253, 109);
    lemma_pow2_strictly_increases(358, 362);
    lemma_pow2_pos(253);
    let x = abs(a[i].units());
    let n = norm(a).units();
    assert(x * pow2(149) <= single_limit() * n) by (nonlinear_arith)
        requires
            0 <= x <= pow2(209),
            n >= pow2(109),
            pow2(358) == pow2(209) * pow2(149),
            pow2(362) == pow2(253) * pow2(109),
            pow2(358) < pow2(362),
            single_limit() == 0x80_0000 * pow2(253),
            pow2(253) > 0,
            pow2(149) >= 0,
    ;
    law_single_quotient_is_close(a[i], norm(a));
}

} // verus!
