//! What the formulas of an iteration do, in exact arithmetic, and that they treat all
//! frames, speakers and dimensions alike.

use vstd::arithmetic::power2::{lemma_pow2_adds, lemma_pow2_pos, lemma_pow2_strictly_increases, pow2};
use vstd::prelude::*;
use crate::cluster::hungarian::sums::sum;
use crate::cluster::vbx::em::{column, column_sums, frame_constants_of, inverses, likelihoods, means, moments, scaled, transposed};
use crate::float::arith::abs;
use crate::float::error::{law_added_is_close, law_product_is_close, law_root_is_close, lemma_one, lemma_root_arith, limit, one, sizes_of, units_of};
use crate::float::grid::distance;
use crate::float::Double;
use crate::matrix::{Grid, lemma_tabulated_cell};

verus! {

/// The arithmetic of the square of a scaled feature.
#[verifier::spinoff_prover]
proof fn lemma_scaled_arith(x: int, p: int, s: int, r: int, u: int)
    requires
        u > 0,
        p > 0,
        s >= 0,
        0x4_0000_0000_0000 * distance(s * s, p * u) <= p * u,
        0x20_0000_0000_0000 * distance(r * u, x * s) <= (abs(r) + 0x10_0000_0000_0000) * u,
    ensures
        0x4_0000_0000_0000 * distance((r * r) * u, (x * x) * p) <= (r * r) * u + (x * x) * p
            + 0x8_0000_0000_0000 * ((abs(r) + 1) * u),
{
    let a = r * u;
    let b = x * s;
    let aa = a * a;
    let bb = b * b;
    let far = distance(a, b);
    let ra = abs(r);
    let au = ra * u;
    assert(abs(a) == au) by (nonlinear_arith)
        requires
            a == r * u,
            au == ra * u,
            ra == (if r < 0 { -r } else { r }),
            abs(a) == (if a < 0 { -a } else { a }),
            u > 0,
    ;
    assert((ra + 0x10_0000_0000_0000) * u == au + 0x10_0000_0000_0000 * u) by (nonlinear_arith)
        requires
            au == ra * u,
    ;
    // far <= au / 2^53 + u / 2
    let fa = far * au;
    let ff = far * far;
    assert(distance(aa, bb) <= 2 * fa + ff) by (nonlinear_arith)
        requires
            aa == a * a,
            bb == b * b,
            fa == far * au,
            ff == far * far,
            au == (if a < 0 { -a } else { a }),
            far == (if a <= b { b - a } else { a - b }),
            distance(aa, bb) == (if aa <= bb { bb - aa } else { aa - bb }),
    ;
    let uau = u * au;
    let uu = u * u;
    assert(0 <= uau && 0 <= uu && 0 <= aa && au * au == aa) by (nonlinear_arith)
        requires
            uau == u * au,
            uu == u * u,
            aa == a * a,
            au == (if a < 0 { -a } else { a }),
            u > 0,
    ;
    assert(0x20_0000_0000_0000 * fa <= aa + 0x10_0000_0000_0000 * uau) by (nonlinear_arith)
        requires
            0x20_0000_0000_0000 * far <= au + 0x10_0000_0000_0000 * u,
            fa == far * au,
            au * au == aa,
            uau == u * au,
            au >= 0,
    ;
    assert(far <= au + u);
    let fu = far * u;
    assert(0x20_0000_0000_0000 * ff <= fa + 0x10_0000_0000_0000 * fu) by (nonlinear_arith)
        requires
            0x20_0000_0000_0000 * far <= au + 0x10_0000_0000_0000 * u,
            ff == far * far,
            fa == far * au,
            fu == far * u,
            far >= 0,
    ;
    assert(0x20_0000_0000_0000 * fu <= uau + 0x10_0000_0000_0000 * uu) by (nonlinear_arith)
        requires
            0x20_0000_0000_0000 * far <= au + 0x10_0000_0000_0000 * u,
            fu == far * u,
            uau == u * au,
            uu == u * u,
            u > 0,
    ;
    // 2^50 |aa - bb| <= aa + 2^51 (u au + u u)
    let d1 = distance(aa, bb);
    assert(0x4_0000_0000_0000 * d1 <= aa + 0x8_0000_0000_0000 * uau + 0x8_0000_0000_0000 * uu);
    // the square of the root
    let xx = x * x;
    let ss = s * s;
    let pu = p * u;
    assert(bb == xx * ss) by (nonlinear_arith)
        requires
            bb == b * b,
            b == x * s,
            xx == x * x,
            ss == s * s,
    ;
    let xpu = xx * pu;
    let d2 = distance(bb, xpu);
    assert(0x4_0000_0000_0000 * d2 <= xpu) by (nonlinear_arith)
        requires
            0x4_0000_0000_0000 * distance(ss, pu) <= pu,
            distance(ss, pu) == (if ss <= pu { pu - ss } else { ss - pu }),
            d2 == (if bb <= xpu { xpu - bb } else { bb - xpu }),
            bb == xx * ss,
            xpu == xx * pu,
            xx == x * x,
    ;
    let d3 = distance(aa, xpu);
    let rr = r * r;
    let rru = rr * u;
    let xp = xx * p;
    assert(aa == rru * u) by (nonlinear_arith)
        requires
            aa == a * a,
            a == r * u,
            rru == rr * u,
            rr == r * r,
    ;
    assert(xpu == xp * u) by (nonlinear_arith)
        requires
            xpu == xx * pu,
            pu == p * u,
            xp == xx * p,
    ;
    assert(uau + uu == ((ra + 1) * u) * u) by (nonlinear_arith)
        requires
            uau == u * au,
            au == ra * u,
            uu == u * u,
    ;
    let e = (ra + 1) * u;
    let d = distance(rru, xp);
    assert(d3 == d * u) by (nonlinear_arith)
        requires
            aa == rru * u,
            xpu == xp * u,
            d3 == (if aa <= xpu { xpu - aa } else { aa - xpu }),
            d == (if rru <= xp { xp - rru } else { rru - xp }),
            u > 0,
    ;
    assert(0x4_0000_0000_0000 * d <= rru + xp + 0x8_0000_0000_0000 * e) by (nonlinear_arith)
        requires
            0x4_0000_0000_0000 * (d * u) <= rru * u + xp * u + 0x8_0000_0000_0000 * (e * u),
            u > 0,
    ;
}

/// A number of at most `2^400`.
pub open spec fn is_moderate(x: Double) -> bool {
    x.finite() && abs(x.units()) <= pow2(1474)
}

/// In every column, the square of a scaled feature is that of the feature times the
/// eigenvalue of the column, up to rounding, and it keeps the sign.
pub proof fn law_squares_scale_by_the_eigenvalue(x: Grid, phi: Seq<Double>, t: int, d: int)
    requires
        phi.len() == x.width,
        0 <= t < x.height,
        0 <= d < x.width,
        is_moderate(x.at(t, d)),
        is_moderate(phi[d]),
        phi[d].units() > 0,
    ensures
        scaled(x, phi).height == x.height,
        scaled(x, phi).width == x.width,
        ({
            let r = scaled(x, phi).at(t, d);
            let a = x.at(t, d).units();
            let p = phi[d].units();
            &&& r.finite()
            &&& r.num().negative == x.at(t, d).num().negative
            &&& 0x4_0000_0000_0000 * distance(
                (r.units() * r.units()) * one(),
                (a * a) * p,
            ) <= (r.units() * r.units()) * one() + (a * a) * p + 0x8_0000_0000_0000 * ((abs(
                r.units(),
            ) + 1) * one())
        }),
{
    lemma_tabulated_cell(
        x.height,
        x.width,
        |t: int, d: int| x.at(t, d).times(phi[d].root()),
        t,
        d,
    );
    let v = x.at(t, d);
    let p = phi[d];
    let u = one();
    lemma_one();
    law_root_is_close(p);
    let s = p.root();
    assert(p.units() * u >= 0) by (nonlinear_arith)
        requires
            p.units() > 0,
            u > 0,
    ;
    lemma_root_arith(s.units(), p.units() * u);
    // the product stays in range
    lemma_pow2_adds(1474, 1074);
    lemma_pow2_adds(1, 2548);
    lemma_pow2_adds(1275, 1275);
    lemma_pow2_strictly_increases(2549, 2550);
    lemma_pow2_adds(1474, 1275);
    lemma_pow2_adds(2045, 1074);
    lemma_pow2_strictly_increases(2749, 3119);
    lemma_pow2_pos(1275);
    lemma_pow2_pos(1474);
    vstd::arithmetic::power2::lemma2_to64();
    let big = pow2(1275) as int;
    let w = p.units() * u;
    assert(w <= pow2(2548)) by (nonlinear_arith)
        requires
            w == p.units() * u,
            p.units() <= pow2(1474),
            u == pow2(1074),
            u > 0,
            pow2(2548) == pow2(1474) * pow2(1074),
    ;
    let ss = s.units() * s.units();
    assert(ss <= big * big);
    assert(s.units() <= big) by (nonlinear_arith)
        requires
            ss == s.units() * s.units(),
            ss <= big * big,
            big > 0,
            s.units() >= 0,
    ;
    let xa = v.units();
    let xs = xa * s.units();
    assert(abs(xs) <= pow2(1474) * big) by (nonlinear_arith)
        requires
            xs == xa * s.units(),
            abs(xa) <= pow2(1474),
            abs(xa) == (if xa < 0 { -xa } else { xa }),
            abs(xs) == (if xs < 0 { -xs } else { xs }),
            0 <= s.units() <= big,
    ;
    assert(pow2(3119) <= limit() * u) by (nonlinear_arith)
        requires
            limit() == 0x10_0000_0000_0000 * pow2(2045),
            pow2(3119) == pow2(2045) * pow2(1074),
            u == pow2(1074),
            pow2(2045) * pow2(1074) >= 0,
    ;
    law_product_is_close(v, s);
    crate::float::double::lemma_double_format();
    let r = v.times(s);
    assert(!s.num().negative) by {
        crate::float::error::lemma_sizes(crate::float::double::binary64(), s.num());
    }
    lemma_scaled_arith(xa, p.units(), s.units(), r.units(), u);
}

/// `b` holds the columns of `a` in the given order.
pub open spec fn has_columns(b: Grid, a: Grid, order: Seq<int>) -> bool {
    &&& b.height == a.height
    &&& b.width == order.len()
    &&& forall|i: int, j: int|
        0 <= i < b.height && 0 <= j < b.width ==> #[trigger] b.at(i, j) == a.at(i, order[j])
}

/// `b` holds the rows of `a` in the given order.
pub open spec fn has_rows(b: Grid, a: Grid, order: Seq<int>) -> bool {
    &&& b.width == a.width
    &&& b.height == order.len()
    &&& forall|i: int, j: int|
        0 <= i < b.height && 0 <= j < b.width ==> #[trigger] b.at(i, j) == a.at(order[i], j)
}

/// `b` holds the numbers of `a` in the given order.
pub open spec fn has_entries<T>(b: Seq<T>, a: Seq<T>, order: Seq<int>) -> bool {
    &&& b.len() == order.len()
    &&& forall|i: int| 0 <= i < b.len() ==> #[trigger] b[i] == a[order[i]]
}

/// All columns are scaled alike: with the dimensions of features and eigenvalues in
/// another order (or some of them left out or repeated), the scaled features come in
/// that order.
pub proof fn law_scaling_treats_columns_alike(
    x: Grid,
    phi: Seq<Double>,
    y: Grid,
    psi: Seq<Double>,
    order: Seq<int>,
)
    requires
        phi.len() == x.width,
        forall|k: int| 0 <= k < order.len() ==> 0 <= #[trigger] order[k] < x.width,
        has_columns(y, x, order),
        has_entries(psi, phi, order),
    ensures
        has_columns(scaled(y, psi), scaled(x, phi), order),
{
    let a = scaled(x, phi);
    let b = scaled(y, psi);
    assert forall|t: int, k: int| 0 <= t < b.height && 0 <= k < b.width implies #[trigger] b.at(t, k)
        == a.at(t, order[k]) by {
        lemma_tabulated_cell(
            y.height,
            y.width,
            |t: int, d: int| y.at(t, d).times(psi[d].root()),
            t,
            k,
        );
        assert(0 <= order[k] < x.width);
        lemma_tabulated_cell(
            x.height,
            x.width,
            |t: int, d: int| x.at(t, d).times(phi[d].root()),
            t,
            order[k],
        );
        assert(y.at(t, k) == x.at(t, order[k]));
        assert(psi[k] == phi[order[k]]);
    }
}

/// All frames are scaled alike.
pub proof fn law_scaling_treats_frames_alike(x: Grid, phi: Seq<Double>, y: Grid, order: Seq<int>)
    requires
        phi.len() == x.width,
        forall|k: int| 0 <= k < order.len() ==> 0 <= #[trigger] order[k] < x.height,
        has_rows(y, x, order),
    ensures
        has_rows(scaled(y, phi), scaled(x, phi), order),
{
    let a = scaled(x, phi);
    let b = scaled(y, phi);
    assert forall|t: int, k: int| 0 <= t < b.height && 0 <= k < b.width implies #[trigger] b.at(t, k)
        == a.at(order[t], k) by {
        lemma_tabulated_cell(
            y.height,
            y.width,
            |t: int, d: int| y.at(t, d).times(phi[d].root()),
            t,
            k,
        );
        assert(0 <= order[t] < x.height);
        lemma_tabulated_cell(
            x.height,
            x.width,
            |t: int, d: int| x.at(t, d).times(phi[d].root()),
            order[t],
            k,
        );
        assert(y.at(t, k) == x.at(order[t], k));
    }
}

/// Transposing exchanges rows and columns.
pub proof fn law_transposing_exchanges(m: Grid, i: int, j: int)
    requires
        0 <= i < m.height,
        0 <= j < m.width,
    ensures
        transposed(m).height == m.width,
        transposed(m).width == m.height,
        transposed(m).at(j, i) == m.at(i, j),
{
    lemma_tabulated_cell(m.width, m.height, |i: int, j: int| m.at(j, i), j, i);
}

/// The exact values of column `j`.
pub open spec fn column_units(m: Grid, j: int) -> Seq<int> {
    Seq::new(m.height, |i: int| m.at(i, j).units())
}

/// The weight of a speaker is the sum of the responsibilities of all frames for it, up to
/// rounding.
pub proof fn law_column_sums_are_close(m: Grid, j: int)
    requires
        0 <= j < m.width,
        m.height <= 0x8_0000_0000_0000,
        forall|i: int| 0 <= i < m.height ==> (#[trigger] m.at(i, j)).finite(),
        2 * sum(sizes_of(column_units(m, j))) <= limit(),
    ensures
        column_sums(m).len() == m.width,
        column_sums(m)[j].finite(),
        0x10_0000_0000_0000 * distance(column_sums(m)[j].units(), sum(column_units(m, j)))
            <= m.height * sum(sizes_of(column_units(m, j))),
{
    let c = column(m, j);
    assert(units_of(c) =~= column_units(m, j));
    let n = m.height as int;
    assert(units_of(c).take(n) =~= units_of(c));
    assert(sizes_of(units_of(c)).take(n) =~= sizes_of(units_of(c)));
    assert forall|i: int| 0 <= i < n implies (#[trigger] c[i]).finite() by {
        assert(m.at(i, j).finite());
    }
    crate::float::double::lemma_double_format();
    crate::float::arith::lemma_zero_units(53);
    law_added_is_close(Double::zero_spec(), c, m.height);
}

/// The inverse precisions treat all speakers and all dimensions alike.
pub proof fn law_precisions_treat_all_alike(
    gamma: Grid,
    phi: Seq<Double>,
    delta: Grid,
    psi: Seq<Double>,
    ratio: Double,
    speakers: Seq<int>,
    dims: Seq<int>,
    s: int,
    d: int,
)
    requires
        forall|k: int| 0 <= k < speakers.len() ==> 0 <= #[trigger] speakers[k] < gamma.width,
        forall|k: int| 0 <= k < dims.len() ==> 0 <= #[trigger] dims[k] < phi.len(),
        has_columns(delta, gamma, speakers),
        has_entries(psi, phi, dims),
        0 <= s < speakers.len(),
        0 <= d < dims.len(),
    ensures
        inverses(delta, psi, ratio).at(s, d) == inverses(gamma, phi, ratio).at(
            speakers[s],
            dims[d],
        ),
{
    lemma_tabulated_cell(
        delta.width,
        psi.len(),
        |s: int, d: int|
            crate::cluster::vbx::em::inverse_precision(ratio, column_sums(delta)[s], psi[d]),
        s,
        d,
    );
    assert(0 <= speakers[s] < gamma.width && 0 <= dims[d] < phi.len());
    lemma_tabulated_cell(
        gamma.width,
        phi.len(),
        |s: int, d: int|
            crate::cluster::vbx::em::inverse_precision(ratio, column_sums(gamma)[s], phi[d]),
        speakers[s],
        dims[d],
    );
    assert(column(delta, s) =~= column(gamma, speakers[s])) by {
        assert forall|i: int| 0 <= i < delta.height implies column(delta, s)[i] == column(
            gamma,
            speakers[s],
        )[i] by {
            assert(delta.at(i, s) == gamma.at(i, speakers[s]));
        }
    }
}

/// Speaker means and second moments are found cell by cell, in the same way in all cells.
pub proof fn law_means_treat_all_alike(
    inv_l: Grid,
    product: Grid,
    other_inv: Grid,
    other_product: Grid,
    ratio: Double,
    s: int,
    d: int,
    t: int,
    e: int,
)
    requires
        0 <= s < inv_l.height,
        0 <= d < inv_l.width,
        0 <= t < other_inv.height,
        0 <= e < other_inv.width,
        inv_l.at(s, d) == other_inv.at(t, e),
        product.at(s, d) == other_product.at(t, e),
    ensures
        means(inv_l, product, ratio).at(s, d) == means(other_inv, other_product, ratio).at(t, e),
        moments(inv_l, product).at(s, d) == moments(other_inv, other_product).at(t, e),
{
    lemma_tabulated_cell(
        inv_l.height,
        inv_l.width,
        |s: int, d: int| ratio.times(inv_l.at(s, d)).times(product.at(s, d)),
        s,
        d,
    );
    lemma_tabulated_cell(
        other_inv.height,
        other_inv.width,
        |s: int, d: int| ratio.times(other_inv.at(s, d)).times(other_product.at(s, d)),
        t,
        e,
    );
    lemma_tabulated_cell(
        inv_l.height,
        inv_l.width,
        |s: int, d: int| inv_l.at(s, d).plus(product.at(s, d).times(product.at(s, d))),
        s,
        d,
    );
    lemma_tabulated_cell(
        other_inv.height,
        other_inv.width,
        |s: int, d: int|
            other_inv.at(s, d).plus(other_product.at(s, d).times(other_product.at(s, d))),
        t,
        e,
    );
}

/// The log-likelihoods treat all frames and all speakers alike.
pub proof fn law_likelihoods_treat_all_alike(
    fit: Grid,
    spreads: Seq<Double>,
    constants: Seq<Double>,
    log_priors: Seq<Double>,
    other_fit: Grid,
    other_spreads: Seq<Double>,
    other_constants: Seq<Double>,
    other_priors: Seq<Double>,
    fa: Double,
    t: int,
    s: int,
    u: int,
    r: int,
)
    requires
        0 <= t < fit.height,
        0 <= s < fit.width,
        0 <= u < other_fit.height,
        0 <= r < other_fit.width,
        fit.at(t, s) == other_fit.at(u, r),
        spreads[s] == other_spreads[r],
        constants[t] == other_constants[u],
        log_priors[s] == other_priors[r],
    ensures
        likelihoods(fit, spreads, constants, log_priors, fa).at(t, s) == likelihoods(
            other_fit,
            other_spreads,
            other_constants,
            other_priors,
            fa,
        ).at(u, r),
{
    lemma_tabulated_cell(
        fit.height,
        fit.width,
        |t: int, s: int|
            crate::cluster::vbx::em::log_likelihood(
                fa,
                fit.at(t, s),
                spreads[s],
                constants[t],
                log_priors[s],
            ),
        t,
        s,
    );
    lemma_tabulated_cell(
        other_fit.height,
        other_fit.width,
        |t: int, s: int|
            crate::cluster::vbx::em::log_likelihood(
                fa,
                other_fit.at(t, s),
                other_spreads[s],
                other_constants[t],
                other_priors[s],
            ),
        u,
        r,
    );
}

/// The frame constants treat all frames alike.
pub proof fn law_constants_treat_frames_alike(
    squares: Seq<Double>,
    other: Seq<Double>,
    order: Seq<int>,
    dims: nat,
    log_2pi: Double,
)
    requires
        forall|k: int| 0 <= k < order.len() ==> 0 <= #[trigger] order[k] < squares.len(),
        has_entries(other, squares, order),
    ensures
        has_entries(
            frame_constants_of(other, dims, log_2pi),
            frame_constants_of(squares, dims, log_2pi),
            order,
        ),
{
    assert forall|i: int| 0 <= i < order.len() implies #[trigger] frame_constants_of(
        other,
        dims,
        log_2pi,
    )[i] == frame_constants_of(squares, dims, log_2pi)[order[i]] by {
        assert(0 <= order[i] < squares.len());
        assert(other[i] == squares[order[i]]);
    }
}

} // verus!
