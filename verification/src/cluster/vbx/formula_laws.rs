//! What the formulas of one iteration are, in exact arithmetic.

use vstd::arithmetic::power2::{lemma_pow2_adds, lemma_pow2_pos, lemma_pow2_strictly_increases, pow2};
use vstd::prelude::*;
use crate::cluster::hungarian::sums::sum as total_of;
use crate::cluster::vbx::em::{bound_term, bound_terms, frame_constant, half, inverse_precision, log_likelihood, lower_bound, means, moments, normalised, sum_of};
use crate::float::about::{is_about, is_within, lemma_about_difference, lemma_about_itself, lemma_about_product, lemma_about_scaled, lemma_about_sum, lemma_about_wider, lemma_within_product, lemma_within_sum, lemma_within_wider};
use crate::float::arith::abs;
use crate::float::error::{law_added_is_close, lemma_one, lemma_sizes_sum, limit, one, sizes_of, units_of};
use crate::float::error_single::{lemma_sum_bounded, lemma_sum_scaled, lemma_sums_close};
use crate::float::grid::distance;
use crate::float::nearest::{lemma_one_number, lemma_pattern};
use crate::float::order::lemma_natural_exact;
use crate::float::relative::{is_near, is_plain, lemma_near_back, lemma_near_chain, lemma_near_same, lemma_near_scaled, lemma_near_sum, lemma_near_wider, lemma_usual_product, lemma_usual_quotient, lemma_usual_sum};
use crate::float::sums::{added, sum};
use crate::float::Double;
use crate::matrix::{Grid, lemma_tabulated_cell};

verus! {

/// Half of one, in units.
pub open spec fn half_unit() -> int {
    pow2(1073) as int
}

/// What a rounding near the smallest number adds to a bound.
pub open spec fn speck() -> int {
    0x4_0000_0000_0000 * one()
}

/// The constant one half.
proof fn lemma_half()
    ensures
        half().finite(),
        half().units() == half_unit(),
        half().negated().finite(),
        half().negated().units() == -half_unit(),
        one() == 2 * half_unit(),
        half_unit() > 0,
        is_within(half(), 1074),
        is_within(half().negated(), 1074),
{
    assert(1021 * 0x10_0000_0000_0000 + 0x10_0000_0000_0000 == 0x3fe0_0000_0000_0000);
    lemma_pattern(0x3fe0_0000_0000_0000, 1021, 0x10_0000_0000_0000);
    lemma_pow2_adds(52, 1021);
    lemma_pow2_adds(1, 1073);
    lemma_pow2_pos(1073);
    vstd::arithmetic::power2::lemma2_to64();
    vstd::arithmetic::power2::lemma2_to64_rest();
    crate::float::double::lemma_double_format();
    let n = half().num();
    crate::float::order::lemma_of_num(
        crate::float::arith::Num { negative: !n.negative, magnitude: n.magnitude },
    );
    assert(pow2(1074) == 2 * pow2(1073)) by (nonlinear_arith)
        requires
            pow2(1074) == pow2(1) * pow2(1073),
            pow2(1) == 2,
    ;
}

/// A number on the scale of a product.
proof fn lemma_on_scale(x: Double, s: int, k: int)
    requires
        s > 0,
        0 <= k <= 0x100_0000_0000,
    ensures
        is_about(x.units(), s, x.units() * s, abs(x.units()) * s, k),
{
    lemma_about_itself(x);
    lemma_about_scaled(x.units(), 1, x.units(), abs(x.units()), 0, s);
    assert(1 * s == s);
    let m = abs(x.units()) * s;
    lemma_about_wider(x.units(), s, x.units() * s, m, 0, m, k);
}

/// A product of two numbers as they are.
proof fn lemma_plain_product(a: Double, b: Double)
    requires
        is_within(a, 1174),
        is_within(b, 1174),
    ensures
        is_within(a.times(b), 1276),
        is_about(
            a.times(b).units(),
            one(),
            a.units() * b.units(),
            abs(a.units()) * abs(b.units()) + speck(),
            1,
        ),
{
    lemma_within_product(a, b, 1174, 1174, 1275);
    lemma_about_itself(a);
    lemma_about_itself(b);
    lemma_about_product(
        a,
        b,
        1,
        a.units(),
        abs(a.units()),
        0,
        1,
        b.units(),
        abs(b.units()),
        0,
    );
    assert(one() * (1 * 1) == one());
}

/// A mean is the ratio times the inverse precision times the product, up to rounding.
pub proof fn law_mean_is_a_product(inv_l: Grid, product: Grid, ratio: Double, s: int, d: int)
    requires
        0 <= s < inv_l.height,
        0 <= d < inv_l.width,
        is_within(ratio, 1174),
        is_within(inv_l.at(s, d), 1174),
        is_within(product.at(s, d), 1174),
    ensures
        ({
            let (r, i, p) = (ratio.units(), inv_l.at(s, d).units(), product.at(s, d).units());
            is_about(
                means(inv_l, product, ratio).at(s, d).units(),
                one() * one(),
                (r * i) * p,
                (abs(r) * abs(i) + speck()) * abs(p) + one() * speck(),
                2,
            )
        }),
{
    let (i, p) = (inv_l.at(s, d), product.at(s, d));
    lemma_tabulated_cell(
        inv_l.height,
        inv_l.width,
        |s: int, d: int| ratio.times(inv_l.at(s, d)).times(product.at(s, d)),
        s,
        d,
    );
    lemma_plain_product(ratio, i);
    lemma_within_product(ratio.times(i), p, 1276, 1174, 1377);
    lemma_about_itself(p);
    let m = abs(ratio.units()) * abs(i.units()) + speck();
    let e = ratio.units() * i.units();
    lemma_about_product(
        ratio.times(i),
        p,
        one(),
        e,
        m,
        1,
        1,
        p.units(),
        abs(p.units()),
        0,
    );
    let u = one();
    assert(u * (u * 1) == u * u && 0x4_0000_0000_0000 * (u * u) == u * (0x4_0000_0000_0000 * u))
        by (nonlinear_arith);
}

/// A second moment is the inverse precision and the square of the mean, up to rounding.
pub proof fn law_moment_adds_the_square(inv_l: Grid, alpha: Grid, s: int, d: int)
    requires
        0 <= s < inv_l.height,
        0 <= d < inv_l.width,
        is_within(inv_l.at(s, d), 1174),
        is_within(alpha.at(s, d), 1174),
    ensures
        ({
            let (i, a) = (inv_l.at(s, d).units(), alpha.at(s, d).units());
            is_about(
                moments(inv_l, alpha).at(s, d).units(),
                one(),
                i * one() + a * a,
                abs(i) * one() + (abs(a) * abs(a) + speck()),
                2,
            )
        }),
{
    let (i, a) = (inv_l.at(s, d), alpha.at(s, d));
    lemma_tabulated_cell(
        inv_l.height,
        inv_l.width,
        |s: int, d: int| inv_l.at(s, d).plus(alpha.at(s, d).times(alpha.at(s, d))),
        s,
        d,
    );
    lemma_one();
    lemma_plain_product(a, a);
    lemma_on_scale(i, one(), 1);
    lemma_within_wider(i, 1174, 1276);
    lemma_within_sum(i, a.times(a), 1276);
    lemma_about_sum(
        i,
        a.times(a),
        one(),
        i.units() * one(),
        abs(i.units()) * one(),
        a.units() * a.units(),
        abs(a.units()) * abs(a.units()) + speck(),
        1,
    );
}

/// The constant of a frame is minus half the sum of its squared length and of the
/// logarithm as often as there are dimensions, up to rounding.
pub proof fn law_frame_constant_is_minus_half(square: Double, dims: nat, log_2pi: Double)
    requires
        is_within(square, 1174),
        is_within(log_2pi, 1084),
        dims <= 0x1_0000_0000,
    ensures
        ({
            let u = one();
            let (s, d, l) = (square.units(), dims * u, log_2pi.units());
            is_about(
                frame_constant(square, dims, log_2pi).units(),
                u * u,
                -(half_unit() * (s * u + d * l)),
                half_unit() * (abs(s) * u + (d * abs(l) + speck())) + u * speck(),
                5,
            )
        }),
{
    let u = one();
    lemma_one();
    lemma_half();
    lemma_natural_exact(dims);
    let n = Double::natural(dims);
    let d = dims * u;
    assert(0 <= d <= 0x1_0000_0000 * u) by (nonlinear_arith)
        requires
            d == dims * u,
            dims <= 0x1_0000_0000,
            u > 0,
    ;
    lemma_pow2_adds(32, 1074);
    vstd::arithmetic::power2::lemma2_to64();
    lemma_pow2_strictly_increases(1106, 1174);
    lemma_within_wider(log_2pi, 1084, 1174);
    lemma_plain_product(n, log_2pi);
    let t = n.times(log_2pi);
    lemma_on_scale(square, u, 1);
    lemma_within_wider(square, 1174, 1276);
    lemma_within_sum(square, t, 1276);
    let (es, et) = (square.units() * u, d * log_2pi.units());
    let (ms, mt) = (abs(square.units()) * u, d * abs(log_2pi.units()) + speck());
    lemma_about_sum(square, t, u, es, ms, et, mt, 1);
    let sum = square.plus(t);
    let f = half().negated();
    lemma_about_itself(f);
    lemma_within_product(f, sum, 1074, 1278, 1279);
    let h = half_unit();
    lemma_about_product(f, sum, 1, -h, h, 0, u, es + et, ms + mt, 2);
    assert(u * (1 * u) == u * u && 0x4_0000_0000_0000 * (u * u) == u * (0x4_0000_0000_0000 * u)
        && (-h) * (es + et) == -(h * (es + et))) by (nonlinear_arith);
}

/// A log-likelihood is `fa (fit - spread / 2 + constant) + log_prior`, up to rounding.
#[verifier::spinoff_prover]
pub proof fn law_log_likelihood_is_its_formula(
    fa: Double,
    fit: Double,
    spread: Double,
    constant: Double,
    log_prior: Double,
)
    requires
        is_within(fa, 1174),
        is_within(fit, 1174),
        is_within(spread, 1174),
        is_within(constant, 1174),
        is_within(log_prior, 1174),
    ensures
        ({
            let u = one();
            let h = half_unit();
            let (a, f, s, c, p) = (
                fa.units(),
                fit.units(),
                spread.units(),
                constant.units(),
                log_prior.units(),
            );
            is_about(
                log_likelihood(fa, fit, spread, constant, log_prior).units(),
                u * u,
                a * (f * u - h * s + c * u) + p * (u * u),
                abs(a) * (abs(f) * u + (h * abs(s) + speck()) + abs(c) * u) + u * speck() + abs(p)
                    * (u * u),
                8,
            )
        }),
{
    let u = one();
    let h = half_unit();
    lemma_one();
    lemma_half();
    let uu = u * u;
    assert(uu > 0) by (nonlinear_arith)
        requires
            uu == u * u,
            u > 0,
    ;
    lemma_within_wider(half(), 1074, 1174);
    lemma_plain_product(half(), spread);
    let t = half().times(spread);
    let (et, mt) = (h * spread.units(), h * abs(spread.units()) + speck());
    lemma_on_scale(fit, u, 1);
    lemma_within_wider(fit, 1174, 1276);
    lemma_within_sum(fit, t, 1276);
    let (ef, mf) = (fit.units() * u, abs(fit.units()) * u);
    lemma_about_difference(fit, t, u, ef, mf, et, mt, 1);
    let b = fit.minus(t);
    lemma_on_scale(constant, u, 2);
    lemma_within_wider(constant, 1174, 1278);
    lemma_within_sum(b, constant, 1278);
    let (ec, mc) = (constant.units() * u, abs(constant.units()) * u);
    lemma_about_sum(b, constant, u, ef - et, mf + mt, ec, mc, 2);
    let c = b.plus(constant);
    lemma_within_product(fa, c, 1174, 1280, 1381);
    lemma_about_itself(fa);
    let (e, m) = (ef - et + ec, mf + mt + mc);
    lemma_about_product(fa, c, 1, fa.units(), abs(fa.units()), 0, u, e, m, 3);
    assert(u * (1 * u) == uu && 0x4_0000_0000_0000 * uu == u * (0x4_0000_0000_0000 * u)) by (
    nonlinear_arith)
        requires
            uu == u * u,
    ;
    let d = fa.times(c);
    lemma_on_scale(log_prior, uu, 7);
    lemma_within_wider(log_prior, 1174, 1382);
    lemma_within_sum(d, log_prior, 1382);
    lemma_about_sum(
        d,
        log_prior,
        uu,
        fa.units() * e,
        abs(fa.units()) * m + u * speck(),
        log_prior.units() * uu,
        abs(log_prior.units()) * uu,
        7,
    );
}

/// One term of the lower bound is `ln inv - inv - mean^2 + 1`, up to rounding.
pub proof fn law_bound_term_is_its_formula(log_inverse: Double, inverse: Double, mean: Double)
    requires
        is_within(log_inverse, 1174),
        is_within(inverse, 1174),
        is_within(mean, 1174),
    ensures
        is_within(bound_term(log_inverse, inverse, mean), 1284),
        is_about(
            bound_term(log_inverse, inverse, mean).units(),
            one(),
            exact_term(log_inverse, inverse, mean),
            term_size(log_inverse, inverse, mean),
            3,
        ),
{
    let u = one();
    lemma_one();
    lemma_one_number();
    let (l, i) = (log_inverse, inverse);
    lemma_about_itself(l);
    lemma_about_itself(i);
    lemma_within_sum(l, i, 1174);
    let (lu, iu) = (l.units(), i.units());
    lemma_about_difference(l, i, 1, lu, abs(lu), iu, abs(iu), 0);
    let a = l.minus(i);
    lemma_about_scaled(a.units(), 1, lu - iu, abs(lu) + abs(iu), 1, u);
    assert(1 * u == u);
    lemma_plain_product(mean, mean);
    let q = mean.times(mean);
    let (em, mm) = (mean.units() * mean.units(), abs(mean.units()) * abs(mean.units()) + speck());
    lemma_within_wider(a, 1176, 1276);
    lemma_within_sum(a, q, 1276);
    let (ea, ma) = ((lu - iu) * u, (abs(lu) + abs(iu)) * u);
    lemma_about_difference(a, q, u, ea, ma, em, mm, 1);
    let b = a.minus(q);
    let unit = Double::one_spec();
    lemma_on_scale(unit, u, 2);
    assert(is_within(unit, 1074));
    lemma_within_wider(unit, 1074, 1278);
    lemma_within_sum(b, unit, 1278);
    lemma_about_sum(b, unit, u, ea - em, ma + mm, u * u, u * u, 2);
    lemma_within_wider(b.plus(unit), 1280, 1284);
}

/// The exact value of a term of the lower bound.
pub open spec fn exact_term(log_inverse: Double, inverse: Double, mean: Double) -> int {
    (log_inverse.units() - inverse.units()) * one() - mean.units() * mean.units() + one() * one()
}

/// What bounds its size.
pub open spec fn term_size(log_inverse: Double, inverse: Double, mean: Double) -> int {
    (abs(log_inverse.units()) + abs(inverse.units())) * one() + (abs(mean.units()) * abs(
        mean.units(),
    ) + speck()) + one() * one()
}

/// The exact terms of the lower bound.
pub open spec fn exact_terms(
    log_inverses: Seq<Double>,
    inverses: Seq<Double>,
    means: Seq<Double>,
) -> Seq<int> {
    Seq::new(inverses.len(), |i: int| exact_term(log_inverses[i], inverses[i], means[i]))
}

/// What bounds their sizes.
pub open spec fn term_sizes(
    log_inverses: Seq<Double>,
    inverses: Seq<Double>,
    means: Seq<Double>,
) -> Seq<int> {
    Seq::new(inverses.len(), |i: int| term_size(log_inverses[i], inverses[i], means[i]))
}

/// The terms, added up one after the other.
proof fn lemma_terms_are_added(
    log_inverses: Seq<Double>,
    inverses: Seq<Double>,
    means: Seq<Double>,
    terms: Seq<Double>,
    n: nat,
)
    requires
        n <= terms.len(),
        forall|i: int|
            0 <= i < terms.len() ==> #[trigger] terms[i] == bound_term(
                log_inverses[i],
                inverses[i],
                means[i],
            ),
    ensures
        bound_terms(log_inverses, inverses, means, n) == added(Double::zero_spec(), terms, n),
    decreases n,
{
    if n > 0 {
        lemma_terms_are_added(log_inverses, inverses, means, terms, (n - 1) as nat);
        assert(terms[n - 1] == bound_term(log_inverses[n - 1], inverses[n - 1], means[n - 1]));
    }
}

/// All numbers of a sequence lie within `2^100`.
pub open spec fn are_within(values: Seq<Double>) -> bool {
    forall|i: int| 0 <= i < values.len() ==> is_within(#[trigger] values[i], 1174)
}

/// The part of the lower bound that the speaker models make is the exact sum of the
/// terms of all cells, up to rounding.
#[verifier::spinoff_prover]
pub proof fn law_bound_adds_all_terms(
    log_inverses: Seq<Double>,
    inverses: Seq<Double>,
    means: Seq<Double>,
)
    requires
        log_inverses.len() == inverses.len() == means.len(),
        inverses.len() <= 0x40_0000_0000,
        are_within(log_inverses),
        are_within(inverses),
        are_within(means),
    ensures
        ({
            let n = inverses.len();
            is_within(bound_terms(log_inverses, inverses, means, n), 1325) && is_about(
                bound_terms(log_inverses, inverses, means, n).units(),
                one(),
                total_of(exact_terms(log_inverses, inverses, means)),
                total_of(term_sizes(log_inverses, inverses, means)),
                (n + 3) as int,
            )
        }),
{
    let n = inverses.len() as int;
    let u = one();
    lemma_one();
    let c = 0x4_0000_0000_0000int;
    let terms = Seq::new(
        n as nat,
        |i: int| bound_term(log_inverses[i], inverses[i], means[i]),
    );
    let e = exact_terms(log_inverses, inverses, means);
    let m = term_sizes(log_inverses, inverses, means);
    let v = units_of(terms);
    let z = sizes_of(v);
    let scaled = Seq::new(n as nat, |i: int| v[i] * u);
    let sizes = Seq::new(n as nat, |i: int| z[i] * u);
    let errors = Seq::new(n as nat, |i: int| m[i] * 3);
    let doubled = Seq::new(n as nat, |i: int| m[i] * 2);
    assert forall|i: int| 0 <= i < n implies {
        &&& (#[trigger] terms[i]).finite()
        &&& abs(v[i]) <= pow2(1284)
        &&& c * distance(scaled[i], e[i]) <= errors[i]
        &&& sizes[i] <= doubled[i]
        &&& abs(e[i]) <= m[i]
    } by {
        assert(is_within(log_inverses[i], 1174) && is_within(inverses[i], 1174) && is_within(
            means[i],
            1174,
        ));
        law_bound_term_is_its_formula(log_inverses[i], inverses[i], means[i]);
        let (x, y) = (v[i], m[i]);
        assert(3 * y == y * 3);
        assert(abs(x * u) == abs(x) * u) by (nonlinear_arith)
            requires
                abs(x) == (if x < 0 { -x } else { x }),
                abs(x * u) == (if x * u < 0 { -(x * u) } else { x * u }),
                u > 0,
        ;
    }
    assert forall|i: int| 0 <= i < n implies c * distance(#[trigger] scaled[i], e[i]) <= errors[i] by {
        assert(terms[i].finite());
    }
    assert forall|i: int| 0 <= i < n implies #[trigger] sizes[i] <= doubled[i] by {
        assert(terms[i].finite());
    }
    assert forall|i: int| 0 <= i < n implies abs(#[trigger] e[i]) <= m[i] by {
        assert(terms[i].finite());
    }
    assert forall|i: int| 0 <= i < n implies abs(#[trigger] v[i]) <= pow2(1284) by {
        assert(terms[i].finite());
    }
    lemma_sums_close(scaled, e, errors, c);
    lemma_sum_scaled(v, scaled, u);
    lemma_sum_scaled(z, sizes, u);
    lemma_sum_scaled(m, errors, 3);
    lemma_sum_scaled(m, doubled, 2);
    lemma_sums_ordered(sizes, doubled);
    lemma_sum_within(e, m);
    lemma_sum_bounded(v, pow2(1284) as int);
    let most = total_of(m);
    let (q, qa) = (total_of(v), total_of(z));
    lemma_pow2_pos(1284);
    lemma_pow2_adds(38, 1284);
    lemma_pow2_adds(41, 1284);
    lemma_pow2_strictly_increases(1322, 2045);
    vstd::arithmetic::power2::lemma2_to64();
    vstd::arithmetic::power2::lemma2_to64_rest();
    let top = pow2(1284) as int;
    assert(n * top <= 0x40_0000_0000 * top) by (nonlinear_arith)
        requires
            n <= 0x40_0000_0000,
            top > 0,
    ;
    assert(pow2(1322) == 0x40_0000_0000 * top && pow2(1325) == 0x200_0000_0000 * top) by (nonlinear_arith)
        requires
            pow2(1322) == pow2(38) * top,
            pow2(1325) == pow2(41) * top,
            pow2(38) == 0x40_0000_0000,
            pow2(41) == 0x200_0000_0000,
    ;
    assert(2 * qa <= limit());
    assert(v.take(n) =~= v);
    assert(z.take(n) =~= z);
    lemma_sizes_sum(v, n as nat);
    crate::float::double::lemma_double_format();
    crate::float::arith::lemma_zero_units(53);
    assert forall|i: int| 0 <= i < n implies (#[trigger] terms[i]).finite() by {}
    law_added_is_close(Double::zero_spec(), terms, n as nat);
    lemma_terms_are_added(log_inverses, inverses, means, terms, n as nat);
    let b = bound_terms(log_inverses, inverses, means, n as nat).units();
    assert(n * qa <= 0x40_0000_0000 * qa) by (nonlinear_arith)
        requires
            n <= 0x40_0000_0000,
            qa >= 0,
    ;
    assert(abs(b) <= 2 * qa);
    let (bu, qu, qau) = (b * u, q * u, qa * u);
    assert(0x10_0000_0000_0000 * distance(bu, qu) <= n * qau) by (nonlinear_arith)
        requires
            0x10_0000_0000_0000 * distance(b, q) <= n * qa,
            distance(b, q) == (if b <= q { q - b } else { b - q }),
            distance(bu, qu) == (if bu <= qu { qu - bu } else { bu - qu }),
            bu == b * u,
            qu == q * u,
            qau == qa * u,
            u > 0,
    ;
    let nm = n * most;
    assert(n * qau <= 2 * nm) by (nonlinear_arith)
        requires
            qau <= most * 2,
            nm == n * most,
            n >= 0,
    ;
    assert((n + 3) * most == nm + 3 * most && nm >= 0) by (nonlinear_arith)
        requires
            nm == n * most,
            n >= 0,
            most >= 0,
    ;
}

/// Sums of numbers that are ordered.
proof fn lemma_sums_ordered(a: Seq<int>, b: Seq<int>)
    requires
        a.len() == b.len(),
        forall|i: int| 0 <= i < a.len() ==> #[trigger] a[i] <= b[i],
    ensures
        total_of(a) <= total_of(b),
    decreases a.len(),
{
    if a.len() > 0 {
        let (c, d) = (a.drop_last(), b.drop_last());
        assert forall|i: int| 0 <= i < c.len() implies #[trigger] c[i] <= d[i] by {
            assert(a[i] <= b[i]);
        }
        lemma_sums_ordered(c, d);
        assert(a[a.len() - 1] <= b[a.len() - 1]);
    }
}

/// A sum of numbers that are bounded one by one.
proof fn lemma_sum_within(e: Seq<int>, m: Seq<int>)
    requires
        e.len() == m.len(),
        forall|i: int| 0 <= i < e.len() ==> abs(#[trigger] e[i]) <= m[i],
    ensures
        abs(total_of(e)) <= total_of(m),
    decreases e.len(),
{
    if e.len() > 0 {
        let (c, d) = (e.drop_last(), m.drop_last());
        assert forall|i: int| 0 <= i < c.len() implies abs(#[trigger] c[i]) <= d[i] by {
            assert(abs(e[i]) <= m[i]);
        }
        lemma_sum_within(c, d);
        assert(abs(e[e.len() - 1]) <= m[e.len() - 1]);
    }
}

/// The lower bound is the sum of all log-sums and half of `fb` times the terms of the
/// speaker models, up to rounding.
#[verifier::spinoff_prover]
pub proof fn law_lower_bound_is_its_formula(
    log_sums: Seq<Double>,
    log_inverses: Seq<Double>,
    inverses: Seq<Double>,
    means: Seq<Double>,
    fb: Double,
)
    requires
        log_sums.len() <= 0x10_0000_0000,
        log_inverses.len() == inverses.len() == means.len(),
        inverses.len() <= 0x10_0000_0000,
        are_within(log_sums),
        are_within(log_inverses),
        are_within(inverses),
        are_within(means),
        is_within(fb, 1174),
    ensures
        ({
            let u = one();
            let h = half_unit();
            let logs = units_of(log_sums);
            let e = total_of(exact_terms(log_inverses, inverses, means));
            let m = total_of(term_sizes(log_inverses, inverses, means));
            let f = fb.units();
            is_about(
                lower_bound(log_sums, log_inverses, inverses, means, fb).units(),
                u * (u * u),
                total_of(logs) * (u * (u * u)) + (f * h) * e,
                total_of(sizes_of(logs)) * (u * (u * u)) + ((abs(f) * h + speck()) * m + (u * u)
                    * speck()),
                (log_sums.len() + 2 * inverses.len() + 9) as int,
            )
        }),
{
    let u = one();
    let h = half_unit();
    lemma_one();
    lemma_half();
    let t = log_sums.len() as int;
    let n = inverses.len() as int;
    let cube = u * (u * u);
    assert(cube > 0) by (nonlinear_arith)
        requires
            cube == u * (u * u),
            u > 0,
    ;
    // the log-sums
    let logs = units_of(log_sums);
    let z = sizes_of(logs);
    let top = pow2(1174) as int;
    lemma_pow2_pos(1174);
    lemma_pow2_adds(37, 1174);
    lemma_pow2_strictly_increases(1211, 2045);
    vstd::arithmetic::power2::lemma2_to64();
    vstd::arithmetic::power2::lemma2_to64_rest();
    assert forall|i: int| 0 <= i < logs.len() implies abs(#[trigger] logs[i]) <= top by {
        assert(is_within(log_sums[i], 1174));
    }
    lemma_sum_bounded(logs, top);
    assert(t * top <= 0x10_0000_0000 * top) by (nonlinear_arith)
        requires
            t <= 0x10_0000_0000,
            top > 0,
    ;
    assert(pow2(1211) == 0x20_0000_0000 * top) by (nonlinear_arith)
        requires
            pow2(1211) == pow2(37) * top,
            pow2(37) == 0x20_0000_0000,
    ;
    assert(logs.take(t) =~= logs);
    assert(z.take(t) =~= z);
    lemma_sizes_sum(logs, t as nat);
    assert forall|i: int| 0 <= i < t implies (#[trigger] log_sums[i]).finite() by {
        assert(is_within(log_sums[i], 1174));
    }
    crate::float::double::lemma_double_format();
    crate::float::arith::lemma_zero_units(53);
    assert(Double::minus_zero_spec().units() == 0);
    law_added_is_close(Double::minus_zero_spec(), log_sums, t as nat);
    let l = sum(log_sums);
    let size = total_of(z);
    let exact = total_of(logs);
    assert(0 <= t * size <= 0x10_0000_0000 * size) by (nonlinear_arith)
        requires
            0 <= t <= 0x10_0000_0000,
            size >= 0,
    ;
    assert(l.units() * 1 == l.units());
    assert(is_about(l.units(), 1, exact, size, t));
    assert(is_within(l, 1211));
    // the models
    law_bound_adds_all_terms(log_inverses, inverses, means);
    let b = bound_terms(log_inverses, inverses, means, n as nat);
    let e = total_of(exact_terms(log_inverses, inverses, means));
    let m = total_of(term_sizes(log_inverses, inverses, means));
    lemma_within_wider(half(), 1074, 1174);
    lemma_plain_product(fb, half());
    let f = fb.times(half());
    let fm = abs(fb.units()) * h + speck();
    lemma_within_product(f, b, 1276, 1325, 1528);
    lemma_about_product(f, b, u, fb.units() * h, fm, 1, u, e, m, n + 3);
    let g = f.times(b);
    assert(0x4_0000_0000_0000 * (u * (u * u)) == (u * u) * (0x4_0000_0000_0000 * u)) by (
    nonlinear_arith);
    let (eg, mg) = ((fb.units() * h) * e, fm * m + (u * u) * speck());
    // together
    let k = t + 2 * n + 8;
    lemma_about_scaled(l.units(), 1, exact, size, t, cube);
    assert(1 * cube == cube);
    lemma_about_wider(l.units(), cube, exact * cube, size * cube, t, size * cube, k);
    lemma_about_wider(g.units(), cube, eg, mg, 1 + 2 * (n + 3) + 1, mg, k);
    lemma_within_wider(l, 1211, 1529);
    lemma_within_sum(l, g, 1529);
    lemma_about_sum(l, g, cube, exact * cube, size * cube, eg, mg, k);
}

/// An inverse precision times one and the ratio times the weight times the eigenvalue
/// is one, up to rounding.
#[verifier::spinoff_prover]
pub proof fn law_inverse_precision_inverts(ratio: Double, n: Double, p: Double)
    requires
        is_plain(ratio),
        is_plain(n),
        is_plain(p),
    ensures
        inverse_precision(ratio, n, p).finite(),
        ({
            let u = one();
            is_near(
                inverse_precision(ratio, n, p).units() * (u * (u * u) + (ratio.units() * n.units())
                    * p.units()),
                (u * u) * (u * u),
                12,
            )
        }),
{
    let u = one();
    lemma_one();
    lemma_one_number();
    let (r, w, e) = (ratio.units(), n.units(), p.units());
    let rw = r * w;
    let rwe = rw * e;
    lemma_pow2_pos(974);
    lemma_pow2_adds(974, 974);
    lemma_pow2_adds(1174, 1174);
    lemma_pow2_strictly_increases(1200, 1948);
    lemma_pow2_strictly_increases(2348, 3100);
    vstd::arithmetic::power2::lemma2_to64();
    assert(pow2(1948) <= rw <= pow2(2348)) by (nonlinear_arith)
        requires
            rw == r * w,
            pow2(974) <= r <= pow2(1174),
            pow2(974) <= w <= pow2(1174),
            pow2(1948) == pow2(974) * pow2(974),
            pow2(2348) == pow2(1174) * pow2(1174),
    ;
    lemma_usual_product(ratio, n);
    let x = ratio.times(n);
    let a = x.units();
    let au = a * u;
    assert(1 * rw == rw);
    // a lies between 2^873 and 2^1275
    lemma_pow2_adds(873, 1074);
    lemma_pow2_adds(1275, 1074);
    lemma_pow2_adds(1, 1947);
    lemma_pow2_adds(1, 2348);
    assert(pow2(1947) <= au <= pow2(2349));
    assert(pow2(873) <= a <= pow2(1275)) by (nonlinear_arith)
        requires
            pow2(1947) <= au,
            au <= pow2(2349),
            au == a * u,
            u == pow2(1074),
            u > 0,
            pow2(1947) == pow2(873) * pow2(1074),
            pow2(2349) == pow2(1275) * pow2(1074),
    ;
    let ae = a * e;
    lemma_pow2_adds(873, 974);
    lemma_pow2_adds(1275, 1174);
    lemma_pow2_strictly_increases(1200, 1847);
    lemma_pow2_strictly_increases(2449, 3100);
    lemma_pow2_pos(873);
    assert(pow2(1847) <= ae <= pow2(2449)) by (nonlinear_arith)
        requires
            ae == a * e,
            pow2(873) <= a <= pow2(1275),
            pow2(974) <= e <= pow2(1174),
            pow2(1847) == pow2(873) * pow2(974),
            pow2(2449) == pow2(1275) * pow2(1174),
    ;
    lemma_usual_product(x, p);
    let y = x.times(p);
    let b = y.units();
    let bu = b * u;
    assert(1 * ae == ae);
    lemma_pow2_adds(1376, 1074);
    lemma_pow2_adds(1, 2449);
    assert(bu <= pow2(2450));
    assert(b <= pow2(1376)) by (nonlinear_arith)
        requires
            bu <= pow2(2450),
            bu == b * u,
            u == pow2(1074),
            u > 0,
            pow2(2450) == pow2(1376) * pow2(1074),
    ;
    // b u u near r w e
    let uu = u * u;
    assert(uu > 0) by (nonlinear_arith)
        requires
            uu == u * u,
            u > 0,
    ;
    lemma_near_scaled(bu, ae, u, 1);
    lemma_near_scaled(au, rw, e, 1);
    assert(ae * u == au * e && bu * u == b * uu) by (nonlinear_arith)
        requires
            ae == a * e,
            au == a * u,
            bu == b * u,
            uu == u * u,
    ;
    lemma_near_chain(b * uu, ae * u, rwe, 1, 1);
    // the sum
    lemma_pow2_strictly_increases(1376, 2045);
    lemma_pow2_strictly_increases(1074, 1376);
    lemma_usual_sum(Double::one_spec(), y);
    let z = Double::one_spec().plus(y);
    let s = z.units();
    let part = u + b;
    assert(1 * part == part);
    lemma_pow2_adds(64, 1378);
    lemma_pow2_adds(1074, 1074);
    lemma_pow2_strictly_increases(1442, 2148);
    lemma_pow2_adds(2, 1376);
    assert(pow2(1378) == 4 * pow2(1376)) by (nonlinear_arith)
        requires
            pow2(1378) == pow2(2) * pow2(1376),
            pow2(2) == 4,
    ;
    assert(u <= 2 * s && s <= pow2(1378));
    assert(uu <= limit() * s) by (nonlinear_arith)
        requires
            uu == u * u,
            u <= 2 * s,
            2 * u <= limit(),
            u > 0,
    ;
    assert(uu >= pow2(64) * s) by (nonlinear_arith)
        requires
            s <= pow2(1378),
            pow2(1442) == pow2(64) * pow2(1378),
            pow2(1442) <= uu,
            pow2(64) >= 0,
    ;
    lemma_usual_quotient(Double::one_spec(), z);
    let i = inverse_precision(ratio, n, p).units();
    // i part near i s near u u
    lemma_near_back(s, part, 1);
    lemma_near_scaled(part, s, i, 2);
    assert(part * i == i * part && s * i == i * s) by (nonlinear_arith);
    lemma_near_chain(i * part, i * s, uu, 2, 1);
    // times u u
    lemma_near_scaled(i * part, uu, uu, 4);
    // u u u + r w e near part u u
    let cube = u * uu;
    assert(cube >= 0) by (nonlinear_arith)
        requires
            cube == u * uu,
            u > 0,
            uu > 0,
    ;
    lemma_near_back(b * uu, rwe, 3);
    lemma_near_same(cube);
    lemma_near_wider(cube, cube, 0, 4);
    lemma_near_sum(cube, cube, rwe, b * uu, 4);
    assert(cube + b * uu == part * uu) by (nonlinear_arith)
        requires
            cube == u * uu,
            part == u + b,
    ;
    lemma_near_scaled(cube + rwe, part * uu, i, 4);
    assert((cube + rwe) * i == i * (cube + rwe) && (part * uu) * i == (i * part) * uu) by (
    nonlinear_arith);
    lemma_near_chain(i * (cube + rwe), (i * part) * uu, uu * uu, 4, 4);
    lemma_near_wider(i * (cube + rwe), uu * uu, 9, 12);
}

/// Normalised weights are the weights divided by their sum, up to rounding.
pub proof fn law_normalised_divides_by_the_sum(weights: Seq<Double>, j: int)
    requires
        0 <= j < weights.len(),
        is_plain(weights[j]),
        is_plain(sum_of(weights)),
    ensures
        normalised(weights).len() == weights.len(),
        is_near(
            normalised(weights)[j].units() * sum_of(weights).units(),
            weights[j].units() * one(),
            1,
        ),
{
    let u = one();
    lemma_one();
    let (w, s) = (weights[j].units(), sum_of(weights).units());
    lemma_pow2_pos(974);
    lemma_pow2_adds(1174, 1074);
    lemma_pow2_adds(2045, 974);
    lemma_pow2_adds(974, 1074);
    lemma_pow2_adds(64, 1174);
    lemma_pow2_strictly_increases(2248, 3019);
    lemma_pow2_strictly_increases(1238, 2048);
    assert(w * u <= limit() * s) by (nonlinear_arith)
        requires
            0 <= w <= pow2(1174),
            u == pow2(1074),
            s >= pow2(974),
            limit() == 0x10_0000_0000_0000 * pow2(2045),
            pow2(2248) == pow2(1174) * pow2(1074),
            pow2(3019) == pow2(2045) * pow2(974),
            pow2(2248) < pow2(3019),
            pow2(2045) > 0,
            u > 0,
    ;
    assert(w * u >= pow2(64) * s) by (nonlinear_arith)
        requires
            w >= pow2(974),
            u == pow2(1074),
            0 <= s <= pow2(1174),
            pow2(2048) == pow2(974) * pow2(1074),
            pow2(1238) == pow2(64) * pow2(1174),
            pow2(1238) < pow2(2048),
            u > 0,
            pow2(64) >= 0,
    ;
    lemma_usual_quotient(weights[j], sum_of(weights));
}

} // verus!
