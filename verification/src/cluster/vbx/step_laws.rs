//! How wide the rounding band is, and where the iteration starts and stops.

use vstd::arithmetic::power2::{lemma_pow2_adds, lemma_pow2_pos, lemma_pow2_strictly_increases, pow2};
use vstd::prelude::*;
use crate::cluster::vbx::algo::{epsilon, uniform};
use crate::cluster::vbx::formula_laws::speck;
use crate::cluster::vbx::round::prior_floor;
use crate::cluster::vbx::step::rounding_band;
use crate::float::about::{is_about, is_within, lemma_about_itself, lemma_about_product, lemma_about_scaled, lemma_about_sum, lemma_about_wider, lemma_within_product, lemma_within_sum, lemma_within_wider};
use crate::float::arith::{abs, law_rank_orders_values, Num};
use crate::float::double::{binary64, lemma_double_format};
use crate::float::error::{lemma_one, lemma_sizes, limit, one};
use crate::float::grid::distance;
use crate::float::nearest::{lemma_one_number, lemma_pattern};
use crate::float::order::lemma_natural_exact;
use crate::float::relative::{is_near, lemma_near_divided, lemma_usual_quotient};
use crate::float::Double;

verus! {

/// The larger of two magnitudes.
pub open spec fn larger_size(x: Double, y: Double) -> int {
    if abs(x.units()) < abs(y.units()) {
        abs(y.units())
    } else {
        abs(x.units())
    }
}

proof fn lemma_absolute(x: Double)
    requires
        is_within(x, 1174),
    ensures
        is_within(x.absolute(), 1174),
        x.absolute().units() == abs(x.units()),
{
    lemma_double_format();
    lemma_sizes(binary64(), x.num());
    crate::float::order::lemma_of_num(Num { negative: false, magnitude: x.num().magnitude });
}

/// The rounding band is a billionth of one and a billionth of the larger of both bounds,
/// up to rounding.
#[verifier::spinoff_prover]
pub proof fn law_rounding_band_is_a_billionth(prev_elbo: Double, elbo: Double)
    requires
        is_within(prev_elbo, 1174),
        is_within(elbo, 1174),
    ensures
        ({
            let nano = 0x11_2e0b_e826_d695 * (pow2(992) as int);
            let m = larger_size(prev_elbo, elbo);
            &&& 0x4_0000_0000_0000 * distance(1_000_000_000 * nano, one()) <= one()
            &&& is_about(
                rounding_band(prev_elbo, elbo).units(),
                one(),
                nano * one() + nano * m,
                nano * one() + (nano * m + speck()),
                2,
            )
        }),
{
    let u = one();
    lemma_one();
    let x = Double { bits: 0x3e11_2e0b_e826_d695 };
    assert(992 * 0x10_0000_0000_0000 + 0x11_2e0b_e826_d695 == 0x3e11_2e0b_e826_d695);
    lemma_pattern(0x3e11_2e0b_e826_d695, 992, 0x11_2e0b_e826_d695);
    let v = pow2(992) as int;
    lemma_pow2_pos(992);
    lemma_pow2_adds(41, 992);
    lemma_pow2_adds(41, 1033);
    vstd::arithmetic::power2::lemma2_to64();
    vstd::arithmetic::power2::lemma2_to64_rest();
    let w = pow2(1033) as int;
    assert(w == 0x200_0000_0000 * v) by (nonlinear_arith)
        requires
            w == pow2(41) * v,
            pow2(41) == 0x200_0000_0000,
    ;
    assert(u == 0x200_0000_0000 * w) by (nonlinear_arith)
        requires
            u == pow2(41) * w,
            pow2(41) == 0x200_0000_0000,
    ;
    let nano = x.units();
    assert(nano <= u);
    assert(is_within(x, 1074));
    lemma_absolute(prev_elbo);
    lemma_absolute(elbo);
    let (a, b) = (prev_elbo.absolute(), elbo.absolute());
    let m = a.larger(b);
    lemma_double_format();
    law_rank_orders_values(binary64(), a.num(), b.num());
    assert(m.units() == larger_size(prev_elbo, elbo));
    lemma_within_product(x, m, 1074, 1174, 1175);
    lemma_about_itself(x);
    lemma_about_itself(m);
    lemma_about_product(x, m, 1, nano, nano, 0, 1, m.units(), m.units(), 0);
    assert(u * (1 * 1) == u);
    lemma_about_scaled(nano, 1, nano, nano, 0, u);
    assert(1 * u == u);
    lemma_about_wider(nano, u, nano * u, nano * u, 0, nano * u, 1);
    lemma_within_wider(x, 1074, 1176);
    lemma_within_sum(x, x.times(m), 1176);
    lemma_about_sum(
        x,
        x.times(m),
        u,
        nano * u,
        nano * u,
        nano * m.units(),
        nano * m.units() + speck(),
        1,
    );
}

/// The iteration stops below an improvement of a ten-thousandth, and priors are raised
/// by a hundred-millionth before their logarithm is taken.
pub proof fn law_small_constants()
    ensures
        epsilon().finite(),
        0x4_0000_0000_0000 * distance(10_000 * epsilon().units(), one()) <= one(),
        prior_floor().finite(),
        0x4_0000_0000_0000 * distance(100_000_000 * prior_floor().units(), one()) <= one(),
{
    assert(1008 * 0x10_0000_0000_0000 + 0x1a_36e2_eb1c_432d == 0x3f1a_36e2_eb1c_432d);
    assert(995 * 0x10_0000_0000_0000 + 0x15_798e_e230_8c3a == 0x3e45_798e_e230_8c3a);
    lemma_pattern(0x3f1a_36e2_eb1c_432d, 1008, 0x1a_36e2_eb1c_432d);
    lemma_pattern(0x3e45_798e_e230_8c3a, 995, 0x15_798e_e230_8c3a);
    let u = one();
    let (v, w) = (pow2(1008) as int, pow2(995) as int);
    lemma_pow2_pos(1008);
    lemma_pow2_pos(995);
    lemma_pow2_adds(33, 1008);
    lemma_pow2_adds(33, 1041);
    lemma_pow2_adds(39, 995);
    lemma_pow2_adds(40, 1034);
    vstd::arithmetic::power2::lemma2_to64();
    vstd::arithmetic::power2::lemma2_to64_rest();
    let (a, b) = (pow2(1041) as int, pow2(1034) as int);
    assert(a == 0x2_0000_0000 * v) by (nonlinear_arith)
        requires
            a == pow2(33) * v,
            pow2(33) == 0x2_0000_0000,
    ;
    assert(u == 0x2_0000_0000 * a) by (nonlinear_arith)
        requires
            u == pow2(33) * a,
            pow2(33) == 0x2_0000_0000,
    ;
    assert(b == 0x80_0000_0000 * w) by (nonlinear_arith)
        requires
            b == pow2(39) * w,
            pow2(39) == 0x80_0000_0000,
    ;
    assert(u == 0x100_0000_0000 * b) by (nonlinear_arith)
        requires
            u == pow2(40) * b,
            pow2(40) == 0x100_0000_0000,
    ;
}

/// Before the first iteration all speakers have the same prior, and their sum is one, up
/// to rounding.
pub proof fn law_first_priors_are_equal(n: nat, j: int)
    requires
        0 <= j < n < 0x1_0000_0000,
    ensures
        uniform(n).len() == n,
        is_near(n * uniform(n)[j].units(), one(), 1),
{
    let u = one();
    lemma_one();
    lemma_one_number();
    lemma_natural_exact(n);
    let nu = n * u;
    lemma_pow2_strictly_increases(97, 1074);
    lemma_pow2_adds(64, 33);
    lemma_pow2_strictly_increases(1074, 2045);
    vstd::arithmetic::power2::lemma2_to64();
    vstd::arithmetic::power2::lemma2_to64_rest();
    assert(nu > 0 && u * u <= limit() * nu) by (nonlinear_arith)
        requires
            nu == n * u,
            n >= 1,
            u > 0,
            u <= limit(),
    ;
    assert(u * u >= pow2(64) * nu) by (nonlinear_arith)
        requires
            nu == n * u,
            n <= 0x1_0000_0000,
            u > pow2(97),
            pow2(97) == pow2(64) * pow2(33),
            pow2(33) == 0x2_0000_0000,
            pow2(64) > 0,
    ;
    lemma_usual_quotient(Double::one_spec(), Double::natural(n));
    let p = uniform(n)[j].units();
    assert(p * nu == (n * p) * u) by (nonlinear_arith)
        requires
            nu == n * u,
    ;
    lemma_near_divided(n * p, u, u, 1);
}

} // verus!
