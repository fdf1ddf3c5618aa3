//! Bit patterns and rounding to integers, in exact arithmetic.

use vstd::arithmetic::power2::{lemma_pow2_adds, lemma_pow2_pos, lemma_pow2_strictly_increases, pow2};
use vstd::prelude::*;
use crate::float::arith::nearest_integer;
use crate::float::double::{binary64, lemma_double_format};
use crate::float::error::{lemma_one, limit, one};
use crate::float::grid::{distance, half_span, lemma_half_span};
use crate::float::order::lemma_natural_exact;
use crate::float::Double;

verus! {

/// The exact value of a positive bit pattern.
pub proof fn lemma_pattern(b: u64, g: nat, q: int)
    requires
        1 <= g <= 2045,
        0x10_0000_0000_0000 <= q < 0x20_0000_0000_0000,
        b == g * 0x10_0000_0000_0000 + q,
    ensures
        (Double { bits: b }).finite(),
        (Double { bits: b }).units() == q * pow2(g),
{
    lemma_double_format();
    lemma_half_span(53);
    vstd::arithmetic::power2::lemma2_to64();
    vstd::arithmetic::power2::lemma2_to64_rest();
    let h = half_span(53);
    assert(h == 0x10_0000_0000_0000);
    crate::float::grid::lemma_parts(53, g, q);
    assert(g * h + q == b);
    assert((Double { bits: b }).num().magnitude == b);
}

/// One, in units.
pub proof fn lemma_one_number()
    ensures
        Double::one_spec().finite(),
        Double::one_spec().units() == one(),
        0 < one() <= limit(),
{
    lemma_natural_exact(1);
    lemma_one();
    lemma_pow2_strictly_increases(1074, 2045);
    let b = 0x3ff0_0000_0000_0000int;
    lemma_double_format();
    lemma_half_span(53);
    vstd::arithmetic::power2::lemma2_to64();
    vstd::arithmetic::power2::lemma2_to64_rest();
    let h = half_span(53);
    assert(h == 0x10_0000_0000_0000);
    vstd::arithmetic::div_mod::lemma_fundamental_div_mod_converse(b, h, 1023, 0);
    assert(crate::float::grid::gap_exponent(53, b) == 1022);
    assert(crate::float::grid::significand(53, b) == h);
    lemma_pow2_adds(52, 1022);
    assert(Double::one_spec().num().magnitude == b);
}

/// A number that is not negative is rounded to an integer at most a half away, and that
/// integer comes out of the conversion.
pub proof fn law_rounded_is_nearest(x: Double)
    requires
        x.finite(),
        !x.num().negative,
        x.units() < 0x4_0000_0000_0000 * one(),
    ensures
        x.rounded().finite(),
        0 <= x.rounded().saturated() <= 0x4_0000_0000_0000,
        x.rounded().saturated() == x.rounded().whole(),
        2 * distance(x.rounded().saturated() * one(), x.units()) <= one(),
{
    lemma_double_format();
    let f = binary64();
    let u = one();
    lemma_pow2_pos(1074);
    let s = f.size(x.num());
    crate::float::error::lemma_sizes(f, x.num());
    let n = nearest_integer(s, u);
    vstd::arithmetic::div_mod::lemma_fundamental_div_mod(s, u);
    vstd::arithmetic::div_mod::lemma_mod_bound(s, u);
    let (q, r) = (s / u, s % u);
    let qu = u * q;
    assert(0 <= q < 0x4_0000_0000_0000) by (nonlinear_arith)
        requires
            s == u * q + r,
            0 <= r < u,
            0 <= s < 0x4_0000_0000_0000 * u,
    ;
    assert(n == q || n == q + 1);
    let nu = n * u;
    assert(nu == (if n == q { qu } else { qu + u })) by (nonlinear_arith)
        requires
            nu == n * u,
            qu == u * q,
            n == q || n == q + 1,
    ;
    assert(2 * distance(nu, s) <= u);
    lemma_natural_exact(n as nat);
    assert(x.rounded() == Double::natural(n as nat));
    assert(nu / u == n) by (nonlinear_arith)
        requires
            nu == n * u,
            u > 0,
    ;
}

} // verus!
