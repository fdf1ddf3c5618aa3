//! Rounding exists, keeps the order, and leaves small integers alone.

use vstd::arithmetic::div_mod::{lemma_fundamental_div_mod, lemma_fundamental_div_mod_converse};
use vstd::arithmetic::power2::{lemma_pow2_adds, lemma_pow2_pos, lemma_pow2_strictly_increases, lemma_pow2_unfold, pow2};
use vstd::prelude::*;
use crate::float::arith::{lemma_many_digits, lemma_zero_units, nearest_integer, Num};
use crate::float::double::{binary64, lemma_double_format, Double};
use crate::float::grid::{half_span, lemma_nearest_unique, lemma_parts, lemma_representable, lemma_rounds_monotone, lemma_units_increasing, nearest, rounds_to, units};
use crate::float::rounding::{digits, lemma_digits, lemma_settle, placed, pow2_above, settle};

verus! {

/// Every nonnegative value rounds to some magnitude.
pub proof fn lemma_nearest_exists(p: nat, top: int, num: int, den: int)
    requires
        p >= 2,
        top >= 0,
        num >= 0,
        den > 0,
    ensures
        rounds_to(p, top, num, den, nearest(p, top, num, den)),
{
    if num == 0 {
        lemma_zero_units(p);
        assert(0 * den == 0);
        lemma_representable(p, top, den, 0);
    } else {
        let k = p + 2 + digits(den as nat);
        let value = num * pow2(k);
        let m = (value / den) as nat;
        let rest = value % den;
        let e = -(k as int);
        lemma_fundamental_div_mod(value, den);
        lemma_digits(den as nat);
        lemma_pow2_adds(p + 2, digits(den as nat));
        lemma_pow2_pos(p + 2);
        assert(value >= pow2(p + 2) * den) by (nonlinear_arith)
            requires
                value == num * pow2(k),
                num >= 1,
                pow2(k) == pow2(p + 2) * pow2(digits(den as nat)),
                pow2(digits(den as nat)) >= den,
                pow2(p + 2) >= 1,
                den >= 1,
        ;
        assert(value / den >= pow2(p + 2)) by (nonlinear_arith)
            requires
                value >= pow2(p + 2) * den,
                den > 0,
        ;
        lemma_many_digits(m, p + 2);
        assert(placed(m, e, rest != 0, num, den)) by {
            assert(pow2_above(e) == 1);
            assert(pow2_above(-e) == pow2(k));
            assert(m * (1 * den) == den * m) by (nonlinear_arith);
            assert((m + 1) * (1 * den) == den * m + den) by (nonlinear_arith);
        }
        lemma_settle(p, top, m, e, rest != 0, num, den);
        lemma_nearest_unique(p, top, num, den, settle(p, top, m, e, rest != 0));
    }
}

/// The larger of two values over one denominator never rounds lower.
pub proof fn lemma_nearest_monotone(p: nat, top: int, x: int, y: int, den: int)
    requires
        p >= 2,
        top >= 0,
        0 <= x <= y,
        den > 0,
    ensures
        0 <= nearest(p, top, x, den) <= nearest(p, top, y, den) <= top,
{
    lemma_nearest_exists(p, top, x, den);
    lemma_nearest_exists(p, top, y, den);
    lemma_rounds_monotone(
        p,
        top,
        x,
        y,
        den,
        nearest(p, top, x, den),
        nearest(p, top, y, den),
    );
}

/// `x` is a number, not negative, and at most `y`.
pub open spec fn ordered(x: Double, y: Double) -> bool {
    &&& !x.nan() && !y.nan()
    &&& !x.num().negative && !y.num().negative
    &&& x.num().magnitude <= y.num().magnitude
}

/// Sign and magnitude survive packing.
pub proof fn lemma_of_num(n: Num)
    requires
        n.magnitude < 0x8000_0000_0000_0000,
    ensures
        Double::of(n).num() == n,
{
}

proof fn lemma_sizes(x: Double)
    ensures
        binary64().size(x.num()) >= 0,
        x.num().magnitude > 0 ==> binary64().size(x.num()) > 0,
{
    lemma_zero_units(53);
    lemma_units_increasing(53, x.num().magnitude as int, x.num().magnitude + 1);
    if x.num().magnitude > 0 {
        lemma_units_increasing(53, 0, x.num().magnitude as int);
    }
}

proof fn lemma_sizes_ordered(x: Double, y: Double)
    requires
        ordered(x, y),
    ensures
        0 <= binary64().size(x.num()) <= binary64().size(y.num()),
{
    lemma_sizes(x);
    if x.num().magnitude < y.num().magnitude {
        lemma_units_increasing(53, x.num().magnitude as int, y.num().magnitude as int);
    }
}

/// Larger natural numbers convert to no smaller numbers.
pub proof fn lemma_natural_ordered(a: nat, b: nat)
    requires
        a <= b,
    ensures
        ordered(Double::natural(a), Double::natural(b)),
{
    lemma_double_format();
    let one = pow2(1074) as int;
    lemma_pow2_pos(1074);
    assert(0 <= a * one <= b * one) by (nonlinear_arith)
        requires
            0 <= a <= b,
            one > 0,
    ;
    lemma_nearest_monotone(53, binary64().top as int, a * one, b * one, 1);
    lemma_of_num(binary64().natural(a));
    lemma_of_num(binary64().natural(b));
}

/// Multiplying by a nonnegative finite number keeps the order.
pub proof fn lemma_times_ordered(x: Double, y: Double, z: Double)
    requires
        ordered(x, y),
        y.finite(),
        z.finite(),
        !z.num().negative,
    ensures
        ordered(x.times(z), y.times(z)),
{
    lemma_double_format();
    let f = binary64();
    let one = pow2(1074) as int;
    lemma_pow2_pos(1074);
    lemma_sizes_ordered(x, y);
    lemma_sizes(z);
    let sx = f.size(x.num());
    let sy = f.size(y.num());
    let sz = f.size(z.num());
    assert(0 <= sx * sz <= sy * sz) by (nonlinear_arith)
        requires
            0 <= sx <= sy,
            0 <= sz,
    ;
    lemma_nearest_monotone(53, f.top as int, sx * sz, sy * sz, one);
    lemma_of_num(f.times(x.num(), z.num()));
    lemma_of_num(f.times(y.num(), z.num()));
}

/// Dividing by a positive finite number keeps the order.
pub proof fn lemma_over_ordered(x: Double, y: Double, z: Double)
    requires
        ordered(x, y),
        y.finite(),
        z.finite(),
        !z.num().negative,
        z.num().magnitude > 0,
    ensures
        ordered(x.over(z), y.over(z)),
{
    lemma_double_format();
    let f = binary64();
    let one = pow2(1074) as int;
    lemma_pow2_pos(1074);
    lemma_sizes_ordered(x, y);
    lemma_sizes(z);
    let sx = f.size(x.num());
    let sy = f.size(y.num());
    assert(0 <= sx * one <= sy * one) by (nonlinear_arith)
        requires
            0 <= sx <= sy,
            one > 0,
    ;
    lemma_nearest_monotone(53, f.top as int, sx * one, sy * one, f.size(z.num()));
    lemma_of_num(f.over(x.num(), z.num()));
    lemma_of_num(f.over(y.num(), z.num()));
}

proof fn lemma_nearest_integer_ordered(x: int, y: int, den: int)
    requires
        0 <= x <= y,
        den > 0,
    ensures
        0 <= nearest_integer(x, den) <= nearest_integer(y, den),
{
    lemma_fundamental_div_mod(x, den);
    lemma_fundamental_div_mod(y, den);
    vstd::arithmetic::div_mod::lemma_div_is_ordered(x, y, den);
    vstd::arithmetic::div_mod::lemma_div_pos_is_pos(x, den);
    if x / den == y / den {
        assert(x % den <= y % den);
    }
}

/// Rounding to integers keeps the order.
pub proof fn lemma_rounded_ordered(x: Double, y: Double)
    requires
        ordered(x, y),
        y.finite(),
    ensures
        ordered(x.rounded(), y.rounded()),
{
    lemma_double_format();
    let f = binary64();
    let one = pow2(1074) as int;
    lemma_pow2_pos(1074);
    lemma_sizes_ordered(x, y);
    let kx = nearest_integer(f.size(x.num()), one);
    let ky = nearest_integer(f.size(y.num()), one);
    lemma_nearest_integer_ordered(f.size(x.num()), f.size(y.num()), one);
    assert(0 <= kx * one <= ky * one) by (nonlinear_arith)
        requires
            0 <= kx <= ky,
            one > 0,
    ;
    lemma_nearest_monotone(53, f.top as int, kx * one, ky * one, 1);
    lemma_of_num(f.round_even(x.num()));
    lemma_of_num(f.round_even(y.num()));
}

/// Conversion to integers keeps the order.
pub proof fn lemma_saturated_ordered(x: Double, y: Double)
    requires
        ordered(x, y),
    ensures
        0 <= x.saturated() <= y.saturated(),
{
    lemma_double_format();
    let one = pow2(1074) as int;
    lemma_pow2_pos(1074);
    lemma_sizes_ordered(x, y);
    vstd::arithmetic::div_mod::lemma_div_is_ordered(
        binary64().size(x.num()),
        binary64().size(y.num()),
        one,
    );
    vstd::arithmetic::div_mod::lemma_div_pos_is_pos(binary64().size(x.num()), one);
}

/// Natural numbers up to `2^53` convert exactly.
pub proof fn lemma_natural_exact(n: nat)
    requires
        n <= 0x20_0000_0000_0000,
    ensures
        Double::natural(n).finite(),
        !Double::natural(n).num().negative,
        Double::natural(n).units() == n * pow2(1074),
        binary64().size(Double::natural(n).num()) == n * pow2(1074),
        n > 0 ==> Double::natural(n).num().magnitude > 0,
{
    lemma_double_format();
    let f = binary64();
    vstd::arithmetic::power2::lemma2_to64();
    vstd::arithmetic::power2::lemma2_to64_rest();
    lemma_zero_units(53);
    if n == 0 {
        assert(0 * pow2(1074) == 0);
        lemma_representable(53, f.top as int, 1, 0);
    } else {
        let l = digits(n);
        lemma_digits(n);
        if l > 54 {
            lemma_pow2_strictly_increases(53, (l - 1) as nat);
        }
        let h = half_span(53);
        assert(h == 0x10_0000_0000_0000);
        let (g, q): (nat, int) = if l == 54 {
            (1075, h)
        } else {
            ((1021 + l) as nat, (n * pow2((53 - l) as nat)) as int)
        };
        if l == 54 {
            assert(n == 0x20_0000_0000_0000);
            lemma_pow2_unfold(1075);
            assert(h * pow2(1075) == n * pow2(1074)) by (nonlinear_arith)
                requires
                    n == 2 * h,
                    pow2(1075) == 2 * pow2(1074),
            ;
        } else {
            let k = (53 - l) as nat;
            lemma_pow2_adds(k, g);
            assert(q * pow2(g) == n * pow2(1074)) by (nonlinear_arith)
                requires
                    q == n * pow2(k),
                    pow2(1074) == pow2(k) * pow2(g),
            ;
            lemma_pow2_adds((l - 1) as nat, k);
            lemma_pow2_adds(l, k);
            lemma_pow2_pos(k);
            assert(h <= q < 2 * h) by (nonlinear_arith)
                requires
                    q == n * pow2(k),
                    pow2((l - 1) as nat) <= n < pow2(l),
                    h == pow2((l - 1) as nat) * pow2(k),
                    2 * h == pow2(l) * pow2(k),
                    pow2(k) > 0,
            ;
        }
        lemma_parts(53, g, q);
        let b = g * h + q;
        assert(b < f.top);
        lemma_representable(53, f.top as int, 1, b);
    }
    lemma_of_num(f.natural(n));
}

/// A natural number up to `2^53` is its own nearest integer.
pub proof fn lemma_natural_rounded(n: nat)
    requires
        n <= 0x20_0000_0000_0000,
    ensures
        Double::natural(n).rounded() == Double::natural(n),
        Double::natural(n).whole() == n,
        Double::natural(n).saturated() == n,
{
    lemma_double_format();
    lemma_natural_exact(n);
    let f = binary64();
    let one = pow2(1074) as int;
    lemma_pow2_pos(1074);
    lemma_fundamental_div_mod_converse((n * one) as int, one, n as int, 0);
}

} // verus!
