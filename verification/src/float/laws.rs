//! Order under arithmetic: on numbers without a negative sign, sums, roots and
//! conversions keep the order, and a sum is no smaller than its terms.

use vstd::arithmetic::power2::{lemma_pow2_pos, pow2};
use vstd::prelude::*;
use crate::float::arith::{lemma_zero_units, Format, Num};
use crate::float::grid::{lemma_representable, lemma_units_increasing, nearest, units};
use crate::float::order::{lemma_nearest_exists, lemma_nearest_monotone};
use crate::float::root::{lemma_nearest_root_unique, lemma_square_order, nearest_root, root_rounds_to};

verus! {

/// A number without a negative sign, finite or infinite.
pub open spec fn plain(f: Format, x: Num) -> bool {
    !f.is_nan(x) && !x.negative
}

/// Larger magnitudes have larger sizes; only zero has size zero.
pub proof fn lemma_sizes_grow(f: Format, x: Num, y: Num)
    requires
        f.valid(),
        x.magnitude <= y.magnitude,
    ensures
        0 <= f.size(x) <= f.size(y),
        x.magnitude > 0 ==> f.size(x) > 0,
        x.magnitude == 0 ==> f.size(x) == 0,
        x.magnitude < y.magnitude ==> f.size(x) < f.size(y),
{
    let p = f.p();
    lemma_zero_units(p);
    lemma_units_increasing(p, x.magnitude as int, x.magnitude + 1);
    if x.magnitude > 0 {
        lemma_units_increasing(p, 0, x.magnitude as int);
    }
    if x.magnitude < y.magnitude {
        lemma_units_increasing(p, x.magnitude as int, y.magnitude as int);
    }
}

/// A sum of two numbers is one, and no smaller than either.
pub proof fn law_sum_covers_its_terms(f: Format, x: Num, y: Num)
    requires
        f.valid(),
        plain(f, x),
        plain(f, y),
    ensures
        plain(f, f.plus(x, y)),
        x.magnitude <= f.plus(x, y).magnitude,
        y.magnitude <= f.plus(x, y).magnitude,
{
    lemma_sizes_grow(f, x, x);
    lemma_sizes_grow(f, y, y);
    if !f.is_infinite(x) && !f.is_infinite(y) {
        let sum = f.size(x) + f.size(y);
        if sum != 0 {
            lemma_nearest_monotone(f.p(), f.top as int, f.size(x), sum, 1);
            lemma_nearest_monotone(f.p(), f.top as int, f.size(y), sum, 1);
            lemma_representable(f.p(), f.top as int, 1, x.magnitude as int);
            lemma_representable(f.p(), f.top as int, 1, y.magnitude as int);
        }
    }
}

/// Larger terms have no smaller sum.
pub proof fn law_sum_is_monotone(f: Format, x: Num, y: Num, x2: Num, y2: Num)
    requires
        f.valid(),
        plain(f, x),
        plain(f, y),
        plain(f, x2),
        plain(f, y2),
        x.magnitude <= x2.magnitude,
        y.magnitude <= y2.magnitude,
    ensures
        plain(f, f.plus(x, y)),
        plain(f, f.plus(x2, y2)),
        f.plus(x, y).magnitude <= f.plus(x2, y2).magnitude,
{
    law_sum_covers_its_terms(f, x, y);
    law_sum_covers_its_terms(f, x2, y2);
    lemma_sizes_grow(f, x, x2);
    lemma_sizes_grow(f, y, y2);
    lemma_sizes_grow(f, x, x);
    lemma_sizes_grow(f, y, y);
    if !f.is_infinite(x2) && !f.is_infinite(y2) {
        let a = f.size(x) + f.size(y);
        let b = f.size(x2) + f.size(y2);
        lemma_nearest_monotone(f.p(), f.top as int, a, b, 1);
        if b == 0 {
            assert(a == 0);
        }
    }
}

/// Adding zero changes no magnitude.
pub proof fn lemma_sum_with_zero(f: Format, x: Num, zero: Num)
    requires
        f.valid(),
        !f.is_nan(x),
        zero.magnitude == 0,
    ensures
        !f.is_nan(f.plus(x, zero)),
        f.plus(x, zero).magnitude == x.magnitude,
        f.plus(zero, x).magnitude == x.magnitude,
        x.magnitude > 0 ==> f.plus(x, zero) == x && f.plus(zero, x) == x,
        !x.negative || !zero.negative ==> x.magnitude == 0 ==> !f.plus(x, zero).negative
            && !f.plus(zero, x).negative,
{
    lemma_sizes_grow(f, x, x);
    lemma_sizes_grow(f, zero, zero);
    if f.is_finite(x) {
        lemma_representable(f.p(), f.top as int, 1, x.magnitude as int);
    }
}

/// Every radicand has a rounded root.
pub proof fn lemma_root_exists(p: nat, top: int, radicand: int)
    requires
        p >= 1,
        top >= 0,
        radicand >= 0,
    ensures
        root_rounds_to(p, top, radicand, nearest_root(p, top, radicand)),
{
    lemma_root_search(p, top, radicand, top);
}

/// The root is not above the midpoint over `b`.
spec fn fits_under(p: nat, radicand: int, b: int) -> bool {
    let high = units(p, b) + units(p, b + 1);
    if b % 2 == 0 {
        4 * radicand <= high * high
    } else {
        4 * radicand < high * high
    }
}

/// The rounded root is found going down from a magnitude that is not too small.
proof fn lemma_root_search(p: nat, top: int, radicand: int, b: int)
    requires
        p >= 1,
        0 <= b <= top,
        radicand >= 0,
        b < top ==> fits_under(p, radicand, b),
    ensures
        exists|c: int| root_rounds_to(p, top, radicand, c),
    decreases b,
{
    if b == 0 {
        assert(root_rounds_to(p, top, radicand, 0));
    } else {
        let low = units(p, b - 1) + units(p, b);
        let over = if b % 2 == 0 { low * low <= 4 * radicand } else { low * low < 4 * radicand };
        if over {
            assert(root_rounds_to(p, top, radicand, b));
        } else {
            lemma_root_search(p, top, radicand, b - 1);
        }
    }
}

/// Larger radicands have no smaller roots.
pub proof fn lemma_root_monotone(p: nat, top: int, x: int, y: int)
    requires
        p >= 1,
        top >= 0,
        0 <= x <= y,
    ensures
        0 <= nearest_root(p, top, x) <= nearest_root(p, top, y) <= top,
{
    lemma_root_exists(p, top, x);
    lemma_root_exists(p, top, y);
    let a = nearest_root(p, top, x);
    let b = nearest_root(p, top, y);
    if b < a {
        if b + 1 < a {
            lemma_units_increasing(p, b, a - 1);
            lemma_units_increasing(p, b + 1, a);
        } else {
            lemma_units_increasing(p, b, a);
        }
        lemma_square_order(units(p, b) + units(p, b + 1), units(p, a - 1) + units(p, a));
    }
}

/// The root of a representable number's square is that number.
pub proof fn lemma_root_exact(p: nat, top: int, b: int)
    requires
        p >= 1,
        0 <= b <= top,
    ensures
        nearest_root(p, top, units(p, b) * units(p, b)) == b,
{
    let u = units(p, b);
    lemma_zero_units(p);
    lemma_units_increasing(p, b, b + 1);
    let high = u + units(p, b + 1);
    assert((2 * u) * (2 * u) == 4 * (u * u)) by (nonlinear_arith);
    lemma_square_order(2 * u, high);
    if b > 0 {
        lemma_units_increasing(p, b - 1, b);
        lemma_square_order(units(p, b - 1) + u, 2 * u);
    }
    assert(root_rounds_to(p, top, u * u, b));
    lemma_nearest_root_unique(p, top, u * u, b);
}

/// Larger numbers have no smaller roots.
pub proof fn law_root_is_monotone(f: Format, x: Num, y: Num)
    requires
        f.valid(),
        plain(f, x),
        plain(f, y),
        x.magnitude <= y.magnitude,
    ensures
        plain(f, f.root(x)),
        plain(f, f.root(y)),
        f.root(x).magnitude <= f.root(y).magnitude,
{
    lemma_sizes_grow(f, x, y);
    lemma_sizes_grow(f, y, y);
    let one = pow2(f.unit as nat) as int;
    lemma_pow2_pos(f.unit as nat);
    assert(0 <= f.size(x) * one <= f.size(y) * one) by (nonlinear_arith)
        requires
            0 <= f.size(x) <= f.size(y),
            one > 0,
    ;
    lemma_root_monotone(f.p(), f.top as int, f.size(x) * one, f.size(y) * one);
}

/// Conversion to another format keeps the order.
pub proof fn law_conversion_is_monotone(f: Format, to: Format, x: Num, y: Num)
    requires
        f.valid(),
        to.valid(),
        plain(f, x),
        plain(f, y),
        x.magnitude <= y.magnitude,
    ensures
        plain(to, f.converted(to, x)),
        plain(to, f.converted(to, y)),
        f.converted(to, x).magnitude <= f.converted(to, y).magnitude,
{
    lemma_sizes_grow(f, x, y);
    lemma_sizes_grow(f, y, y);
    let up = pow2(to.unit as nat) as int;
    let down = pow2(f.unit as nat) as int;
    lemma_pow2_pos(to.unit as nat);
    lemma_pow2_pos(f.unit as nat);
    assert(0 <= f.size(x) * up <= f.size(y) * up) by (nonlinear_arith)
        requires
            0 <= f.size(x) <= f.size(y),
            up > 0,
    ;
    lemma_nearest_monotone(to.p(), to.top as int, f.size(x) * up, f.size(y) * up, down);
}

/// A quotient lies on the same side of a number as the exact quotient does.
pub proof fn lemma_quotient_bound(f: Format, x: Num, y: Num, bound: Num)
    requires
        f.valid(),
        f.is_finite(x),
        f.is_finite(y),
        y.magnitude > 0,
        f.is_finite(bound),
    ensures
        f.size(x) * pow2(f.unit as nat) <= f.size(bound) * f.size(y) ==> f.over(x, y).magnitude
            <= bound.magnitude,
        f.size(x) * pow2(f.unit as nat) >= f.size(bound) * f.size(y) ==> f.over(x, y).magnitude
            >= bound.magnitude,
        !f.is_nan(f.over(x, y)),
{
    lemma_sizes_grow(f, x, x);
    lemma_sizes_grow(f, y, y);
    lemma_sizes_grow(f, bound, bound);
    let one = pow2(f.unit as nat) as int;
    lemma_pow2_pos(f.unit as nat);
    let num = f.size(x) * one;
    let den = f.size(y);
    let limit = f.size(bound) * den;
    assert(num >= 0 && limit >= 0) by (nonlinear_arith)
        requires
            num == f.size(x) * one,
            limit == f.size(bound) * den,
            f.size(x) >= 0,
            f.size(bound) >= 0,
            den >= 0,
            one >= 0,
    ;
    lemma_representable(f.p(), f.top as int, den, bound.magnitude as int);
    lemma_nearest_exists(f.p(), f.top as int, num, den);
    if num <= limit {
        lemma_nearest_monotone(f.p(), f.top as int, num, limit, den);
    }
    if limit <= num {
        lemma_nearest_monotone(f.p(), f.top as int, limit, num, den);
    }
    assert(nearest(f.p(), f.top as int, num, den) <= f.top);
}

} // verus!
