//! What the distances are that rows are linked by.

use vstd::arithmetic::power2::{lemma_pow2_adds, lemma_pow2_pos, lemma_pow2_strictly_increases, pow2};
use vstd::prelude::*;
use crate::cluster::ahc::algo::{condensed, distances_from, euclidean, squared_differences};
use crate::cluster::hungarian::sums::{is_selection, lemma_index, sum};
use crate::embed::fbank_means::lemma_sum_permuted;
use crate::float::arith::abs;
use crate::float::error::{law_added_is_close, law_difference_is_close, law_product_is_close, law_root_is_close, lemma_one, lemma_root_arith, limit, one, sizes_of, units_of};
use crate::float::error_single::{lemma_sum_scaled, lemma_sums_close};
use crate::float::error_terms::{lemma_sum_of_both, lemma_sum_of_one};
use crate::float::grid::distance;
use crate::float::sums::added;
use crate::float::Double;

verus! {

/// Component `k` of row `i`, exactly.
pub open spec fn component(rows: Seq<Double>, d: nat, i: int, k: int) -> int {
    rows[i * d + k].units()
}

/// The exact squares of the differences of all components.
pub open spec fn exact_squares(rows: Seq<Double>, d: nat, i: int, j: int) -> Seq<int> {
    Seq::new(
        d,
        |k: int|
            (component(rows, d, i, k) - component(rows, d, j, k)) * (component(rows, d, i, k)
                - component(rows, d, j, k)),
    )
}

/// Rows of so many components, finite and of at most `2^400`.
pub open spec fn are_moderate(rows: Seq<Double>, n: nat, d: nat) -> bool {
    &&& rows.len() == n * d
    &&& d <= 0x100_0000_0000
    &&& forall|t: int|
        0 <= t < rows.len() ==> (#[trigger] rows[t]).finite() && abs(rows[t].units()) <= pow2(1474)
}

/// `2^50` times the error of the square of a distance whose exact square is `total`.
pub open spec fn square_error(d: int, total: int) -> int {
    (d + 4) * total + 0x8_0000_0000_0000 * (d * one())
}

/// The arithmetic of one square.
proof fn lemma_square_arith(e: int, x: int, qu: int, u: int)
    requires
        u > 0,
        0x1f_ffff_ffff_ffff * distance(x, e) <= abs(e),
        0 <= qu,
        0x20_0000_0000_0000 * distance(qu, x * x) <= qu + 0x10_0000_0000_0000 * u,
    ensures
        0x4_0000_0000_0000 * distance(qu, e * e) <= e * e + 0x4_0000_0000_0000 * u,
{
    let c = distance(x, e);
    let a = abs(e);
    let p = a * c;
    let cc = c * c;
    let ee = e * e;
    let xx = x * x;
    assert(0x1f_ffff_ffff_ffff * p <= ee) by (nonlinear_arith)
        requires
            p == a * c,
            0x1f_ffff_ffff_ffff * c <= a,
            ee == e * e,
            a == (if e < 0 { -e } else { e }),
    ;
    assert(0x1f_ffff_ffff_ffff * cc <= p && 0 <= cc && 0 <= p) by (nonlinear_arith)
        requires
            p == a * c,
            cc == c * c,
            0x1f_ffff_ffff_ffff * c <= a,
            c >= 0,
    ;
    assert(distance(xx, ee) <= 2 * p + cc) by (nonlinear_arith)
        requires
            xx == x * x,
            ee == e * e,
            p == a * c,
            cc == c * c,
            a == (if e < 0 { -e } else { e }),
            c == (if x <= e { e - x } else { x - e }),
            distance(xx, ee) == (if xx <= ee { ee - xx } else { xx - ee }),
    ;
    assert(0 <= ee && 0 <= xx) by (nonlinear_arith)
        requires
            ee == e * e,
            xx == x * x,
    ;
}

/// The square of a difference is the exact one, up to rounding.
pub proof fn lemma_square(a: Double, b: Double)
    requires
        a.finite(),
        b.finite(),
        abs(a.units()) <= pow2(1474),
        abs(b.units()) <= pow2(1474),
    ensures
        ({
            let q = a.minus(b).times(a.minus(b));
            let e = a.units() - b.units();
            &&& q.finite()
            &&& 0 <= q.units()
            &&& 0x4_0000_0000_0000 * distance(q.units() * one(), e * e) <= e * e
                + 0x4_0000_0000_0000 * one()
            &&& e * e <= pow2(2950)
        }),
{
    let e = a.units() - b.units();
    lemma_one();
    lemma_pow2_pos(1474);
    lemma_pow2_strictly_increases(1475, 2045);
    lemma_pow2_adds(1, 1474);
    lemma_pow2_adds(1475, 1475);
    lemma_pow2_adds(2, 1474);
    lemma_pow2_adds(1476, 1476);
    lemma_pow2_adds(2045, 1074);
    lemma_pow2_strictly_increases(2952, 3119);
    vstd::arithmetic::power2::lemma2_to64();
    assert(abs(e) <= pow2(1475));
    law_difference_is_close(a, b);
    let x = a.minus(b);
    let xu = x.units();
    assert(abs(xu) <= pow2(1476));
    let most = pow2(1476) as int;
    let xx = xu * xu;
    assert(0 <= xx <= most * most) by (nonlinear_arith)
        requires
            xx == xu * xu,
            -most <= xu <= most,
    ;
    assert(xx <= limit() * one()) by (nonlinear_arith)
        requires
            xx <= pow2(3119),
            limit() == 0x10_0000_0000_0000 * pow2(2045),
            pow2(3119) == pow2(2045) * pow2(1074),
            one() == pow2(1074),
            pow2(2045) * pow2(1074) >= 0,
    ;
    law_product_is_close(x, x);
    let q = x.times(x);
    let u = one();
    crate::float::double::lemma_double_format();
    crate::float::error::lemma_sizes(crate::float::double::binary64(), q.num());
    assert(!q.num().negative);
    let qu = q.units() * u;
    assert(0 <= qu && (q.units() + 0x10_0000_0000_0000) * u == qu + 0x10_0000_0000_0000 * u)
        by (nonlinear_arith)
        requires
            qu == q.units() * u,
            q.units() >= 0,
            u > 0,
    ;
    lemma_square_arith(e, xu, qu, u);
    let big = pow2(1475) as int;
    assert(e * e <= big * big) by (nonlinear_arith)
        requires
            -big <= e <= big,
    ;
}

/// The arithmetic of the whole bound.
proof fn lemma_distance_arith(d: int, u: int, dd: int, su: int, qu: int, total: int)
    requires
        0 <= d <= 0x100_0000_0000,
        u > 0,
        0 <= total,
        0 <= qu,
        0 <= su,
        0x4_0000_0000_0000 * distance(dd, su) <= su,
        0x10_0000_0000_0000 * distance(su, qu) <= d * qu,
        0x4_0000_0000_0000 * distance(qu, total) <= total + 0x4_0000_0000_0000 * (d * u),
    ensures
        0x4_0000_0000_0000 * distance(dd, total) <= (d + 4) * total + 0x8_0000_0000_0000 * (d * u),
{
    let du = d * u;
    let dq = d * qu;
    let dt = d * total;
    let ddu = d * du;
    assert(0 <= du && 0 <= dq <= 0x100_0000_0000 * qu && 0 <= dt && 0 <= ddu <= 0x100_0000_0000
        * du) by (nonlinear_arith)
        requires
            du == d * u,
            dq == d * qu,
            dt == d * total,
            ddu == d * du,
            0 <= d <= 0x100_0000_0000,
            u > 0,
            qu >= 0,
            total >= 0,
    ;
    // 2^50 qu <= (2^50 + 1) total + 2^50 du
    assert(0x4_0000_0000_0000 * qu <= 0x4_0000_0000_0001 * total + 0x4_0000_0000_0000 * du);
    assert(0x4_0000_0000_0000 * dq <= 0x4_0000_0000_0001 * dt + 0x4_0000_0000_0000 * ddu)
        by (nonlinear_arith)
        requires
            0x4_0000_0000_0000 * qu <= 0x4_0000_0000_0001 * total + 0x4_0000_0000_0000 * du,
            dq == d * qu,
            dt == d * total,
            ddu == d * du,
            d >= 0,
    ;
    assert((d + 4) * total == dt + 4 * total) by (nonlinear_arith)
        requires
            dt == d * total,
    ;
}

/// The distance of two rows is Euclidean: its square is the sum of the squares of the
/// differences of all components, up to rounding.
#[verifier::spinoff_prover]
pub proof fn law_distance_is_euclidean(rows: Seq<Double>, n: nat, d: nat, i: int, j: int)
    requires
        are_moderate(rows, n, d),
        0 <= i < n,
        0 <= j < n,
    ensures
        ({
            let r = euclidean(rows, d, i, j);
            let total = sum(exact_squares(rows, d, i, j));
            &&& r.finite()
            &&& 0 <= r.units()
            &&& 0 <= total
            &&& 0x4_0000_0000_0000 * distance(r.units() * r.units(), total) <= square_error(
                d as int,
                total,
            )
        }),
{
    let u = one();
    lemma_one();
    let values = squared_differences(rows, d, i, j);
    let t = exact_squares(rows, d, i, j);
    let v = units_of(values);
    let scaled = Seq::new(d, |k: int| v[k] * u);
    let c = 0x4_0000_0000_0000int;
    let errors = Seq::new(d, |k: int| t[k] + c * u);
    let most = pow2(2950) as int;
    assert forall|k: int| 0 <= k < d implies {
        &&& (#[trigger] values[k]).finite()
        &&& 0 <= v[k]
        &&& 0 <= t[k] <= most
        &&& c * distance(scaled[k], t[k]) <= errors[k]
    } by {
        lemma_index(n as int, d as int, i, k);
        lemma_index(n as int, d as int, j, k);
        let a = rows[i * d + k];
        let b = rows[j * d + k];
        assert(a.finite() && b.finite());
        lemma_square(a, b);
        let e = a.units() - b.units();
        assert(0 <= e * e) by (nonlinear_arith);
    }
    assert forall|k: int| 0 <= k < scaled.len() implies c * distance(#[trigger] scaled[k], t[k])
        <= errors[k] by {
        assert(values[k].finite());
    }
    lemma_sums_close(scaled, t, errors, c);
    let total = sum(t);
    // the errors add up
    let flat = Seq::new(d, |k: int| c * u);
    lemma_sum_of_both(t, flat, errors);
    lemma_sum_of_one(flat, c * u);
    lemma_sum_scaled(v, scaled, u);
    assert forall|k: int| 0 <= k < t.len() implies 0 <= #[trigger] t[k] <= most by {
        assert(values[k].finite());
    }
    lemma_sum_nonnegative(t);
    assert forall|k: int| 0 <= k < v.len() implies 0 <= #[trigger] v[k] by {
        assert(values[k].finite());
    }
    lemma_sum_nonnegative(v);
    assert(sizes_of(v) =~= v);
    assert(v.take(d as int) =~= v);
    let q = sum(v);
    let qu = q * u;
    let du = d * u;
    assert(d * (c * u) == c * du) by (nonlinear_arith)
        requires
            du == d * u,
    ;
    assert(c * distance(qu, total) <= total + c * du);
    // far below the limit
    assert forall|k: int| 0 <= k < t.len() implies abs(#[trigger] t[k]) <= most by {
        assert(values[k].finite());
    }
    crate::float::error_single::lemma_sum_bounded(t, most);
    lemma_far_below(d as int, u, total, q, most);
    crate::float::double::lemma_double_format();
    crate::float::arith::lemma_zero_units(53);
    law_added_is_close(Double::zero_spec(), values, d);
    let s = added(Double::zero_spec(), values, d);
    let su = s.units() * u;
    assert(0x10_0000_0000_0000 * distance(s.units(), q) <= d * q);
    assert(0 <= s.units()) by (nonlinear_arith)
        requires
            0x10_0000_0000_0000 * distance(s.units(), q) <= d * q,
            distance(s.units(), q) == (if s.units() <= q { q - s.units() } else { s.units() - q }),
            0 <= d <= 0x100_0000_0000,
            0 <= q,
    ;
    assert(0x10_0000_0000_0000 * distance(su, qu) <= d * qu && 0 <= su && 0 <= qu)
        by (nonlinear_arith)
        requires
            0x10_0000_0000_0000 * distance(s.units(), q) <= d * q,
            distance(s.units(), q) == (if s.units() <= q { q - s.units() } else { s.units() - q }),
            distance(su, qu) == (if su <= qu { qu - su } else { su - qu }),
            su == s.units() * u,
            qu == q * u,
            u > 0,
            0 <= q,
            0 <= s.units(),
    ;
    let r = s.root();
    if s.units() > 0 {
        law_root_is_close(s);
        lemma_root_arith(r.units(), su);
    } else {
        assert(su == 0) by (nonlinear_arith)
            requires
                su == s.units() * u,
                s.units() == 0,
        ;
        crate::float::error::lemma_sizes(crate::float::double::binary64(), s.num());
        assert(r == Double::of(s.num()));
        crate::float::order::lemma_of_num(s.num());
        assert(r.units() == 0);
        assert(0 * 0 == 0int);
    }
    lemma_distance_arith(d as int, u, r.units() * r.units(), su, qu, total);
}

/// A sum of numbers that are not negative is at least each of them.
pub proof fn lemma_sum_nonnegative(s: Seq<int>)
    requires
        forall|k: int| 0 <= k < s.len() ==> 0 <= #[trigger] s[k],
    ensures
        0 <= sum(s),
        forall|k: int| 0 <= k < s.len() ==> #[trigger] s[k] <= sum(s),
    decreases s.len(),
{
    if s.len() > 0 {
        let t = s.drop_last();
        assert forall|k: int| 0 <= k < t.len() implies 0 <= #[trigger] t[k] by {
            assert(0 <= s[k]);
        }
        lemma_sum_nonnegative(t);
        assert(0 <= s[s.len() - 1]);
        assert forall|k: int| 0 <= k < s.len() implies #[trigger] s[k] <= sum(s) by {
            if k < t.len() {
                assert(t[k] == s[k]);
                assert(t[k] <= sum(t));
            }
        }
    }
}

/// Sums of squares stay in range.
proof fn lemma_far_below(d: int, u: int, total: int, q: int, most: int)
    requires
        0 <= d <= 0x100_0000_0000,
        u == one(),
        most == pow2(2950),
        0 <= q,
        0 <= total <= d * most,
        0x4_0000_0000_0000 * distance(q * u, total) <= total + 0x4_0000_0000_0000 * (d * u),
    ensures
        2 * q <= limit(),
{
    lemma_one();
    lemma_pow2_adds(1876, 1074);
    lemma_pow2_strictly_increases(1876, 2045);
    lemma_pow2_pos(1876);
    let a = pow2(1876) as int;
    let du = d * u;
    let dm = d * most;
    assert(q * u <= 2 * dm + du);
    assert(dm == (d * a) * u) by (nonlinear_arith)
        requires
            dm == d * most,
            most == a * u,
    ;
    assert(q <= 2 * (d * a) + d) by (nonlinear_arith)
        requires
            q * u <= 2 * dm + du,
            dm == (d * a) * u,
            du == d * u,
            u > 0,
    ;
    assert(d * a <= 0x100_0000_0000 * a) by (nonlinear_arith)
        requires
            0 <= d <= 0x100_0000_0000,
            a > 0,
    ;
}

/// The number of pairs listed before those of row `i` with the rows after it.
pub open spec fn pairs_before(n: nat, i: nat) -> int
    decreases i,
{
    if i == 0 {
        0
    } else {
        pairs_before(n, (i - 1) as nat) + (n - i)
    }
}

proof fn lemma_condensed(rows: Seq<Double>, n: nat, d: nat, m: nat, i: int, j: int)
    requires
        m <= n,
        0 <= i < m,
        i < j < n,
    ensures
        condensed(rows, n, d, m).len() == pairs_before(n, m),
        0 <= pairs_before(n, i as nat) + (j - i - 1) < pairs_before(n, m),
        condensed(rows, n, d, m)[pairs_before(n, i as nat) + (j - i - 1)] == euclidean(
            rows,
            d,
            i,
            j,
        ),
    decreases m,
{
    let k = (m - 1) as nat;
    lemma_condensed_len(rows, n, d, k);
    lemma_condensed_len(rows, n, d, m);
    let own = distances_from(rows, n, d, k as int);
    if i < k {
        lemma_condensed(rows, n, d, k, i, j);
    } else {
        assert(own[j - i - 1] == euclidean(rows, d, i, j));
    }
}

proof fn lemma_condensed_len(rows: Seq<Double>, n: nat, d: nat, m: nat)
    requires
        m <= n,
    ensures
        condensed(rows, n, d, m).len() == pairs_before(n, m),
        2 * pairs_before(n, m) == m * (2 * n - m - 1),
        pairs_before(n, m) >= 0,
    decreases m,
{
    if m > 0 {
        lemma_condensed_len(rows, n, d, (m - 1) as nat);
        assert((m - 1) * (2 * n - (m - 1) - 1) + 2 * (n - m) == m * (2 * n - m - 1))
            by (nonlinear_arith);
    } else {
        assert(0 * (2 * n - 0 - 1) == 0) by (nonlinear_arith);
    }
}

/// The distances handed to the linkage are those of all pairs of rows, each once, row by
/// row: that of rows `i < j` comes after those of the rows before `i`, and after those
/// of `i` with the rows before `j`. Its square is the exact one, up to rounding.
pub proof fn law_linked_distances_are_euclidean(rows: Seq<Double>, n: nat, d: nat, i: int, j: int)
    requires
        are_moderate(rows, n, d),
        0 <= i < j < n,
    ensures
        2 * condensed(rows, n, d, n).len() == n * (n - 1),
        2 * pairs_before(n, i as nat) == i * (2 * n - i - 1),
        0 <= pairs_before(n, i as nat) + (j - i - 1) < condensed(rows, n, d, n).len(),
        ({
            let r = condensed(rows, n, d, n)[pairs_before(n, i as nat) + (j - i - 1)];
            let total = sum(exact_squares(rows, d, i, j));
            &&& r.finite()
            &&& 0 <= r.units()
            &&& 0x4_0000_0000_0000 * distance(r.units() * r.units(), total) <= square_error(
                d as int,
                total,
            )
        }),
{
    lemma_condensed(rows, n, d, n, i, j);
    lemma_condensed_len(rows, n, d, n);
    lemma_condensed_len(rows, n, d, i as nat);
    law_distance_is_euclidean(rows, n, d, i, j);
}

/// Rows at distance zero agree in every component, up to what squaring loses below the
/// smallest number.
pub proof fn law_rows_at_no_distance_agree(
    rows: Seq<Double>,
    n: nat,
    d: nat,
    i: int,
    j: int,
    k: int,
)
    requires
        are_moderate(rows, n, d),
        0 <= i < n,
        0 <= j < n,
        0 <= k < d,
        euclidean(rows, d, i, j).units() == 0,
    ensures
        ({
            let e = component(rows, d, i, k) - component(rows, d, j, k);
            e * e <= 4 * (d * one())
        }),
{
    law_distance_is_euclidean(rows, n, d, i, j);
    let t = exact_squares(rows, d, i, j);
    let total = sum(t);
    assert forall|m: int| 0 <= m < t.len() implies 0 <= #[trigger] t[m] by {
        let e = component(rows, d, i, m) - component(rows, d, j, m);
        assert(0 <= e * e) by (nonlinear_arith);
    }
    lemma_sum_nonnegative(t);
    assert(t[k] <= total);
    let du = d * one();
    let dt = d * total;
    lemma_one();
    assert(0 <= dt <= 0x100_0000_0000 * total && 0 <= du) by (nonlinear_arith)
        requires
            dt == d * total,
            du == d * one(),
            0 <= d <= 0x100_0000_0000,
            0 <= total,
            one() > 0,
    ;
    assert((d + 4) * total == dt + 4 * total) by (nonlinear_arith)
        requires
            dt == d * total,
    ;
    assert(0 * 0 == 0int);
}

/// The order of the components is of no account: with the components of all rows in
/// another order, every distance is the same, up to rounding.
pub proof fn law_component_order_is_of_no_account(
    rows: Seq<Double>,
    permuted: Seq<Double>,
    order: Seq<int>,
    n: nat,
    d: nat,
    i: int,
    j: int,
)
    requires
        are_moderate(rows, n, d),
        are_moderate(permuted, n, d),
        order.len() == d,
        is_selection(order, d as int),
        forall|m: int, k: int|
            0 <= m < n && 0 <= k < d ==> #[trigger] component(permuted, d, m, k) == component(
                rows,
                d,
                m,
                order[k],
            ),
        0 <= i < n,
        0 <= j < n,
    ensures
        ({
            let r = euclidean(rows, d, i, j).units();
            let s = euclidean(permuted, d, i, j).units();
            0x4_0000_0000_0000 * distance(r * r, s * s) <= 2 * square_error(
                d as int,
                sum(exact_squares(rows, d, i, j)),
            )
        }),
{
    let t = exact_squares(rows, d, i, j);
    let p = exact_squares(permuted, d, i, j);
    assert forall|k: int| 0 <= k < p.len() implies #[trigger] p[k] == t[order[k]] by {
        assert(0 <= order[k] < d);
        assert(component(permuted, d, i, k) == component(rows, d, i, order[k]));
        assert(component(permuted, d, j, k) == component(rows, d, j, order[k]));
    }
    lemma_sum_permuted(t, p, order);
    law_distance_is_euclidean(rows, n, d, i, j);
    law_distance_is_euclidean(permuted, n, d, i, j);
}

/// The exact products of the components of two rows.
pub open spec fn exact_products(rows: Seq<Double>, d: nat, i: int, j: int) -> Seq<int> {
    Seq::new(d, |k: int| component(rows, d, i, k) * component(rows, d, j, k))
}

/// The square of a distance is the two square lengths less twice the dot product of the
/// whole rows, up to rounding.
pub proof fn law_distance_and_dot_product(rows: Seq<Double>, n: nat, d: nat, i: int, j: int)
    requires
        are_moderate(rows, n, d),
        0 <= i < n,
        0 <= j < n,
    ensures
        ({
            let r = euclidean(rows, d, i, j).units();
            let total = sum(exact_products(rows, d, i, i)) + sum(exact_products(rows, d, j, j))
                - 2 * sum(exact_products(rows, d, i, j));
            0x4_0000_0000_0000 * distance(r * r, total) <= square_error(d as int, total)
        }),
{
    law_distance_is_euclidean(rows, n, d, i, j);
    let a = exact_products(rows, d, i, i);
    let b = exact_products(rows, d, j, j);
    let c = exact_products(rows, d, i, j);
    let ab = Seq::new(d, |k: int| a[k] + b[k]);
    let less = Seq::new(d, |k: int| c[k] * -2);
    let t = exact_squares(rows, d, i, j);
    lemma_sum_of_both(a, b, ab);
    lemma_sum_scaled(c, less, -2);
    assert forall|k: int| 0 <= k < t.len() implies #[trigger] t[k] == ab[k] + less[k] by {
        let x = component(rows, d, i, k);
        let y = component(rows, d, j, k);
        assert((x - y) * (x - y) == (x * x + y * y) + (x * y) * -2) by (nonlinear_arith);
    }
    lemma_sum_of_both(ab, less, t);
}

} // verus!
