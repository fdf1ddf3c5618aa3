//! Bounds on the rounding error of sums whose terms are rounded too.

use vstd::arithmetic::power2::{lemma_pow2_adds, lemma_pow2_pos, lemma_pow2_strictly_increases, pow2};
use vstd::prelude::*;
use crate::cluster::hungarian::sums::sum;
use crate::float::arith::abs;
use crate::float::error::{law_added_is_close, law_product_is_close, lemma_one, lemma_sizes_sum, limit, one, sizes_of, units_of};
use crate::float::error_single::{lemma_sum_scaled, lemma_sums_close};
use crate::float::grid::distance;
use crate::float::sums::added;
use crate::float::Double;

verus! {

/// A number of at most `2^400`.
pub open spec fn is_moderate(x: Double) -> bool {
    x.finite() && abs(x.units()) <= pow2(1474)
}

/// `x` is `t` (in squares of the unit), up to rounding.
pub open spec fn is_term(x: Double, t: int) -> bool {
    x.finite() && 0x4_0000_0000_0000 * distance(x.units() * one(), t) <= abs(t)
        + 0x4_0000_0000_0000 * one()
}

/// `2^50` times the error of a sum of `n` terms whose magnitudes add up to `size`.
pub open spec fn terms_error(n: int, size: int) -> int {
    (n + 4) * size + 0x8_0000_0000_0000 * (n * one())
}

/// A product of moderate numbers is the exact one, up to rounding.
pub proof fn lemma_product_term(a: Double, b: Double)
    requires
        is_moderate(a),
        is_moderate(b),
    ensures
        is_term(a.times(b), a.units() * b.units()),
        abs(a.units() * b.units()) <= pow2(2948),
{
    lemma_one();
    lemma_pow2_pos(1474);
    lemma_pow2_adds(1474, 1474);
    lemma_pow2_adds(2045, 1074);
    lemma_pow2_strictly_increases(2948, 3119);
    let most = pow2(1474) as int;
    let (x, y) = (a.units(), b.units());
    let t = x * y;
    assert(abs(t) <= most * most) by (nonlinear_arith)
        requires
            t == x * y,
            -most <= x <= most,
            -most <= y <= most,
            abs(t) == (if t < 0 { -t } else { t }),
    ;
    let u = one();
    assert(pow2(3119) <= limit() * u) by (nonlinear_arith)
        requires
            limit() == 0x10_0000_0000_0000 * pow2(2045),
            pow2(3119) == pow2(2045) * pow2(1074),
            u == pow2(1074),
            pow2(2045) * pow2(1074) >= 0,
    ;
    law_product_is_close(a, b);
    let r = a.times(b).units();
    let ru = r * u;
    let ra = abs(r);
    assert(abs(ru) == ra * u && (ra + 0x10_0000_0000_0000) * u == ra * u + 0x10_0000_0000_0000 * u)
        by (nonlinear_arith)
        requires
            ru == r * u,
            ra == (if r < 0 { -r } else { r }),
            abs(ru) == (if ru < 0 { -ru } else { ru }),
            u > 0,
    ;
}

/// The arithmetic of the bound.
proof fn lemma_terms_arith(n: int, u: int, su: int, qu: int, qsize: int, total: int, size: int)
    requires
        0 <= n <= 0x100_0000_0000,
        u > 0,
        0 <= size,
        0 <= qsize,
        0x10_0000_0000_0000 * distance(su, qu) <= n * qsize,
        0x4_0000_0000_0000 * distance(qu, total) <= size + 0x4_0000_0000_0000 * (n * u),
        0x4_0000_0000_0000 * distance(qsize, size) <= size + 0x4_0000_0000_0000 * (n * u),
    ensures
        0x4_0000_0000_0000 * distance(su, total) <= terms_error_of(n, u, size),
{
    let nu = n * u;
    let nq = n * qsize;
    let ns = n * size;
    let nnu = n * nu;
    assert(0 <= nu && 0 <= nq && 0 <= ns && 0 <= nnu <= 0x100_0000_0000 * nu) by (nonlinear_arith)
        requires
            nu == n * u,
            nq == n * qsize,
            ns == n * size,
            nnu == n * nu,
            0 <= n <= 0x100_0000_0000,
            u > 0,
            qsize >= 0,
            size >= 0,
    ;
    assert(0x4_0000_0000_0000 * qsize <= 0x4_0000_0000_0001 * size + 0x4_0000_0000_0000 * nu);
    assert(0x4_0000_0000_0000 * nq <= 0x4_0000_0000_0001 * ns + 0x4_0000_0000_0000 * nnu)
        by (nonlinear_arith)
        requires
            0x4_0000_0000_0000 * qsize <= 0x4_0000_0000_0001 * size + 0x4_0000_0000_0000 * nu,
            nq == n * qsize,
            ns == n * size,
            nnu == n * nu,
            n >= 0,
    ;
    assert((n + 4) * size == ns + 4 * size) by (nonlinear_arith)
        requires
            ns == n * size,
    ;
}

/// As [`terms_error`], for a unit of any size.
spec fn terms_error_of(n: int, u: int, size: int) -> int {
    (n + 4) * size + 0x8_0000_0000_0000 * (n * u)
}

/// The sum of two sequences, term by term.
pub proof fn lemma_sum_of_both(a: Seq<int>, b: Seq<int>, c: Seq<int>)
    requires
        a.len() == b.len() == c.len(),
        forall|k: int| 0 <= k < c.len() ==> #[trigger] c[k] == a[k] + b[k],
    ensures
        sum(c) == sum(a) + sum(b),
    decreases c.len(),
{
    if c.len() > 0 {
        let (a1, b1, c1) = (a.drop_last(), b.drop_last(), c.drop_last());
        assert forall|k: int| 0 <= k < c1.len() implies #[trigger] c1[k] == a1[k] + b1[k] by {
            assert(c[k] == a[k] + b[k]);
        }
        lemma_sum_of_both(a1, b1, c1);
        assert(c[c.len() - 1] == a[c.len() - 1] + b[c.len() - 1]);
    }
}

pub proof fn lemma_sum_of_one(s: Seq<int>, x: int)
    requires
        forall|k: int| 0 <= k < s.len() ==> #[trigger] s[k] == x,
    ensures
        sum(s) == s.len() * x,
    decreases s.len(),
{
    if s.len() > 0 {
        let t = s.drop_last();
        assert forall|k: int| 0 <= k < t.len() implies #[trigger] t[k] == x by {
            assert(s[k] == x);
        }
        lemma_sum_of_one(t, x);
        assert(s[s.len() - 1] == x);
        let n = s.len() as int;
        assert((n - 1) * x + x == n * x) by (nonlinear_arith);
    } else {
        assert(0 * x == 0);
    }
}

/// A sum of rounded terms is the exact sum of the exact terms, up to so many units in the
/// last place of the sum of their magnitudes.
#[verifier::spinoff_prover]
pub proof fn law_terms_add_up(start: Double, values: Seq<Double>, t: Seq<int>)
    requires
        start.finite(),
        start.units() == 0,
        values.len() == t.len(),
        values.len() <= 0x100_0000_0000,
        forall|k: int|
            0 <= k < t.len() ==> is_term(#[trigger] values[k], t[k]) && abs(t[k]) <= pow2(2950),
    ensures
        added(start, values, values.len()).finite(),
        abs(added(start, values, values.len()).units()) <= 2 * pow2(1918),
        0x4_0000_0000_0000 * distance(
            added(start, values, values.len()).units() * one(),
            sum(t),
        ) <= terms_error(values.len() as int, sum(sizes_of(t))),
{
    let n = values.len() as int;
    let u = one();
    lemma_one();
    let c = 0x4_0000_0000_0000int;
    let v = units_of(values);
    let z = sizes_of(v);
    let w = sizes_of(t);
    let scaled = Seq::new(n as nat, |k: int| v[k] * u);
    let sizes = Seq::new(n as nat, |k: int| z[k] * u);
    let errors = Seq::new(n as nat, |k: int| w[k] + c * u);
    let flat = Seq::new(n as nat, |k: int| c * u);
    assert forall|k: int| 0 <= k < n implies {
        &&& (#[trigger] values[k]).finite()
        &&& c * distance(scaled[k], t[k]) <= errors[k]
        &&& c * distance(sizes[k], w[k]) <= errors[k]
    } by {
        assert(is_term(values[k], t[k]));
        let x = v[k];
        assert(abs(x * u) == abs(x) * u) by (nonlinear_arith)
            requires
                abs(x) == (if x < 0 { -x } else { x }),
                abs(x * u) == (if x * u < 0 { -(x * u) } else { x * u }),
                u > 0,
        ;
    }
    assert forall|k: int| 0 <= k < n implies c * distance(#[trigger] scaled[k], t[k]) <= errors[k] by {
        assert(values[k].finite());
    }
    assert forall|k: int| 0 <= k < n implies c * distance(#[trigger] sizes[k], w[k]) <= errors[k] by {
        assert(values[k].finite());
    }
    lemma_sums_close(scaled, t, errors, c);
    lemma_sums_close(sizes, w, errors, c);
    lemma_sum_of_both(w, flat, errors);
    lemma_sum_of_one(flat, c * u);
    lemma_sum_scaled(v, scaled, u);
    lemma_sum_scaled(z, sizes, u);
    let size = sum(w);
    assert(w.take(n) =~= w);
    lemma_sizes_sum(t, n as nat);
    assert(z.take(n) =~= z);
    lemma_sizes_sum(v, n as nat);
    let q = sum(v);
    let qa = sum(z);
    let nu = n * u;
    assert(n * (c * u) == c * nu) by (nonlinear_arith)
        requires
            nu == n * u,
    ;
    // far below the limit
    let most = pow2(2950) as int;
    assert forall|k: int| 0 <= k < t.len() implies abs(#[trigger] t[k]) <= most by {
        assert(is_term(values[k], t[k]));
    }
    crate::float::error_single::lemma_sum_bounded(t, most);
    lemma_in_range(n, u, size, qa, most);
    assert(v.take(n) =~= v);
    law_added_is_close(start, values, n as nat);
    let s = added(start, values, n as nat);
    assert(distance(s.units(), q) <= qa) by (nonlinear_arith)
        requires
            0x10_0000_0000_0000 * distance(s.units(), q) <= n * qa,
            n <= 0x100_0000_0000,
            qa >= 0,
    ;
    let su = s.units() * u;
    let qu = q * u;
    let qau = qa * u;
    assert(0x10_0000_0000_0000 * distance(su, qu) <= n * qau && 0 <= qau) by (nonlinear_arith)
        requires
            0x10_0000_0000_0000 * distance(s.units(), q) <= n * qa,
            distance(s.units(), q) == (if s.units() <= q { q - s.units() } else { s.units() - q }),
            distance(su, qu) == (if su <= qu { qu - su } else { su - qu }),
            su == s.units() * u,
            qu == q * u,
            qau == qa * u,
            u > 0,
            0 <= qa,
    ;
    lemma_terms_arith(n, u, su, qu, qau, sum(t), size);
}

/// Sums of moderate terms stay in range.
proof fn lemma_in_range(n: int, u: int, total: int, q: int, most: int)
    requires
        0 <= n <= 0x100_0000_0000,
        u == one(),
        most == pow2(2950),
        0 <= q,
        0 <= total <= n * most,
        0x4_0000_0000_0000 * distance(q * u, total) <= total + 0x4_0000_0000_0000 * (n * u),
    ensures
        2 * q <= limit(),
        q <= pow2(1918),
{
    lemma_one();
    lemma_pow2_adds(1876, 1074);
    lemma_pow2_adds(42, 1876);
    lemma_pow2_strictly_increases(1918, 2045);
    lemma_pow2_pos(1876);
    vstd::arithmetic::power2::lemma2_to64();
    vstd::arithmetic::power2::lemma2_to64_rest();
    let a = pow2(1876) as int;
    let nu = n * u;
    let nm = n * most;
    assert(q * u <= 2 * nm + nu);
    assert(nm == (n * a) * u) by (nonlinear_arith)
        requires
            nm == n * most,
            most == a * u,
    ;
    assert(q <= 2 * (n * a) + n) by (nonlinear_arith)
        requires
            q * u <= 2 * nm + nu,
            nm == (n * a) * u,
            nu == n * u,
            u > 0,
    ;
    assert(n * a <= 0x100_0000_0000 * a) by (nonlinear_arith)
        requires
            0 <= n <= 0x100_0000_0000,
            a > 0,
    ;
    assert(n <= 0x100_0000_0000 * a) by (nonlinear_arith)
        requires
            0 <= n <= 0x100_0000_0000,
            a >= 1,
    ;
}

/// The first `n` numbers that are kept, added onto `start` in order.
pub open spec fn added_where(
    start: Double,
    values: Seq<Double>,
    kept: Seq<bool>,
    n: nat,
) -> Double
    decreases n,
{
    if n == 0 {
        start
    } else {
        let before = added_where(start, values, kept, (n - 1) as nat);
        if kept[n - 1] {
            before.plus(values[n - 1])
        } else {
            before
        }
    }
}

/// The exact values that are kept, zero in place of the others.
pub open spec fn kept_units(values: Seq<Double>, kept: Seq<bool>) -> Seq<int> {
    Seq::new(
        values.len(),
        |i: int|
            if kept[i] {
                values[i].units()
            } else {
                0
            },
    )
}

/// The sum of the numbers that are kept is the exact one, up to its length times a unit
/// in the last place of the sum of their magnitudes.
pub proof fn law_kept_add_up(start: Double, values: Seq<Double>, kept: Seq<bool>, n: nat)
    requires
        start.finite(),
        start.units() == 0,
        kept.len() == values.len(),
        n <= values.len(),
        n <= 0x8_0000_0000_0000,
        forall|i: int| 0 <= i < n && kept[i] ==> (#[trigger] values[i]).finite(),
        2 * sum(sizes_of(kept_units(values, kept)).take(n as int)) <= limit(),
    ensures
        added_where(start, values, kept, n).finite(),
        0x10_0000_0000_0000 * distance(
            added_where(start, values, kept, n).units(),
            sum(kept_units(values, kept).take(n as int)),
        ) <= n * sum(sizes_of(kept_units(values, kept)).take(n as int)),
    decreases n,
{
    let u = kept_units(values, kept);
    let z = sizes_of(u);
    if n > 0 {
        let m = (n - 1) as nat;
        lemma_sizes_sum(u, n);
        lemma_sizes_sum(u, m);
        crate::float::error::lemma_sum_step(u, m);
        crate::float::error::lemma_sum_step(z, m);
        law_kept_add_up(start, values, kept, m);
        let s = added_where(start, values, kept, m);
        let before = sum(u.take(m as int));
        let far = distance(s.units(), before);
        let a = sum(z.take(m as int));
        let a2 = sum(z.take(n as int));
        assert(far <= a) by (nonlinear_arith)
            requires
                0x10_0000_0000_0000 * far <= m * a,
                m <= 0x8_0000_0000_0000,
                a >= 0,
        ;
        if kept[m as int] {
            let v = values[m as int];
            assert(v.finite());
            crate::float::error::law_sum_is_close(s, v);
            let e = s.units() + v.units();
            let d = distance(s.plus(v).units(), e);
            let far2 = distance(s.plus(v).units(), sum(u.take(n as int)));
            crate::float::error::lemma_error_step(m as int, far, far2, a, a2, abs(e), d);
        } else {
            assert(m * a <= n * a2) by (nonlinear_arith)
                requires
                    0 <= m <= n,
                    0 <= a <= a2,
            ;
        }
    } else {
        assert(u.take(0).len() == 0);
        assert(z.take(0).len() == 0);
        assert(0x10_0000_0000_0000 * 0 == 0);
    }
}

/// A sum of the rounded terms that are kept is the exact sum of the exact ones.
#[verifier::spinoff_prover]
pub proof fn law_kept_terms_add_up(
    start: Double,
    values: Seq<Double>,
    kept: Seq<bool>,
    t: Seq<int>,
)
    requires
        start.finite(),
        start.units() == 0,
        values.len() == t.len() == kept.len(),
        values.len() <= 0x100_0000_0000,
        forall|k: int|
            0 <= k < t.len() && kept[k] ==> is_term(#[trigger] values[k], t[k]) && abs(t[k])
                <= pow2(2950),
        forall|k: int| 0 <= k < t.len() && !kept[k] ==> #[trigger] t[k] == 0,
    ensures
        added_where(start, values, kept, values.len()).finite(),
        0x4_0000_0000_0000 * distance(
            added_where(start, values, kept, values.len()).units() * one(),
            sum(t),
        ) <= terms_error(values.len() as int, sum(sizes_of(t))),
{
    let n = values.len() as int;
    let u = one();
    lemma_one();
    lemma_pow2_pos(2950);
    let c = 0x4_0000_0000_0000int;
    let v = kept_units(values, kept);
    let z = sizes_of(v);
    let w = sizes_of(t);
    let scaled = Seq::new(n as nat, |k: int| v[k] * u);
    let sizes = Seq::new(n as nat, |k: int| z[k] * u);
    let errors = Seq::new(n as nat, |k: int| w[k] + c * u);
    let flat = Seq::new(n as nat, |k: int| c * u);
    assert forall|k: int| 0 <= k < n implies {
        &&& c * distance(#[trigger] scaled[k], t[k]) <= errors[k]
        &&& c * distance(sizes[k], w[k]) <= errors[k]
        &&& abs(t[k]) <= pow2(2950)
    } by {
        let x = v[k];
        if kept[k] {
            assert(is_term(values[k], t[k]));
            assert(abs(x * u) == abs(x) * u) by (nonlinear_arith)
                requires
                    abs(x) == (if x < 0 { -x } else { x }),
                    abs(x * u) == (if x * u < 0 { -(x * u) } else { x * u }),
                    u > 0,
            ;
        } else {
            assert(t[k] == 0);
            assert(0 * u == 0);
        }
    }
    assert forall|k: int| 0 <= k < n implies c * distance(#[trigger] sizes[k], w[k]) <= errors[k] by {
        assert(c * distance(scaled[k], t[k]) <= errors[k]);
    }
    lemma_sums_close(scaled, t, errors, c);
    lemma_sums_close(sizes, w, errors, c);
    lemma_sum_of_both(w, flat, errors);
    lemma_sum_of_one(flat, c * u);
    lemma_sum_scaled(v, scaled, u);
    lemma_sum_scaled(z, sizes, u);
    let size = sum(w);
    assert(w.take(n) =~= w);
    lemma_sizes_sum(t, n as nat);
    assert(z.take(n) =~= z);
    lemma_sizes_sum(v, n as nat);
    let q = sum(v);
    let qa = sum(z);
    let nu = n * u;
    assert(n * (c * u) == c * nu) by (nonlinear_arith)
        requires
            nu == n * u,
    ;
    let most = pow2(2950) as int;
    assert forall|k: int| 0 <= k < t.len() implies abs(#[trigger] t[k]) <= most by {
        assert(c * distance(scaled[k], t[k]) <= errors[k]);
    }
    crate::float::error_single::lemma_sum_bounded(t, most);
    lemma_in_range(n, u, size, qa, most);
    assert(v.take(n) =~= v);
    assert forall|i: int| 0 <= i < n && kept[i] implies (#[trigger] values[i]).finite() by {
        assert(is_term(values[i], t[i]));
    }
    law_kept_add_up(start, values, kept, n as nat);
    let s = added_where(start, values, kept, n as nat);
    let su = s.units() * u;
    let qu = q * u;
    let qau = qa * u;
    assert(0x10_0000_0000_0000 * distance(su, qu) <= n * qau && 0 <= qau) by (nonlinear_arith)
        requires
            0x10_0000_0000_0000 * distance(s.units(), q) <= n * qa,
            distance(s.units(), q) == (if s.units() <= q { q - s.units() } else { s.units() - q }),
            distance(su, qu) == (if su <= qu { qu - su } else { su - qu }),
            su == s.units() * u,
            qu == q * u,
            qau == qa * u,
            u > 0,
            0 <= qa,
    ;
    lemma_terms_arith(n, u, su, qu, qau, sum(t), size);
}

} // verus!
