//! The rows that K-means starts from are distinct.

use vstd::arithmetic::power2::{lemma_pow2_adds, lemma_pow2_pos, pow2};
use vstd::prelude::*;
use crate::cluster::hungarian::assignment::positions;
use crate::cluster::hungarian::sums::{is_selection, lemma_selection_is_full};
use crate::cluster::kmeans::{chosen_rows, contents, first_above, nearest, picked_by_weight, picks, square_distance, square_terms, weights};
use crate::cluster::random::unit_interval;
use crate::float::arith::Num;
use crate::float::double::{binary64, lemma_double_format, Double};
use crate::float::exact::{is_place, lemma_place, place};
use crate::float::grid::{gap_exponent, half_span, lemma_half_span, lemma_parts, lemma_representable, lemma_split, lemma_units_increasing, lemma_units_step, rounds_to, significand, units};
use crate::float::laws::{law_sum_covers_its_terms, law_sum_is_monotone, lemma_sizes_grow, lemma_sum_with_zero, plain};
use crate::float::order::{lemma_natural_exact, lemma_nearest_exists, lemma_of_num};
use crate::float::sums::{added, sum};
use crate::matrix::{row, Grid};

verus! {

/// Every cell is finite.
pub open spec fn has_finite_cells(m: Grid) -> bool {
    forall|i: int, x: int|
        0 <= i < m.height && 0 <= x < m.width ==> (#[trigger] m.at(i, x)).finite()
}

/// The distances to weigh add up to zero, or to a number that is finite and above the
/// least normal one, so that every proper share of it is smaller.
pub open spec fn is_weighable(m: Grid, chosen: Seq<usize>) -> bool {
    let total = sum(weights(m, chosen_rows(m, chosen)));
    total.equals(Double::zero_spec()) || (total.finite() && total.num().magnitude
        > 0x10_0000_0000_0000)
}

/// So do the distances before each of the first `k` choices.
pub open spec fn are_weighable(m: Grid, k: nat, seed: u64) -> bool {
    forall|i: nat|
        1 <= i < k ==> is_weighable(m, (#[trigger] picks(m, i, seed)).chosen)
}

/// No row twice.
pub open spec fn is_distinct(chosen: Seq<usize>) -> bool {
    forall|a: int, b: int|
        0 <= a < chosen.len() && 0 <= b < chosen.len() && a != b ==> chosen[a] != chosen[b]
}

/// A square is not negative; the square of zero is zero.
proof fn lemma_square(x: Double)
    requires
        !x.nan(),
    ensures
        plain(binary64(), x.times(x).num()),
        x.num().magnitude == 0 ==> x.times(x).num().magnitude == 0,
{
    lemma_double_format();
    let f = binary64();
    let n = x.num();
    lemma_sizes_grow(f, n, n);
    let one = pow2(1074) as int;
    lemma_pow2_pos(1074);
    let size = f.size(n);
    assert(size * size >= 0) by (nonlinear_arith);
    lemma_nearest_exists(53, f.top as int, size * size, one);
    lemma_of_num(f.times(n, n));
    if n.magnitude == 0 {
        lemma_representable(53, f.top as int, one, 0);
        crate::float::arith::lemma_zero_units(53);
        assert(units(53, 0) * one == size * size) by (nonlinear_arith)
            requires
                units(53, 0) == 0,
                size == 0,
        ;
    }
}

/// The difference of finite numbers is no NaN; that of a number and itself is zero.
proof fn lemma_difference(x: Double, y: Double)
    requires
        x.finite(),
        y.finite(),
    ensures
        !x.minus(y).nan(),
        x == y ==> x.minus(y).num().magnitude == 0,
{
    lemma_double_format();
    let f = binary64();
    let m = Num { negative: !y.num().negative, magnitude: y.num().magnitude };
    lemma_of_num(m);
    let total = f.value(x.num()) + f.value(m);
    let size = if total < 0 { -total } else { total };
    lemma_nearest_exists(53, f.top as int, size, 1);
    lemma_of_num(f.plus(x.num(), m));
}

/// Adding up numbers that are not negative gives one; zeros add up to zero.
proof fn lemma_added_plain(start: Double, values: Seq<Double>, n: nat)
    requires
        start.num().magnitude == 0,
        n <= values.len(),
        forall|i: int|
            0 <= i < values.len() ==> plain(binary64(), (#[trigger] values[i]).num()),
    ensures
        !added(start, values, n).nan(),
        n > 0 || !start.num().negative ==> !added(start, values, n).num().negative,
        n == 0 ==> added(start, values, n) == start,
        (forall|i: int| 0 <= i < n ==> (#[trigger] values[i]).num().magnitude == 0) ==> added(
            start,
            values,
            n,
        ).num().magnitude == 0,
    decreases n,
{
    lemma_double_format();
    let f = binary64();
    if n > 0 {
        let k = (n - 1) as nat;
        lemma_added_plain(start, values, k);
        let s = added(start, values, k).num();
        let q = values[k as int].num();
        assert(plain(f, q));
        if k == 0 {
            lemma_sum_with_zero(f, q, s);
        } else {
            law_sum_covers_its_terms(f, s, q);
            if q.magnitude == 0 {
                lemma_sum_with_zero(f, s, q);
            }
        }
        lemma_of_num(f.plus(s, q));
    }
}

/// Which zero a sum starts from shows in its sign only, and only while it is zero.
proof fn lemma_starts_agree(values: Seq<Double>, n: nat)
    requires
        n <= values.len(),
        forall|i: int|
            0 <= i < values.len() ==> plain(binary64(), (#[trigger] values[i]).num()),
    ensures
        added(Double::zero_spec(), values, n).num().magnitude == added(
            Double::minus_zero_spec(),
            values,
            n,
        ).num().magnitude,
    decreases n,
{
    lemma_double_format();
    let f = binary64();
    if n > 0 {
        let k = (n - 1) as nat;
        lemma_starts_agree(values, k);
        let a = added(Double::zero_spec(), values, k);
        let b = added(Double::minus_zero_spec(), values, k);
        lemma_added_plain(Double::zero_spec(), values, k);
        lemma_added_plain(Double::minus_zero_spec(), values, k);
        let q = values[k as int].num();
        assert(plain(f, q));
        if k == 0 {
            lemma_sum_with_zero(f, q, a.num());
            lemma_sum_with_zero(f, q, b.num());
        } else {
            law_sum_covers_its_terms(f, a.num(), q);
        }
        lemma_of_num(f.plus(a.num(), q));
        lemma_of_num(f.plus(b.num(), q));
    }
}

/// Squared distances of finite rows are not negative; that to the row itself is zero.
proof fn lemma_distance(m: Grid, j: int, i: int)
    requires
        has_finite_cells(m),
        0 <= j < m.height,
        0 <= i < m.height,
    ensures
        !square_distance(m, j, row(m, i)).nan(),
        m.width > 0 ==> !square_distance(m, j, row(m, i)).num().negative,
        i == j ==> square_distance(m, j, row(m, i)).num().magnitude == 0,
        m.width == 0 ==> square_distance(m, j, row(m, i)) == Double::minus_zero_spec(),
{
    let c = row(m, i);
    let terms = square_terms(m, j, c);
    assert forall|x: int| 0 <= x < terms.len() implies plain(
        binary64(),
        (#[trigger] terms[x]).num(),
    ) && (i == j ==> terms[x].num().magnitude == 0) by {
        lemma_difference(m.at(j, x), m.at(i, x));
        lemma_square(m.at(j, x).minus(m.at(i, x)));
    }
    lemma_added_plain(Double::minus_zero_spec(), terms, terms.len());
}

/// The weight of a row is not negative, and zero for a chosen row.
proof fn lemma_weight(m: Grid, chosen: Seq<usize>, j: int, k: nat)
    requires
        has_finite_cells(m),
        m.width > 0,
        0 <= j < m.height,
        k <= chosen.len(),
        forall|c: int| 0 <= c < chosen.len() ==> (#[trigger] chosen[c]) < m.height,
    ensures
        plain(binary64(), nearest(m, j, chosen_rows(m, chosen), k).1.num()),
        (exists|c: int| 0 <= c < k && #[trigger] chosen[c] == j) ==> nearest(
            m,
            j,
            chosen_rows(m, chosen),
            k,
        ).1.num().magnitude == 0,
    decreases k,
{
    lemma_double_format();
    let points = chosen_rows(m, chosen);
    if k > 0 {
        lemma_weight(m, chosen, j, (k - 1) as nat);
        lemma_distance(m, j, chosen[k - 1] as int);
        let r = nearest(m, j, points, (k - 1) as nat);
        let d = square_distance(m, j, points[k - 1]);
        assert(points[k - 1] == row(m, chosen[k - 1] as int));
        if exists|c: int| 0 <= c < k && #[trigger] chosen[c] == j {
            let c = choose|c: int| 0 <= c < k && #[trigger] chosen[c] == j;
            if c < k - 1 {
                assert(r.1.num().magnitude == 0);
            } else {
                assert(d.num().magnitude == 0);
            }
        }
    }
}

/// A share below one, in units.
proof fn lemma_share(word: u64)
    ensures
        unit_interval(word).finite(),
        !unit_interval(word).num().negative,
        0 <= binary64().size(unit_interval(word).num()) <= 0x1f_ffff_ffff_ffff * pow2(1021),
{
    lemma_double_format();
    let f = binary64();
    let k = (word >> 11) as nat;
    assert(word >> 11 < 0x20_0000_0000_0000) by (bit_vector);
    lemma_natural_exact(k);
    let c = Double { bits: 0x3ca0_0000_0000_0000 };
    vstd::arithmetic::power2::lemma2_to64();
    vstd::arithmetic::power2::lemma2_to64_rest();
    let h = half_span(53);
    assert(h == 0x10_0000_0000_0000);
    lemma_parts(53, 969, h);
    lemma_pow2_adds(52, 969);
    assert(969 * h + h == 0x3ca0_0000_0000_0000);
    assert(f.size(c.num()) == pow2(1021));
    lemma_place(k, 1021);
    let b = place(k, 1021);
    let one = pow2(1074) as int;
    lemma_pow2_pos(1074);
    lemma_pow2_pos(1021);
    let n = Double::natural(k).num();
    assert(f.size(c.num()) * f.size(n) == units(53, b) * one) by (nonlinear_arith)
        requires
            f.size(c.num()) == pow2(1021),
            f.size(n) == k * one,
            units(53, b) == k * pow2(1021),
    ;
    lemma_representable(53, f.top as int, one, b);
    lemma_of_num(f.times(c.num(), n));
    assert(k * pow2(1021) <= 0x1f_ffff_ffff_ffff * pow2(1021)) by (nonlinear_arith)
        requires
            k <= 0x1f_ffff_ffff_ffff,
            pow2(1021) > 0,
    ;
    assert(k * pow2(1021) >= 0) by (nonlinear_arith)
        requires
            k >= 0,
    ;
}

/// A proper share of a number above the least normal one is smaller.
proof fn lemma_share_is_smaller(word: u64, total: Double)
    requires
        total.finite(),
        !total.num().negative,
        total.num().magnitude > 0x10_0000_0000_0000,
    ensures
        ({
            let t = unit_interval(word).times(total);
            &&& !t.nan()
            &&& !t.num().negative
            &&& t.num().magnitude < total.num().magnitude
        }),
{
    lemma_double_format();
    lemma_share(word);
    let f = binary64();
    let top = f.top as int;
    let u = unit_interval(word).num();
    let b = total.num().magnitude as int;
    let s = units(53, b);
    let part = f.size(u);
    let one = pow2(1074) as int;
    let q = pow2(1021) as int;
    vstd::arithmetic::power2::lemma2_to64();
    vstd::arithmetic::power2::lemma2_to64_rest();
    lemma_pow2_adds(1021, 53);
    lemma_pow2_pos(1021);
    lemma_units_step(53, b - 1);
    let g = pow2(gap_exponent(53, b - 1)) as int;
    lemma_pow2_pos(gap_exponent(53, b - 1));
    lemma_split(53, b - 1);
    lemma_half_span(53);
    let low = units(53, b - 1);
    // the number below has a full significand
    assert(significand(53, b - 1) >= 0x10_0000_0000_0000) by {
        if gap_exponent(53, b - 1) == 0 {
            assert(0 * half_span(53) == 0);
        }
    }
    assert(low >= 0x10_0000_0000_0000 * g) by (nonlinear_arith)
        requires
            low == significand(53, b - 1) * g,
            significand(53, b - 1) >= 0x10_0000_0000_0000,
            g > 0,
    ;
    let num = part * s;
    assert(num >= 0) by (nonlinear_arith)
        requires
            num == part * s,
            part >= 0,
            s >= 0,
    ;
    lemma_nearest_exists(53, top, num, one);
    let r = crate::float::grid::nearest(53, top, num, one);
    assert(rounds_to(53, top, num, one, r));
    if r >= b {
        if r > b {
            lemma_units_increasing(53, b, r);
            if r - 1 > b {
                lemma_units_increasing(53, b, r - 1);
            }
            lemma_units_increasing(53, b - 1, r - 1);
        }
        let sum = units(53, r - 1) + units(53, r);
        let least = low + s;
        assert(sum * one >= least * one) by (nonlinear_arith)
            requires
                sum >= least,
                one > 0,
        ;
        assert(2 * num <= 2 * (0x1f_ffff_ffff_ffff * q * s)) by (nonlinear_arith)
            requires
                num == part * s,
                part <= 0x1f_ffff_ffff_ffff * q,
                s >= 0,
        ;
        assert(least * 0x20_0000_0000_0000 <= 2 * (0x1f_ffff_ffff_ffff * s)) by (nonlinear_arith)
            requires
                least * one <= 2 * (0x1f_ffff_ffff_ffff * q * s),
                one == q * 0x20_0000_0000_0000,
                q > 0,
        ;
        assert(false);
    }
    lemma_of_num(f.times(u, total.num()));
}

/// Where some sum exceeds `t`, the position found is the first whose sum does.
proof fn lemma_first_above(w: Seq<Double>, t: Double, j: nat)
    requires
        j <= w.len(),
        !t.below(added(Double::zero_spec(), w, j)),
        t.below(added(Double::zero_spec(), w, w.len())),
    ensures
        j <= first_above(w, t, j) < w.len(),
        t.below(added(Double::zero_spec(), w, (first_above(w, t, j) + 1) as nat)),
        !t.below(added(Double::zero_spec(), w, first_above(w, t, j) as nat)),
    decreases w.len() - j,
{
    if j < w.len() && !t.below(added(Double::zero_spec(), w, j + 1)) {
        lemma_first_above(w, t, j + 1);
    }
}

/// The row that a random word picks by weight was not chosen before.
pub proof fn lemma_pick_is_new(m: Grid, chosen: Seq<usize>, word: u64)
    requires
        has_finite_cells(m),
        forall|c: int| 0 <= c < chosen.len() ==> (#[trigger] chosen[c]) < m.height,
        chosen.len() > 0,
        is_weighable(m, chosen),
        !sum(weights(m, chosen_rows(m, chosen))).equals(Double::zero_spec()),
        m.height <= usize::MAX,
    ensures
        !chosen.contains(picked_by_weight(weights(m, chosen_rows(m, chosen)), word) as usize),
{
    lemma_double_format();
    let f = binary64();
    let w = weights(m, chosen_rows(m, chosen));
    let n = w.len();
    let total = sum(w);
    if m.width == 0 {
        // rows without columns have no distance
        assert forall|j: int| 0 <= j < n implies w[j].num().magnitude == 0 by {
            lemma_narrow_weight(m, chosen, j, chosen.len());
        }
        lemma_zeros(w, n);
        assert(false);
    }
    assert forall|j: int| 0 <= j < n implies plain(f, (#[trigger] w[j]).num()) by {
        lemma_weight(m, chosen, j, chosen.len());
    }
    lemma_added_plain(Double::minus_zero_spec(), w, n);
    lemma_added_plain(Double::zero_spec(), w, n);
    lemma_starts_agree(w, n);
    lemma_share_is_smaller(word, total);
    let t = unit_interval(word).times(total);
    assert(t.below(added(Double::zero_spec(), w, n)));
    assert(!t.below(added(Double::zero_spec(), w, 0)));
    lemma_first_above(w, t, 0);
    let p = first_above(w, t, 0);
    assert(p == picked_by_weight(w, word));
    if chosen.contains(p as usize) {
        let c = choose|c: int| 0 <= c < chosen.len() && chosen[c] == p as usize;
        assert(chosen[c] == p);
        lemma_weight(m, chosen, p, chosen.len());
        lemma_added_plain(Double::zero_spec(), w, p as nat);
        let s = added(Double::zero_spec(), w, p as nat).num();
        lemma_sum_with_zero(f, s, w[p].num());
        lemma_of_num(f.plus(s, w[p].num()));
    }
}

/// Rows without columns have no weight.
proof fn lemma_narrow_weight(m: Grid, chosen: Seq<usize>, j: int, k: nat)
    requires
        has_finite_cells(m),
        m.width == 0,
        0 <= j < m.height,
        0 < k <= chosen.len(),
        forall|c: int| 0 <= c < chosen.len() ==> (#[trigger] chosen[c]) < m.height,
    ensures
        nearest(m, j, chosen_rows(m, chosen), k).1 == Double::minus_zero_spec(),
    decreases k,
{
    lemma_double_format();
    let points = chosen_rows(m, chosen);
    lemma_distance(m, j, chosen[k - 1] as int);
    assert(points[k - 1] == row(m, chosen[k - 1] as int));
    if k > 1 {
        lemma_narrow_weight(m, chosen, j, (k - 1) as nat);
    } else {
        assert(nearest(m, j, points, 0).1 == Double::infinity_spec());
    }
}

/// Zeros of either sign add up to zero.
proof fn lemma_zeros(w: Seq<Double>, n: nat)
    requires
        n <= w.len(),
        forall|j: int| 0 <= j < w.len() ==> (#[trigger] w[j]).num().magnitude == 0,
    ensures
        added(Double::minus_zero_spec(), w, n).num().magnitude == 0,
        added(Double::minus_zero_spec(), w, n).equals(Double::zero_spec()),
    decreases n,
{
    lemma_double_format();
    let f = binary64();
    if n > 0 {
        lemma_zeros(w, (n - 1) as nat);
        let s = added(Double::minus_zero_spec(), w, (n - 1) as nat).num();
        lemma_sum_with_zero(f, s, w[n - 1].num());
        lemma_of_num(f.plus(s, w[n - 1].num()));
    }
}

/// The squared distance of two rows is zero, or above the least normal number and at
/// most `2^900`.
pub open spec fn is_ordinary_distance(x: Double) -> bool {
    x.num().magnitude == 0 || (x.num().magnitude > 0x10_0000_0000_0000 && x.finite()
        && binary64().size(x.num()) <= pow2(1974))
}

/// No squared distance of two rows overflows or vanishes.
pub open spec fn has_ordinary_distances(m: Grid) -> bool {
    forall|i: int, j: int|
        0 <= i < m.height && 0 <= j < m.height ==> is_ordinary_distance(
            #[trigger] square_distance(m, i, row(m, j)),
        )
}

/// A weight is one of the squared distances.
proof fn lemma_ordinary_weight(m: Grid, chosen: Seq<usize>, j: int, k: nat)
    requires
        has_finite_cells(m),
        has_ordinary_distances(m),
        0 <= j < m.height,
        0 < k <= chosen.len(),
        forall|c: int| 0 <= c < chosen.len() ==> (#[trigger] chosen[c]) < m.height,
    ensures
        is_ordinary_distance(nearest(m, j, chosen_rows(m, chosen), k).1),
        nearest(m, j, chosen_rows(m, chosen), k).1.finite(),
    decreases k,
{
    lemma_double_format();
    let points = chosen_rows(m, chosen);
    let d = square_distance(m, j, row(m, chosen[k - 1] as int));
    assert(points[k - 1] == row(m, chosen[k - 1] as int));
    lemma_distance(m, j, chosen[k - 1] as int);
    assert(is_ordinary_distance(d));
    assert(d.finite());
    if k > 1 {
        lemma_ordinary_weight(m, chosen, j, (k - 1) as nat);
    } else {
        assert(nearest(m, j, points, 0).1 == Double::infinity_spec());
    }
}

/// Sums of ordinary distances stay finite and cover their terms.
proof fn lemma_ordinary_sum(w: Seq<Double>, n: nat)
    requires
        n <= w.len(),
        w.len() < 0x20_0000_0000_0000,
        forall|j: int|
            0 <= j < w.len() ==> plain(binary64(), (#[trigger] w[j]).num())
                && is_ordinary_distance(w[j]),
    ensures
        is_place(n, 1974, place(n, 1974)),
        added(Double::minus_zero_spec(), w, n).num().magnitude <= place(n, 1974),
        forall|j: int|
            0 <= j < n ==> (#[trigger] w[j]).num().magnitude <= added(
                Double::minus_zero_spec(),
                w,
                n,
            ).num().magnitude,
    decreases n,
{
    lemma_double_format();
    let f = binary64();
    let p = pow2(1974) as int;
    lemma_pow2_pos(1974);
    lemma_place(n, 1974);
    lemma_added_plain(Double::minus_zero_spec(), w, n);
    if n > 0 {
        let k = (n - 1) as nat;
        lemma_ordinary_sum(w, k);
        lemma_added_plain(Double::minus_zero_spec(), w, k);
        lemma_place(1, 1974);
        let s = added(Double::minus_zero_spec(), w, k).num();
        let q = w[k as int].num();
        assert(plain(f, q) && is_ordinary_distance(w[k as int]));
        let before = Num { negative: false, magnitude: place(k, 1974) as u64 };
        let unit = Num { negative: false, magnitude: place(1, 1974) as u64 };
        let after = Num { negative: false, magnitude: place(n, 1974) as u64 };
        assert(1 * p == p);
        if q.magnitude > unit.magnitude {
            lemma_sizes_grow(f, unit, q);
            lemma_sizes_grow(f, q, q);
        }
        assert(k * p + p == n * p) by (nonlinear_arith)
            requires
                n == k + 1,
        ;
        assert(n * p > 0) by (nonlinear_arith)
            requires
                n > 0,
                p > 0,
        ;
        lemma_representable(53, f.top as int, 1, place(n, 1974));
        assert(f.plus(before, unit) == after);
        let s_plain = Num { negative: false, magnitude: s.magnitude };
        law_sum_is_monotone(f, s_plain, q, before, unit);
        law_sum_covers_its_terms(f, s_plain, q);
        if s.magnitude == 0 {
            lemma_sum_with_zero(f, q, s);
            lemma_sum_with_zero(f, q, s_plain);
        }
        lemma_of_num(f.plus(s, q));
        let now = added(Double::minus_zero_spec(), w, n).num();
        assert(now.magnitude == f.plus(s_plain, q).magnitude);
        assert forall|j: int| 0 <= j < n implies (#[trigger] w[j]).num().magnitude
            <= now.magnitude by {
            if j < k {
                assert(w[j].num().magnitude <= s.magnitude);
            }
        }
    }
}

/// Where no squared distance of two rows overflows or vanishes, the distances to any
/// rows chosen before can be weighed.
pub proof fn law_ordinary_rows_are_weighable(m: Grid, chosen: Seq<usize>)
    requires
        has_finite_cells(m),
        has_ordinary_distances(m),
        m.height < 0x20_0000_0000_0000,
        chosen.len() > 0,
        forall|c: int| 0 <= c < chosen.len() ==> (#[trigger] chosen[c]) < m.height,
    ensures
        is_weighable(m, chosen),
{
    lemma_double_format();
    let w = weights(m, chosen_rows(m, chosen));
    let n = w.len();
    if m.width == 0 {
        assert forall|j: int| 0 <= j < n implies w[j].num().magnitude == 0 by {
            lemma_narrow_weight(m, chosen, j, chosen.len());
        }
        lemma_zeros(w, n);
    } else {
        assert forall|j: int| 0 <= j < n implies plain(binary64(), (#[trigger] w[j]).num())
            && is_ordinary_distance(w[j]) by {
            lemma_weight(m, chosen, j, chosen.len());
            lemma_ordinary_weight(m, chosen, j, chosen.len());
        }
        lemma_ordinary_sum(w, n);
        if forall|j: int| 0 <= j < n ==> (#[trigger] w[j]).num().magnitude == 0 {
            lemma_zeros(w, n);
        } else {
            let j = choose|j: int| 0 <= j < n && (#[trigger] w[j]).num().magnitude != 0;
            assert(is_ordinary_distance(w[j]));
            assert(w[j].num().magnitude <= sum(w).num().magnitude);
        }
    }
}

/// As many distinct rows as there are are all rows: every row is chosen, and by
/// distinctness once.
pub proof fn law_distinct_seeds_are_all_rows(chosen: Seq<usize>, n: nat)
    requires
        is_distinct(chosen),
        chosen.len() == n,
        forall|c: int| 0 <= c < chosen.len() ==> (#[trigger] chosen[c]) < n,
    ensures
        forall|j: usize| j < n ==> #[trigger] chosen.contains(j),
{
    let p = positions(chosen);
    assert(is_selection(p, n as int)) by {
        assert forall|k: int| 0 <= k < p.len() implies 0 <= #[trigger] p[k] < n by {
            assert(chosen[k] < n);
        }
    }
    lemma_selection_is_full(p, n as int);
    assert forall|j: usize| j < n implies #[trigger] chosen.contains(j) by {
        assert(p.contains(j as int));
        let k = choose|k: int| 0 <= k < p.len() && p[k] == j;
        assert(chosen[k] == j);
    }
}

/// Seeding the same rows from the same seed gives the same rows.
pub proof fn law_seeding_is_repeatable(
    m: Grid,
    k: nat,
    seed: u64,
    a: Seq<Vec<Double>>,
    b: Seq<Vec<Double>>,
)
    requires
        contents(a) == chosen_rows(m, picks(m, k, seed).chosen),
        contents(b) == chosen_rows(m, picks(m, k, seed).chosen),
    ensures
        contents(a) == contents(b),
        a.len() == b.len(),
{
    assert(contents(a).len() == a.len() && contents(b).len() == b.len());
}

} // verus!
