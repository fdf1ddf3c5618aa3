//! What the matrices of spectral clustering hold, in exact arithmetic, and what scaling
//! rows to unit length does.

use vstd::arithmetic::power2::{lemma_pow2_adds, lemma_pow2_pos, lemma_pow2_strictly_increases, pow2};
use vstd::prelude::*;
use crate::cluster::ahc::algo::{flat_row, squared_norm, squares_to, unit_rows as flat_unit_rows};
use crate::cluster::hungarian::sums::{lemma_index, sum};
use crate::cluster::spectral::{affinities, affinity_at, degree, laplacian, laplacian_at, degrees, row_norm, row_squares, unit_cell, unit_rows};
use crate::embed::types::{norm_epsilon, Embedding};
use crate::float::arith::abs;
use crate::float::error::{law_added_is_close, law_product_is_close, lemma_one, limit, one, sizes_of, units_of};
use crate::float::error_terms::{is_moderate, is_term};
use crate::float::grid::distance;
use crate::float::norms::{law_inverse_divides, law_root_of_squares_is_the_length, lemma_square_term, lemma_squares_not_negative, length_error};
use crate::float::relative::{is_near, is_plain, lemma_near_back, lemma_near_chain, lemma_near_divided, lemma_near_product, lemma_near_scaled, lemma_usual_product, lemma_usual_quotient, lemma_usual_root};
use crate::float::sums::added;
use crate::float::Double;
use crate::float::nearest::lemma_one_number;
use crate::matrix::{Grid, lemma_tabulated_cell, row};

verus! {

/// The affinities are those of the pairs, the same from both sides; an embedding has
/// none to itself.
pub proof fn law_affinities_are_mutual(embeddings: Seq<Embedding>, i: int, j: int)
    requires
        0 <= i < embeddings.len(),
        0 <= j < embeddings.len(),
    ensures
        affinities(embeddings).at(i, j) == affinities(embeddings).at(j, i),
        affinities(embeddings).at(i, i) == Double::zero_spec(),
        i < j ==> affinities(embeddings).at(i, j) == crate::cluster::agglomerative::affinity(
            embeddings[i],
            embeddings[j],
        ).widened(),
{
    let n = embeddings.len();
    let f = |i: int, j: int| affinity_at(embeddings, i, j);
    lemma_tabulated_cell(n, n, f, i, j);
    lemma_tabulated_cell(n, n, f, j, i);
    lemma_tabulated_cell(n, n, f, i, i);
}

/// The exact values of row `i`.
pub open spec fn row_units(a: Grid, i: int) -> Seq<int> {
    Seq::new(a.width, |j: int| a.at(i, j).units())
}

/// A degree is the sum of a whole row, up to rounding.
pub proof fn law_degree_is_the_row_sum(a: Grid, i: int)
    requires
        a.width <= 0x8_0000_0000_0000,
        forall|j: int| 0 <= j < a.width ==> (#[trigger] a.at(i, j)).finite(),
        2 * sum(sizes_of(row_units(a, i))) <= limit(),
    ensures
        degree(a, i).finite(),
        0x10_0000_0000_0000 * distance(degree(a, i).units(), sum(row_units(a, i))) <= a.width * sum(
            sizes_of(row_units(a, i)),
        ),
{
    let r = row(a, i);
    let n = a.width as int;
    assert(units_of(r) =~= row_units(a, i));
    assert(units_of(r).take(n) =~= units_of(r));
    assert(sizes_of(units_of(r)).take(n) =~= sizes_of(units_of(r)));
    assert forall|j: int| 0 <= j < n implies (#[trigger] r[j]).finite() by {
        assert(a.at(i, j).finite());
    }
    crate::float::double::lemma_double_format();
    crate::float::arith::lemma_zero_units(53);
    law_added_is_close(Double::zero_spec(), r, a.width);
}

/// Products do not depend on the order of their factors.
proof fn lemma_times_commutes(a: Double, b: Double)
    ensures
        a.times(b) == b.times(a),
{
    let f = crate::float::double::binary64();
    let (x, y) = (a.num(), b.num());
    assert(f.size(x) * f.size(y) == f.size(y) * f.size(x)) by (nonlinear_arith);
}

/// The Laplacian of mutual affinities is symmetric, to the last bit.
pub proof fn law_laplacian_is_symmetric(a: Grid, i: int, j: int)
    requires
        0 <= i < a.height,
        0 <= j < a.height,
        a.at(i, j) == a.at(j, i),
    ensures
        laplacian(a).height == a.height,
        laplacian(a).width == a.height,
        laplacian(a).at(i, j) == laplacian(a).at(j, i),
{
    let d = degrees(a);
    let f = |i: int, j: int| laplacian_at(a, d, i, j);
    lemma_tabulated_cell(a.height, a.height, |i: int, j: int| laplacian_at(a, degrees(a), i, j), i, j);
    lemma_tabulated_cell(a.height, a.height, |i: int, j: int| laplacian_at(a, degrees(a), i, j), j, i);
    lemma_times_commutes(
        Double::one_spec().over(d[i].root()),
        Double::one_spec().over(d[j].root()),
    );
}

/// A number between two others, from its square.
proof fn lemma_between(s: int, low: int, high: int)
    requires
        0 <= s,
        0 <= low,
        0 <= high,
        low * low <= s * s <= high * high,
    ensures
        low <= s <= high,
{
    assert(low <= s && s <= high) by (nonlinear_arith)
        requires
            0 <= s,
            0 <= low,
            0 <= high,
            low * low <= s * s,
            s * s <= high * high,
    ;
}

/// The inverse of the root of a degree: its square times the degree is one.
#[verifier::spinoff_prover]
proof fn lemma_inverse_root(d: Double)
    requires
        is_plain(d),
    ensures
        ({
            let w = Double::one_spec().over(d.root());
            &&& w.finite()
            &&& pow2(1020) <= w.units() <= pow2(1128)
            &&& is_near((w.units() * w.units()) * d.units(), one() * (one() * one()), 6)
        }),
{
    let u = one();
    lemma_one_number();
    lemma_pow2_pos(974);
    lemma_usual_root(d);
    let s = d.root();
    let du = d.units() * u;
    let ss = s.units() * s.units();
    // the root lies between 2^1023 and 2^1125
    lemma_pow2_adds(974, 1074);
    lemma_pow2_adds(1174, 1074);
    lemma_pow2_adds(1023, 1023);
    lemma_pow2_adds(1125, 1125);
    lemma_pow2_adds(2, 2046);
    lemma_pow2_adds(2, 2248);
    lemma_pow2_pos(1023);
    lemma_pow2_pos(1125);
    vstd::arithmetic::power2::lemma2_to64();
    assert(pow2(2048) <= du <= pow2(2248)) by (nonlinear_arith)
        requires
            du == d.units() * u,
            pow2(974) <= d.units() <= pow2(1174),
            u == pow2(1074),
            u > 0,
            pow2(2048) == pow2(974) * pow2(1074),
            pow2(2248) == pow2(1174) * pow2(1074),
    ;
    assert(1 * du == du);
    assert(pow2(2048) == 4 * pow2(2046)) by (nonlinear_arith)
        requires
            pow2(2048) == pow2(2) * pow2(2046),
            pow2(2) == 4,
    ;
    assert(pow2(2250) == 4 * pow2(2248)) by (nonlinear_arith)
        requires
            pow2(2250) == pow2(2) * pow2(2248),
            pow2(2) == 4,
    ;
    assert(pow2(2046) <= ss <= pow2(2250));
    lemma_between(s.units(), pow2(1023) as int, pow2(1125) as int);
    // the inverse
    let y = s.units();
    lemma_pow2_adds(2045, 1023);
    lemma_pow2_adds(1074, 1074);
    lemma_pow2_strictly_increases(2148, 3068);
    lemma_pow2_adds(64, 1125);
    lemma_pow2_strictly_increases(1189, 2148);
    assert(u * u <= limit() * y) by (nonlinear_arith)
        requires
            u * u <= pow2(3068),
            limit() == 0x10_0000_0000_0000 * pow2(2045),
            pow2(3068) == pow2(2045) * pow2(1023),
            y >= pow2(1023),
            limit() > 0,
            pow2(1023) > 0,
    ;
    assert(pow2(64) * y <= u * u) by (nonlinear_arith)
        requires
            y <= pow2(1125),
            pow2(1189) == pow2(64) * pow2(1125),
            pow2(1189) <= u * u,
            pow2(64) >= 0,
    ;
    lemma_usual_quotient(Double::one_spec(), s);
    let w = Double::one_spec().over(s);
    let x = w.units();
    let xy = x * y;
    let uu = u * u;
    assert(1 * uu == uu);
    lemma_pow2_adds(1020, 1125);
    lemma_pow2_strictly_increases(2145, 2147);
    lemma_pow2_adds(1, 2147);
    lemma_pow2_adds(1128, 1023);
    lemma_pow2_strictly_increases(2149, 2151);
    lemma_pow2_adds(1, 2148);
    assert(pow2(2145) <= xy <= pow2(2151));
    assert(pow2(1020) <= x) by (nonlinear_arith)
        requires
            pow2(2145) <= xy,
            xy == x * y,
            0 < y <= pow2(1125),
            pow2(2145) == pow2(1020) * pow2(1125),
            x >= 0,
    ;
    assert(x <= pow2(1128)) by (nonlinear_arith)
        requires
            xy <= pow2(2151),
            xy == x * y,
            y >= pow2(1023),
            pow2(2151) == pow2(1128) * pow2(1023),
            pow2(1023) > 0,
            x >= 0,
    ;
    // x y ~ u u, y y ~ d u
    lemma_near_product(xy, uu, xy, uu, 1, 1);
    let xx = x * x;
    let yy = y * y;
    assert(xy * xy == xx * yy) by (nonlinear_arith)
        requires
            xy == x * y,
            xx == x * x,
            yy == y * y,
    ;
    lemma_near_back(yy, du, 1);
    assert(0 <= xx) by (nonlinear_arith)
        requires
            xx == x * x,
    ;
    lemma_near_scaled(du, yy, xx, 2);
    assert(du * xx == (xx * d.units()) * u && yy * xx == xx * yy) by (nonlinear_arith)
        requires
            du == d.units() * u,
    ;
    lemma_near_chain((xx * d.units()) * u, xx * yy, uu * uu, 2, 3);
    assert(uu * uu == (u * uu) * u) by (nonlinear_arith)
        requires
            uu == u * u,
    ;
    lemma_near_divided(xx * d.units(), u * uu, u, 6);
}

/// A cell of the Laplacian off the diagonal is not positive, and its square times both
/// degrees is the square of the affinity, up to rounding: the affinity is divided by the
/// roots of both degrees. Without affinity it is zero.
#[verifier::spinoff_prover]
pub proof fn law_laplacian_divides_by_both_roots(a: Grid, d: Seq<Double>, i: int, j: int)
    requires
        i != j,
        is_plain(d[i]),
        is_plain(d[j]),
        is_plain(a.at(i, j)),
    ensures
        ({
            let r = laplacian_at(a, d, i, j).units();
            let x = a.at(i, j).units();
            &&& laplacian_at(a, d, i, j).finite()
            &&& r < 0
            &&& is_near(
                (r * r) * (d[i].units() * d[j].units()),
                (x * x) * (one() * one()),
                30,
            )
        }),
{
    let u = one();
    lemma_one();
    lemma_inverse_root(d[i]);
    lemma_inverse_root(d[j]);
    let v = Double::one_spec().over(d[i].root());
    let w = Double::one_spec().over(d[j].root());
    let (p, q) = (v.units(), w.units());
    let pq = p * q;
    lemma_pow2_adds(1020, 1020);
    lemma_pow2_adds(1128, 1128);
    lemma_pow2_strictly_increases(1200, 2040);
    lemma_pow2_strictly_increases(2256, 3100);
    lemma_pow2_pos(1020);
    assert(pow2(2040) <= pq <= pow2(2256)) by (nonlinear_arith)
        requires
            pq == p * q,
            pow2(1020) <= p <= pow2(1128),
            pow2(1020) <= q <= pow2(1128),
            pow2(2040) == pow2(1020) * pow2(1020),
            pow2(2256) == pow2(1128) * pow2(1128),
    ;
    lemma_usual_product(v, w);
    let vw = v.times(w);
    let m = vw.units();
    let mu = m * u;
    // m lies between 2^965 and 2^1183
    lemma_pow2_adds(965, 1074);
    lemma_pow2_adds(1183, 1074);
    lemma_pow2_adds(1, 2039);
    lemma_pow2_adds(1, 2256);
    vstd::arithmetic::power2::lemma2_to64();
    assert(1 * pq == pq);
    assert(pow2(2039) <= mu <= pow2(2257));
    assert(pow2(965) <= m <= pow2(1183)) by (nonlinear_arith)
        requires
            pow2(2039) <= mu,
            mu <= pow2(2257),
            mu == m * u,
            u == pow2(1074),
            u > 0,
            pow2(2039) == pow2(965) * pow2(1074),
            pow2(2257) == pow2(1183) * pow2(1074),
    ;
    let c = a.at(i, j);
    let x = c.units();
    let xm = x * m;
    lemma_pow2_adds(974, 965);
    lemma_pow2_adds(1174, 1183);
    lemma_pow2_strictly_increases(1200, 1939);
    lemma_pow2_strictly_increases(2357, 3100);
    lemma_pow2_pos(974);
    assert(pow2(1939) <= xm <= pow2(2357)) by (nonlinear_arith)
        requires
            xm == x * m,
            pow2(974) <= x <= pow2(1174),
            pow2(965) <= m <= pow2(1183),
            pow2(1939) == pow2(974) * pow2(965),
            pow2(2357) == pow2(1174) * pow2(1183),
    ;
    lemma_usual_product(c, vw);
    let t = c.times(vw);
    let r = t.units();
    let ru = r * u;
    assert(1 * xm == xm);
    lemma_pow2_pos(1939);
    assert(r > 0) by (nonlinear_arith)
        requires
            ru == r * u,
            ru > 0,
            u > 0,
    ;
    // negating turns the sign over
    crate::float::double::lemma_double_format();
    let n = t.num();
    crate::float::order::lemma_of_num(
        crate::float::arith::Num { negative: !n.negative, magnitude: n.magnitude },
    );
    assert(laplacian_at(a, d, i, j) == t.negated());
    assert(t.negated().units() == -r);
    assert((-r) * (-r) == r * r) by (nonlinear_arith);
    // squares
    let (e, f) = (d[i].units(), d[j].units());
    let uuu = u * (u * u);
    lemma_near_product(p * p * e, uuu, q * q * f, uuu, 6, 6);
    lemma_near_product(mu, pq, mu, pq, 1, 1);
    lemma_near_product(ru, xm, ru, xm, 1, 1);
    let rr = r * r;
    let ef = e * f;
    let xx = x * x;
    let mm = m * m;
    // r r u u ~ x x m m
    assert(ru * ru == rr * (u * u) && xm * xm == xx * mm && mu * mu == mm * (u * u) && pq * pq == (p
        * p) * (q * q)) by (nonlinear_arith)
        requires
            ru == r * u,
            rr == r * r,
            xm == x * m,
            xx == x * x,
            mm == m * m,
            mu == m * u,
            pq == p * q,
    ;
    assert(xx >= 0 && ef >= 0) by (nonlinear_arith)
        requires
            xx == x * x,
            ef == e * f,
            e >= 0,
            f >= 0,
    ;
    let uu = u * u;
    // (r r u u) u u ef ~ xx (mm u u) ef ~ xx (pp qq) ef ~ xx uuu uuu
    let e1 = (rr * uu) * (uu * ef);
    assert(uu * ef >= 0) by (nonlinear_arith)
        requires
            uu == u * u,
            ef >= 0,
    ;
    lemma_near_scaled(rr * uu, xx * mm, uu * ef, 3);
    lemma_near_scaled(mm * uu, (p * p) * (q * q), xx * ef, 3);
    let e2 = (xx * mm) * (uu * ef);
    assert(e2 == (mm * uu) * (xx * ef)) by (nonlinear_arith)
        requires
            e2 == (xx * mm) * (uu * ef),
    ;
    let e3 = ((p * p) * (q * q)) * (xx * ef);
    assert(e3 == ((p * p * e) * (q * q * f)) * xx) by (nonlinear_arith)
        requires
            e3 == ((p * p) * (q * q)) * (xx * ef),
            ef == e * f,
    ;
    lemma_near_scaled((p * p * e) * (q * q * f), uuu * uuu, xx, 13);
    let e4 = (uuu * uuu) * xx;
    assert(xx * ef >= 0) by (nonlinear_arith)
        requires
            xx >= 0,
            ef >= 0,
    ;
    lemma_near_chain(e1, e2, e3, 3, 3);
    lemma_near_chain(e1, e3, e4, 7, 13);
    let k = uu * uu;
    assert(e1 == (rr * ef) * k) by (nonlinear_arith)
        requires
            e1 == (rr * uu) * (uu * ef),
            k == uu * uu,
    ;
    assert(e4 == (xx * uu) * k) by (nonlinear_arith)
        requires
            e4 == (uuu * uuu) * xx,
            uuu == u * (u * u),
            uu == u * u,
            k == uu * uu,
    ;
    assert(k > 0) by (nonlinear_arith)
        requires
            k == uu * uu,
            uu == u * u,
            u > 0,
    ;
    lemma_near_divided(rr * ef, xx * uu, k, 21);
    crate::float::relative::lemma_near_wider(rr * ef, xx * uu, 21, 30);
}

/// On the diagonal, where an embedding has no affinity to itself, the Laplacian is one.
pub proof fn law_laplacian_diagonal_is_one(a: Grid, d: Seq<Double>, i: int)
    requires
        is_plain(d[i]),
        a.at(i, i).finite(),
        a.at(i, i).units() == 0,
    ensures
        laplacian_at(a, d, i, i).finite(),
        laplacian_at(a, d, i, i).units() == one(),
{
    let u = one();
    lemma_one();
    lemma_one_number();
    lemma_inverse_root(d[i]);
    let w = Double::one_spec().over(d[i].root());
    let p = w.units();
    lemma_pow2_adds(1020, 1020);
    lemma_pow2_adds(1128, 1128);
    lemma_pow2_strictly_increases(1200, 2040);
    lemma_pow2_strictly_increases(2256, 3100);
    lemma_pow2_pos(1020);
    assert(pow2(2040) <= p * p <= pow2(2256)) by (nonlinear_arith)
        requires
            pow2(1020) <= p <= pow2(1128),
            pow2(2040) == pow2(1020) * pow2(1020),
            pow2(2256) == pow2(1128) * pow2(1128),
    ;
    lemma_usual_product(w, w);
    let c = a.at(i, i);
    let vw = w.times(w);
    assert(0 * vw.units() == 0);
    assert(limit() * u >= 0) by (nonlinear_arith)
        requires
            limit() >= 0,
            u >= 0,
    ;
    law_product_is_close(c, vw);
    let t = c.times(vw);
    let r = t.units();
    let ra = abs(r);
    assert(r == 0) by (nonlinear_arith)
        requires
            0x20_0000_0000_0000 * distance(r * u, 0) <= (ra + 0x10_0000_0000_0000) * u,
            distance(r * u, 0) == (if r * u <= 0 { -(r * u) } else { r * u }),
            ra == (if r < 0 { -r } else { r }),
            u > 0,
    ;
    crate::float::double::lemma_double_format();
    let n = t.num();
    crate::float::order::lemma_of_num(
        crate::float::arith::Num { negative: !n.negative, magnitude: n.magnitude },
    );
    assert(t.negated().finite() && t.negated().units() == 0);
    lemma_exact_one(t.negated());
}

/// Nothing and one is one.
proof fn lemma_exact_one(z: Double)
    requires
        z.finite(),
        z.units() == 0,
    ensures
        z.plus(Double::one_spec()) == Double::one_spec(),
{
    lemma_one_number();
    crate::float::double::lemma_double_format();
    let f = crate::float::double::binary64();
    crate::float::error::lemma_sizes(f, z.num());
    crate::float::laws::lemma_sum_with_zero(f, Double::one_spec().num(), z.num());
    crate::float::error::lemma_sizes(f, Double::one_spec().num());
    crate::float::order::lemma_of_num(Double::one_spec().num());
}

/// The exact squares of the first `k` cells of a row.
pub open spec fn cell_squares(v: Grid, i: int, k: nat) -> Seq<int> {
    Seq::new(k, |j: int| v.at(i, j).units() * v.at(i, j).units())
}

/// The length of a row stays in range.
proof fn lemma_length_in_range(start: Double, values: Seq<Double>)
    requires
        start.finite(),
        start.units() == 0,
        values.len() <= 0x100_0000_0000,
        forall|k: int|
            0 <= k < values.len() ==> (#[trigger] values[k]).finite() && 0 <= values[k].units()
                <= pow2(1900),
    ensures
        added(start, values, values.len()).units() >= 0,
        added(start, values, values.len()).root().units() <= pow2(1900),
{
    lemma_squares_not_negative(start, values, values.len());
    let s = added(start, values, values.len());
    let n = values.len() as int;
    let p = pow2(1900) as int;
    let u = one();
    lemma_one();
    lemma_pow2_pos(1900);
    crate::float::double::lemma_double_format();
    if s.units() > 0 {
        lemma_usual_root(s);
        let r = s.root().units();
        assert(s.units() <= 0x200_0000_0000 * p) by (nonlinear_arith)
            requires
                s.units() <= (2 * n) * p,
                n <= 0x100_0000_0000,
                p > 0,
        ;
        let su = s.units() * u;
        assert(1 * su == su);
        assert(r * r <= 2 * su);
        lemma_pow2_adds(41, 1074);
        lemma_pow2_adds(1, 1115);
        lemma_pow2_strictly_increases(1116, 1900);
        vstd::arithmetic::power2::lemma2_to64();
        vstd::arithmetic::power2::lemma2_to64_rest();
        assert(2 * su <= p * p) by (nonlinear_arith)
            requires
                su == s.units() * u,
                s.units() <= 0x200_0000_0000 * p,
                2 * (0x200_0000_0000 * u) <= p,
                u > 0,
                p > 0,
        ;
        assert(r <= p) by (nonlinear_arith)
            requires
                r * r <= p * p,
                r >= 0,
                p > 0,
        ;
    } else {
        crate::float::error::lemma_sizes(crate::float::double::binary64(), s.num());
        crate::float::order::lemma_of_num(s.num());
        assert(s.root() == Double::of(s.num()));
    }
}

/// A row whose length is not negligible is divided by it: each of its first `k` cells
/// times the length is the cell before, and the square of the length is the exact sum of
/// the squares of those cells, up to rounding.
pub proof fn law_rows_are_divided_by_their_length(v: Grid, k: nat, i: int, j: int)
    requires
        k <= 0x100_0000_0000,
        0 <= i < v.height,
        0 <= j < k,
        forall|x: int| 0 <= x < k ==> is_moderate(#[trigger] v.at(i, x)),
        norm_epsilon().widened().below(row_norm(v, i, k)),
        pow2(474) <= row_norm(v, i, k).units(),
    ensures
        ({
            let n = row_norm(v, i, k).units();
            let r = unit_rows(v, k).at(i, j);
            let x = v.at(i, j).units();
            &&& 0x4_0000_0000_0000 * distance(n * n, sum(cell_squares(v, i, k))) <= length_error(
                k as int,
                sum(cell_squares(v, i, k)),
            )
            &&& r.finite()
            &&& 0x4_0000_0000_0000 * distance(r.units() * n, x * one()) <= abs(x) * one() + abs(
                r.units(),
            ) * n + 0x4_0000_0000_0000 * n
        }),
{
    let values = row_squares(v, i, k);
    let t = cell_squares(v, i, k);
    assert forall|x: int| 0 <= x < t.len() implies is_term(#[trigger] values[x], t[x]) && 0 <= t[x]
        <= pow2(2950) by {
        assert(is_moderate(v.at(i, x)));
        lemma_square_term(v.at(i, x));
    }
    assert forall|x: int| 0 <= x < values.len() implies (#[trigger] values[x]).finite() && 0
        <= values[x].units() <= pow2(1900) by {
        assert(is_moderate(v.at(i, x)));
        lemma_square_term(v.at(i, x));
    }
    crate::float::double::lemma_double_format();
    crate::float::arith::lemma_zero_units(53);
    lemma_length_in_range(Double::zero_spec(), values);
    law_root_of_squares_is_the_length(Double::zero_spec(), values, t);
    assert(is_moderate(v.at(i, j)));
    law_inverse_divides(v.at(i, j), row_norm(v, i, k));
    lemma_tabulated_cell(v.height, k, |i: int, j: int| unit_cell(v, k, i, j), i, j);
}

/// A row whose length is negligible is kept as it is.
pub proof fn law_negligible_rows_are_kept(v: Grid, k: nat, i: int, j: int)
    requires
        0 <= i < v.height,
        0 <= j < k,
        !norm_epsilon().widened().below(row_norm(v, i, k)),
    ensures
        unit_rows(v, k).at(i, j) == v.at(i, j),
{
    lemma_tabulated_cell(v.height, k, |i: int, j: int| unit_cell(v, k, i, j), i, j);
}

/// Squares added up one after the other.
proof fn lemma_squares_to(values: Seq<Double>, squares: Seq<Double>, n: nat)
    requires
        n <= values.len() == squares.len(),
        forall|k: int| 0 <= k < squares.len() ==> #[trigger] squares[k] == values[k].times(values[k]),
    ensures
        squares_to(values, n) == added(Double::zero_spec(), squares, n),
    decreases n,
{
    if n > 0 {
        lemma_squares_to(values, squares, (n - 1) as nat);
        assert(squares[n - 1] == values[n - 1].times(values[n - 1]));
    }
}

/// The exact squares of the components of row `r`.
pub open spec fn component_squares(values: Seq<Double>, d: nat, r: int) -> Seq<int> {
    Seq::new(d, |j: int| values[r * d + j].units() * values[r * d + j].units())
}

/// Rows that are linked are divided by their length first: each component times the
/// length is the component before, and the square of the length is the exact sum of the
/// squares of all components, up to rounding.
pub proof fn law_linked_rows_have_unit_length(values: Seq<Double>, n: nat, d: nat, r: int, j: int)
    requires
        values.len() == n * d,
        d <= 0x100_0000_0000,
        0 <= r < n,
        0 <= j < d,
        forall|t: int| 0 <= t < values.len() ==> is_moderate(#[trigger] values[t]),
        pow2(474) <= squared_norm(flat_row(values, d, r)).root().units(),
    ensures
        0 <= r * d + j < values.len(),
        ({
            let length = squared_norm(flat_row(values, d, r)).root().units();
            let c = flat_unit_rows(values, d)[r * d + j];
            let x = values[r * d + j].units();
            let total = sum(component_squares(values, d, r));
            &&& 0x4_0000_0000_0000 * distance(length * length, total) <= length_error(
                d as int,
                total,
            )
            &&& c.finite()
            &&& 0x4_0000_0000_0000 * distance(c.units() * length, x * one()) <= abs(x) * one()
                + abs(c.units()) * length + 0x4_0000_0000_0000 * length
        }),
{
    let own = flat_row(values, d, r);
    let squares = Seq::new(d, |k: int| own[k].times(own[k]));
    let t = component_squares(values, d, r);
    assert forall|x: int| 0 <= x < t.len() implies is_term(#[trigger] squares[x], t[x]) && 0 <= t[x]
        <= pow2(2950) by {
        lemma_index(n as int, d as int, r, x);
        assert(is_moderate(values[r * d + x]));
        lemma_square_term(values[r * d + x]);
        assert(own[x] == values[r * d + x]);
    }
    assert forall|x: int| 0 <= x < squares.len() implies (#[trigger] squares[x]).finite() && 0
        <= squares[x].units() <= pow2(1900) by {
        lemma_index(n as int, d as int, r, x);
        assert(is_moderate(values[r * d + x]));
        lemma_square_term(values[r * d + x]);
        assert(own[x] == values[r * d + x]);
    }
    lemma_squares_to(own, squares, d);
    crate::float::double::lemma_double_format();
    crate::float::arith::lemma_zero_units(53);
    lemma_length_in_range(Double::zero_spec(), squares);
    law_root_of_squares_is_the_length(Double::zero_spec(), squares, t);
    lemma_index(n as int, d as int, r, j);
    vstd::arithmetic::div_mod::lemma_fundamental_div_mod_converse(r * d + j, d as int, r, j);
    assert(is_moderate(values[r * d + j]));
    law_inverse_divides(values[r * d + j], squared_norm(own).root());
}

} // verus!
