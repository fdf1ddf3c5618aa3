//! What distances and means of rows are, in exact arithmetic.

use vstd::arithmetic::power2::{lemma_pow2_adds, lemma_pow2_pos, lemma_pow2_strictly_increases, pow2};
use vstd::prelude::*;
use crate::cluster::ahc::distance_laws::lemma_square;
use crate::cluster::centroid::algo::{total_weight, weighted_mean, weighted_terms, weights_of};
use crate::cluster::hungarian::sums::sum;
use crate::cluster::kmeans::{member_count, member_sum, moved, square_distance, square_terms};
use crate::float::arith::abs;
use crate::float::error::{law_added_is_close, law_product_is_close, law_quotient_is_close, lemma_one, lemma_sizes_sum, lemma_sum_step, limit, one, sizes_of, units_of};
use crate::float::error_single::lemma_sum_bounded;
use crate::float::error_terms::{added_where, is_moderate, kept_units, law_kept_add_up, law_terms_add_up, lemma_product_term, terms_error};
use crate::float::grid::distance;
use crate::float::order::lemma_natural_exact;
use crate::float::sums::added;
use crate::float::Double;
use crate::float::nearest::lemma_one_number;
use crate::matrix::Grid;

verus! {

/// The exact squares of the differences of a row and a point in all coordinates.
pub open spec fn exact_squares(m: Grid, j: int, c: Seq<Double>) -> Seq<int> {
    Seq::new(
        c.len(),
        |x: int| (m.at(j, x).units() - c[x].units()) * (m.at(j, x).units() - c[x].units()),
    )
}

/// The squared distance between a row and a point is the sum of the squares of the
/// differences in all coordinates, up to rounding.
pub proof fn law_square_distance_is_close(m: Grid, j: int, c: Seq<Double>)
    requires
        c.len() <= 0x100_0000_0000,
        forall|x: int| 0 <= x < c.len() ==> is_moderate(#[trigger] m.at(j, x)),
        forall|x: int| 0 <= x < c.len() ==> is_moderate(#[trigger] c[x]),
    ensures
        square_distance(m, j, c).finite(),
        0x4_0000_0000_0000 * distance(
            square_distance(m, j, c).units() * one(),
            sum(exact_squares(m, j, c)),
        ) <= terms_error(c.len() as int, sum(exact_squares(m, j, c))),
{
    let values = square_terms(m, j, c);
    let t = exact_squares(m, j, c);
    assert forall|k: int| 0 <= k < t.len() implies crate::float::error_terms::is_term(
        #[trigger] values[k],
        t[k],
    ) && abs(t[k]) <= pow2(2950) && 0 <= t[k] by {
        assert(is_moderate(m.at(j, k)) && is_moderate(c[k]));
        lemma_square(m.at(j, k), c[k]);
        let e = m.at(j, k).units() - c[k].units();
        assert(0 <= e * e) by (nonlinear_arith);
    }
    assert(sizes_of(t) =~= t) by {
        assert forall|k: int| 0 <= k < t.len() implies sizes_of(t)[k] == t[k] by {
            assert(crate::float::error_terms::is_term(values[k], t[k]));
        }
    }
    crate::float::double::lemma_double_format();
    crate::float::arith::lemma_zero_units(53);
    law_terms_add_up(Double::minus_zero_spec(), values, t);
}

/// The exact values of column `x` in the rows with label `c`, zero in the others.
pub open spec fn member_units(m: Grid, labels: Seq<usize>, c: int, x: int) -> Seq<int> {
    Seq::new(
        m.height,
        |i: int|
            if labels[i] == c {
                m.at(i, x).units()
            } else {
                0
            },
    )
}

/// One for every row with label `c`.
pub open spec fn member_marks(labels: Seq<usize>, c: int, n: nat) -> Seq<int> {
    Seq::new(n, |i: int| if labels[i] == c { 1int } else { 0int })
}

proof fn lemma_member_count(labels: Seq<usize>, c: int, n: nat, k: nat)
    requires
        k <= n,
    ensures
        member_count(labels, c, k) == sum(member_marks(labels, c, n).take(k as int)),
        member_count(labels, c, k) <= k,
    decreases k,
{
    let s = member_marks(labels, c, n);
    if k > 0 {
        lemma_member_count(labels, c, n, (k - 1) as nat);
        lemma_sum_step(s, (k - 1) as nat);
    } else {
        assert(s.take(0).len() == 0);
    }
}

proof fn lemma_member_sum(
    m: Grid,
    labels: Seq<usize>,
    c: int,
    x: int,
    values: Seq<Double>,
    kept: Seq<bool>,
    n: nat,
)
    requires
        n <= m.height,
        values == Seq::new(m.height, |i: int| m.at(i, x)),
        kept == Seq::new(m.height, |i: int| labels[i] == c),
    ensures
        member_sum(m, labels, c, x, n) == added_where(Double::zero_spec(), values, kept, n),
    decreases n,
{
    if n > 0 {
        lemma_member_sum(m, labels, c, x, values, kept, (n - 1) as nat);
    }
}

/// The arithmetic of a mean that is a sum times the inverse of a count.
#[verifier::spinoff_prover]
proof fn lemma_inverse_mean(n: int, u: int, s: int, i: int, r: int)
    requires
        0 < n <= 0x100_0000_0000,
        u >= 0x1000_0000_0000_0000_0000_0000_0000_0000,
        0 <= i,
        0x20_0000_0000_0000 * distance(i * n, u) <= (i + 0x10_0000_0000_0000) * n,
        0x20_0000_0000_0000 * distance(r * u, s * i) <= (abs(r) + 0x10_0000_0000_0000) * u,
    ensures
        0x20_0000_0000_0000 * distance(n * r, s) <= n * abs(r) + 0x10_0000_0000_0000 * n + 3 * abs(
            s,
        ),
{
    let ni = i * n;
    assert((i + 0x10_0000_0000_0000) * n == ni + 0x10_0000_0000_0000 * n) by (nonlinear_arith)
        requires
            ni == i * n,
    ;
    let d1 = distance(ni, u);
    // 2^53 d1 <= 1.1 u + 2^52 n <= 2 u
    assert(0x20_0000_0000_0000 * d1 <= 2 * u);
    let sa = abs(s);
    let ra = abs(r);
    let d2 = distance(r * u, s * i);
    let nd2 = n * d2;
    let nru = (n * r) * u;
    let nsi = s * ni;
    let su = s * u;
    assert(distance(nru, nsi) == nd2) by (nonlinear_arith)
        requires
            nru == (n * r) * u,
            nsi == s * ni,
            ni == i * n,
            nd2 == n * d2,
            d2 == (if r * u <= s * i { s * i - r * u } else { r * u - s * i }),
            distance(nru, nsi) == (if nru <= nsi { nsi - nru } else { nru - nsi }),
            n > 0,
    ;
    let sd1 = sa * d1;
    assert(distance(nsi, su) == sd1) by (nonlinear_arith)
        requires
            nsi == s * ni,
            su == s * u,
            sd1 == sa * d1,
            sa == (if s < 0 { -s } else { s }),
            d1 == (if ni <= u { u - ni } else { ni - u }),
            distance(nsi, su) == (if nsi <= su { su - nsi } else { nsi - su }),
    ;
    let all = distance(nru, su);
    assert(all <= nd2 + sd1);
    let nra = n * ra;
    let e = nra + 0x10_0000_0000_0000 * n;
    assert(0x20_0000_0000_0000 * nd2 <= e * u) by (nonlinear_arith)
        requires
            0x20_0000_0000_0000 * d2 <= (ra + 0x10_0000_0000_0000) * u,
            nd2 == n * d2,
            e == n * ra + 0x10_0000_0000_0000 * n,
            n > 0,
    ;
    assert(0x20_0000_0000_0000 * sd1 <= (2 * sa) * u) by (nonlinear_arith)
        requires
            0x20_0000_0000_0000 * d1 <= 2 * u,
            sd1 == sa * d1,
            sa >= 0,
    ;
    let far = distance(n * r, s);
    assert(all == far * u) by (nonlinear_arith)
        requires
            nru == (n * r) * u,
            su == s * u,
            far == (if n * r <= s { s - n * r } else { n * r - s }),
            all == (if nru <= su { su - nru } else { nru - su }),
            u > 0,
    ;
    assert(0x20_0000_0000_0000 * far <= e + 2 * sa) by (nonlinear_arith)
        requires
            0x20_0000_0000_0000 * (far * u) <= e * u + (2 * sa) * u,
            u > 0,
    ;
}

/// A point moves to the mean of the rows with its label: times their number, each
/// coordinate is the sum of theirs, up to rounding. A point without rows stays.
#[verifier::spinoff_prover]
pub proof fn law_moved_point_is_the_mean(
    m: Grid,
    labels: Seq<usize>,
    points: Seq<Seq<Double>>,
    c: int,
    x: int,
)
    requires
        m.height <= 0x100_0000_0000,
        0 <= x < m.width,
        forall|i: int| 0 <= i < m.height ==> is_moderate(#[trigger] m.at(i, x)),
    ensures
        ({
            let members = sum(member_marks(labels, c, m.height));
            let total = sum(member_units(m, labels, c, x));
            let size = sum(sizes_of(member_units(m, labels, c, x)));
            let r = moved(m, labels, points, c);
            &&& members == 0 ==> r == points[c]
            &&& members > 0 ==> {
                &&& r.len() == m.width
                &&& r[x].finite()
                &&& 0x10_0000_0000_0000 * distance(members * r[x].units(), total) <= (m.height + 4)
                    * size + members * abs(r[x].units()) + 0x10_0000_0000_0000 * members
            }
        }),
{
    let h = m.height as int;
    let values = Seq::new(m.height, |i: int| m.at(i, x));
    let kept = Seq::new(m.height, |i: int| labels[i] == c);
    let k = kept_units(values, kept);
    assert(k =~= member_units(m, labels, c, x));
    lemma_member_sum(m, labels, c, x, values, kept, m.height);
    lemma_member_count(labels, c, m.height, m.height);
    let marks = member_marks(labels, c, m.height);
    assert(marks.take(h) =~= marks);
    let n = member_count(labels, c, m.height) as int;
    let z = sizes_of(k);
    assert(k.take(h) =~= k);
    assert(z.take(h) =~= z);
    let most = pow2(1474) as int;
    lemma_pow2_pos(1474);
    assert forall|i: int| 0 <= i < k.len() implies abs(#[trigger] k[i]) <= most by {
        assert(is_moderate(m.at(i, x)));
    }
    lemma_sum_bounded(k, most);
    lemma_one();
    let size = sum(z);
    lemma_pow2_adds(42, 1474);
    lemma_pow2_strictly_increases(1516, 2045);
    vstd::arithmetic::power2::lemma2_to64();
    vstd::arithmetic::power2::lemma2_to64_rest();
    assert(h * most <= 0x100_0000_0000 * most) by (nonlinear_arith)
        requires
            h <= 0x100_0000_0000,
            most > 0,
    ;
    assert(4 * size <= pow2(1516));
    assert forall|i: int| 0 <= i < h && kept[i] implies (#[trigger] values[i]).finite() by {
        assert(is_moderate(m.at(i, x)));
    }
    crate::float::double::lemma_double_format();
    crate::float::arith::lemma_zero_units(53);
    law_kept_add_up(Double::zero_spec(), values, kept, m.height);
    lemma_sizes_sum(k, m.height);
    let s = member_sum(m, labels, c, x, m.height);
    let total = sum(k);
    assert(distance(s.units(), total) <= size) by (nonlinear_arith)
        requires
            0x10_0000_0000_0000 * distance(s.units(), total) <= h * size,
            h <= 0x100_0000_0000,
            size >= 0,
    ;
    assert(abs(s.units()) <= 2 * size);
    if n > 0 {
        let u = one();
        let one_number = Double::one_spec();
        lemma_one_number();
        lemma_natural_exact(n as nat);
        let d = Double::natural(n as nat);
        assert(d.units() == n * u);
        assert(n * u > 0) by (nonlinear_arith)
            requires
                n > 0,
                u > 0,
        ;
        assert(u * u <= limit() * (n * u)) by (nonlinear_arith)
            requires
                0 < u <= limit(),
                n >= 1,
        ;
        law_quotient_is_close(one_number, d);
        let iv = one_number.over(d);
        let i = iv.units();
        crate::float::error::lemma_sizes(crate::float::double::binary64(), iv.num());
        let far = distance(i * n, u);
        assert(distance(i * (n * u), u * u) == far * u) by (nonlinear_arith)
            requires
                far == (if i * n <= u { u - i * n } else { i * n - u }),
                distance(i * (n * u), u * u) == (if i * (n * u) <= u * u {
                    u * u - i * (n * u)
                } else {
                    i * (n * u) - u * u
                }),
                u > 0,
        ;
        assert(0x20_0000_0000_0000 * far <= (i + 0x10_0000_0000_0000) * n) by (nonlinear_arith)
            requires
                0x20_0000_0000_0000 * (far * u) <= (i + 0x10_0000_0000_0000) * (n * u),
                u > 0,
        ;
        lemma_pow2_strictly_increases(124, 1074);
        lemma_pow2_adds(62, 62);
        assert(i * n <= 2 * u) by {
            assert((i + 0x10_0000_0000_0000) * n == i * n + 0x10_0000_0000_0000 * n)
                by (nonlinear_arith);
        }
        assert(i <= 2 * u) by (nonlinear_arith)
            requires
                i * n <= 2 * u,
                n >= 1,
                i >= 0,
        ;
        let si = s.units() * i;
        let sa = abs(s.units());
        assert(abs(si) <= (2 * sa) * u) by (nonlinear_arith)
            requires
                si == s.units() * i,
                sa == (if s.units() < 0 { -s.units() } else { s.units() }),
                abs(si) == (if si < 0 { -si } else { si }),
                0 <= i <= 2 * u,
        ;
        assert((2 * sa) * u <= limit() * u) by (nonlinear_arith)
            requires
                2 * sa <= limit(),
                u > 0,
        ;
        law_product_is_close(s, iv);
        let r = s.times(iv).units();
        lemma_inverse_mean(n, u, s.units(), i, r);
        assert(moved(m, labels, points, c)[x] == s.times(iv));
        assert((h + 4) * size == h * size + 4 * size) by (nonlinear_arith);
    }
}

/// The exact responsibilities of all frames for cluster `k`.
pub open spec fn exact_weights(q: Grid, k: int) -> Seq<int> {
    Seq::new(q.height, |t: int| q.at(t, k).units())
}

/// Coordinate `d` of all embeddings, each times its responsibility, exactly.
pub open spec fn exact_terms(
    q: Grid,
    embeddings: Seq<Double>,
    dim: int,
    k: int,
    d: int,
) -> Seq<int> {
    Seq::new(q.height, |t: int| q.at(t, k).units() * embeddings[t * dim + d].units())
}

/// The arithmetic of a weighted mean.
#[verifier::spinoff_prover]
proof fn lemma_weighted_arith(
    n: int,
    u: int,
    w: int,
    weight: int,
    su: int,
    total: int,
    size: int,
    r: int,
)
    requires
        0 <= n <= 0x100_0000_0000,
        u > 0,
        w > 0,
        0 <= weight,
        0 <= size,
        0x10_0000_0000_0000 * distance(w, weight) <= n * weight,
        0x4_0000_0000_0000 * distance(su, total) <= (n + 4) * size + 0x8_0000_0000_0000 * (n * u),
        0x20_0000_0000_0000 * distance(r * w, su) <= (abs(r) + 0x10_0000_0000_0000) * w,
    ensures
        0x4_0000_0000_0000 * distance(r * weight, total) <= (n + 4) * (abs(r) * weight + size)
            + 0x8_0000_0000_0000 * (weight + n * u),
{
    let ra = abs(r);
    let nw = n * weight;
    assert(0 <= nw <= 0x100_0000_0000 * weight) by (nonlinear_arith)
        requires
            nw == n * weight,
            0 <= n <= 0x100_0000_0000,
            weight >= 0,
    ;
    let dw = distance(w, weight);
    assert(w <= weight + dw);
    let rdw = ra * dw;
    let rwt = ra * weight;
    assert(distance(r * w, r * weight) == rdw) by (nonlinear_arith)
        requires
            rdw == ra * dw,
            ra == (if r < 0 { -r } else { r }),
            dw == (if w <= weight { weight - w } else { w - weight }),
            distance(r * w, r * weight) == (if r * w <= r * weight {
                r * weight - r * w
            } else {
                r * w - r * weight
            }),
    ;
    let nrw = n * rwt;
    assert(0x10_0000_0000_0000 * rdw <= nrw && 0 <= rwt && 0 <= rdw) by (nonlinear_arith)
        requires
            0x10_0000_0000_0000 * dw <= n * weight,
            rdw == ra * dw,
            nrw == n * rwt,
            rwt == ra * weight,
            ra >= 0,
            dw >= 0,
            weight >= 0,
    ;
    let rw = ra * w;
    assert((ra + 0x10_0000_0000_0000) * w == rw + 0x10_0000_0000_0000 * w) by (nonlinear_arith)
        requires
            rw == ra * w,
    ;
    assert(rw <= rwt + rdw) by (nonlinear_arith)
        requires
            rw == ra * w,
            rwt == ra * weight,
            rdw == ra * dw,
            w <= weight + dw,
            ra >= 0,
    ;
    assert(0x10_0000_0000_0000 * dw <= 0x100_0000_0000 * weight);
    assert(nrw <= 0x100_0000_0000 * rwt) by (nonlinear_arith)
        requires
            nrw == n * rwt,
            n <= 0x100_0000_0000,
            rwt >= 0,
    ;
    let d1 = distance(r * w, su);
    assert(0x4_0000_0000_0000 * d1 <= rwt + 0x4_0000_0000_0000 * weight);
    let ns = n * size;
    assert((n + 4) * size == ns + 4 * size) by (nonlinear_arith)
        requires
            ns == n * size,
    ;
    assert((n + 4) * (rwt + size) == nrw + 4 * rwt + ns + 4 * size) by (nonlinear_arith)
        requires
            nrw == n * rwt,
            ns == n * size,
    ;
}

/// The weighted mean of a cluster whose weight is not next to nothing: times the sum of the responsibilities of all frames,
/// a coordinate is the sum of the products of all, up to rounding.
#[verifier::spinoff_prover]
pub proof fn law_centroid_is_the_weighted_mean(
    q: Grid,
    embeddings: Seq<Double>,
    dim: int,
    k: int,
    d: int,
)
    requires
        q.height <= 0x100_0000_0000,
        forall|t: int|
            0 <= t < q.height ==> is_moderate(#[trigger] q.at(t, k)) && 0 <= q.at(t, k).units(),
        forall|t: int| 0 <= t < q.height ==> is_moderate(embeddings[#[trigger] (t * dim) + d]),
        sum(exact_weights(q, k)) >= pow2(974),
    ensures
        ({
            let r = weighted_mean(q, embeddings, dim, k, d).units();
            let weight = sum(exact_weights(q, k));
            let t = exact_terms(q, embeddings, dim, k, d);
            &&& weighted_mean(q, embeddings, dim, k, d).finite()
            &&& 0x4_0000_0000_0000 * distance(r * weight, sum(t)) <= (q.height + 4) * (abs(r) * weight
                + sum(sizes_of(t))) + 0x8_0000_0000_0000 * (weight + q.height * one())
        }),
{
    let n = q.height as int;
    let u = one();
    lemma_one();
    let values = weighted_terms(q, embeddings, dim, k, d);
    let t = exact_terms(q, embeddings, dim, k, d);
    lemma_pow2_strictly_increases(2948, 2950);
    assert forall|i: int| 0 <= i < t.len() implies crate::float::error_terms::is_term(
        #[trigger] values[i],
        t[i],
    ) && abs(t[i]) <= pow2(2950) by {
        assert(is_moderate(q.at(i, k)));
        assert(is_moderate(embeddings[(i * dim) + d]));
        lemma_product_term(q.at(i, k), embeddings[i * dim + d]);
    }
    crate::float::double::lemma_double_format();
    crate::float::arith::lemma_zero_units(53);
    law_terms_add_up(Double::zero_spec(), values, t);
    let s = added(Double::zero_spec(), values, q.height);
    // the weights
    let w = weights_of(q, k);
    let v = units_of(w);
    assert(v =~= exact_weights(q, k));
    assert forall|i: int| 0 <= i < v.len() implies 0 <= #[trigger] v[i] && abs(v[i]) <= pow2(1474)
        && w[i].finite() by {
        assert(is_moderate(q.at(i, k)));
    }
    assert(sizes_of(v) =~= v);
    assert(v.take(n) =~= v);
    lemma_sizes_sum(v, q.height);
    let most = pow2(1474) as int;
    lemma_pow2_pos(1474);
    lemma_sum_bounded(v, most);
    lemma_pow2_adds(42, 1474);
    lemma_pow2_strictly_increases(1516, 2045);
    vstd::arithmetic::power2::lemma2_to64();
    vstd::arithmetic::power2::lemma2_to64_rest();
    assert(n * most <= 0x100_0000_0000 * most) by (nonlinear_arith)
        requires
            n <= 0x100_0000_0000,
            most > 0,
    ;
    assert forall|i: int| 0 <= i < q.height implies (#[trigger] w[i]).finite() by {
        assert(is_moderate(q.at(i, k)));
    }
    law_added_is_close(Double::zero_spec(), w, q.height);
    let weight = total_weight(q, k);
    let exact = sum(v);
    assert(2 * weight.units() >= exact) by (nonlinear_arith)
        requires
            0x10_0000_0000_0000 * distance(weight.units(), exact) <= n * exact,
            distance(weight.units(), exact) == (if weight.units() <= exact {
                exact - weight.units()
            } else {
                weight.units() - exact
            }),
            0 <= n <= 0x100_0000_0000,
            exact >= 0,
    ;
    lemma_pow2_adds(1, 973);
    lemma_pow2_adds(1, 1918);
    lemma_pow2_adds(1919, 1074);
    lemma_pow2_adds(2045, 973);
    lemma_pow2_strictly_increases(2993, 3018);
    lemma_pow2_pos(973);
    assert(weight.units() >= pow2(973));
    let sa = abs(s.units());
    assert(sa * u <= pow2(2993)) by (nonlinear_arith)
        requires
            0 <= sa <= pow2(1919),
            u == pow2(1074),
            u > 0,
            pow2(2993) == pow2(1919) * pow2(1074),
    ;
    assert(pow2(3018) <= limit() * weight.units()) by (nonlinear_arith)
        requires
            limit() == 0x10_0000_0000_0000 * pow2(2045),
            pow2(3018) == pow2(2045) * pow2(973),
            weight.units() >= pow2(973),
            limit() > 0,
            pow2(973) > 0,
    ;
    law_quotient_is_close(s, weight);
    let r = s.over(weight).units();
    let size = sum(sizes_of(t));
    assert(sizes_of(t).take(n) =~= sizes_of(t));
    lemma_sizes_sum(t, q.height);
    lemma_weighted_arith(
        n,
        u,
        weight.units(),
        sum(v),
        s.units() * u,
        sum(t),
        size,
        r,
    );
}

} // verus!
