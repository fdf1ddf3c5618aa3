//! What the similarity of two vectors is, in exact arithmetic.

use vstd::arithmetic::power2::{lemma_pow2_adds, lemma_pow2_pos, lemma_pow2_strictly_increases, pow2};
use vstd::prelude::*;
use crate::cluster::agglomerative::{affinity, distance as gap_between};
use crate::cluster::hungarian::sums::{is_selection, sum};
use crate::embed::fbank_means::lemma_sum_permuted;
use crate::embed::options::EMBEDDING_DIM;
use crate::embed::types::{dot, products, Embedding};
use crate::float::arith::{abs, law_rank_orders_values};
use crate::float::error::{lemma_sizes_sum, sizes_of};
use crate::float::error_single::{law_added_single_is_close, law_single_difference_is_close, law_single_product_is_close, lemma_sum_bounded, lemma_sum_scaled, lemma_sums_close, single_limit, single_units};
use crate::float::error_terms::{lemma_sum_of_both, lemma_sum_of_one};
use crate::float::grid::distance;
use crate::float::single::{binary32, lemma_single_format, Single};

verus! {

/// One, in units of single precision.
pub open spec fn single_one() -> int {
    pow2(149) as int
}

/// Vectors of one length, their components finite and of at most 2.
pub open spec fn are_short(a: Seq<Single>, b: Seq<Single>) -> bool {
    &&& a.len() == b.len()
    &&& a.len() <= 0x10_0000
    &&& forall|i: int|
        0 <= i < a.len() ==> (#[trigger] a[i]).finite() && abs(a[i].units()) <= 2 * single_one()
    &&& forall|i: int|
        0 <= i < b.len() ==> (#[trigger] b[i]).finite() && abs(b[i].units()) <= 2 * single_one()
}

/// The exact products of all components.
pub open spec fn exact_products(a: Seq<Single>, b: Seq<Single>) -> Seq<int> {
    Seq::new(a.len(), |i: int| a[i].units() * b[i].units())
}

/// `2^22` times the error of a dot product of `n` components whose products have
/// magnitudes that add up to `size`.
pub open spec fn dot_error(n: int, size: int) -> int {
    (n + 4) * size + 0x80_0000 * (n * single_one())
}

/// The arithmetic of the bound.
proof fn lemma_dot_arith(n: int, u: int, su: int, qu: int, qsize: int, total: int, size: int)
    requires
        0 <= n <= 0x10_0000,
        u > 0,
        0 <= size,
        0 <= qsize,
        0x80_0000 * distance(su, qu) <= n * qsize,
        0x40_0000 * distance(qu, total) <= size + 0x40_0000 * (n * u),
        0x40_0000 * distance(qsize, size) <= size + 0x40_0000 * (n * u),
    ensures
        0x40_0000 * distance(su, total) <= (n + 4) * size + 0x80_0000 * (n * u),
{
    let nu = n * u;
    let nq = n * qsize;
    let ns = n * size;
    let nnu = n * nu;
    assert(0 <= nu && 0 <= nq && 0 <= ns && 0 <= nnu <= 0x10_0000 * nu) by (nonlinear_arith)
        requires
            nu == n * u,
            nq == n * qsize,
            ns == n * size,
            nnu == n * nu,
            0 <= n <= 0x10_0000,
            u > 0,
            qsize >= 0,
            size >= 0,
    ;
    assert(0x40_0000 * nq <= 0x40_0001 * ns + 0x40_0000 * nnu) by (nonlinear_arith)
        requires
            0x40_0000 * qsize <= 0x40_0001 * size + 0x40_0000 * nu,
            nq == n * qsize,
            ns == n * size,
            nnu == n * nu,
            n >= 0,
    ;
    assert((n + 4) * size == ns + 4 * size) by (nonlinear_arith)
        requires
            ns == n * size,
    ;
}

/// One product of components.
proof fn lemma_dot_term(a: Single, b: Single)
    requires
        a.finite(),
        b.finite(),
        abs(a.units()) <= 2 * single_one(),
        abs(b.units()) <= 2 * single_one(),
    ensures
        a.times(b).finite(),
        0x40_0000 * distance(a.times(b).units() * single_one(), a.units() * b.units()) <= abs(
            a.units() * b.units(),
        ) + 0x40_0000 * single_one(),
        abs(a.units() * b.units()) <= 4 * (single_one() * single_one()),
{
    let u = single_one();
    let (x, y) = (a.units(), b.units());
    lemma_pow2_pos(149);
    let t = x * y;
    assert(abs(t) <= 4 * (u * u)) by (nonlinear_arith)
        requires
            t == x * y,
            -2 * u <= x <= 2 * u,
            -2 * u <= y <= 2 * u,
            abs(t) == (if t < 0 { -t } else { t }),
    ;
    lemma_pow2_strictly_increases(149, 253);
    assert(4 * (u * u) <= single_limit() * u) by (nonlinear_arith)
        requires
            4 * u <= single_limit(),
            u > 0,
    ;
    law_single_product_is_close(a, b);
    let r = a.times(b).units();
    let ra = abs(r);
    let ru = r * u;
    assert(abs(ru) == ra * u && (ra + 0x80_0000) * u == ra * u + 0x80_0000 * u) by (nonlinear_arith)
        requires
            ru == r * u,
            ra == (if r < 0 { -r } else { r }),
            abs(ru) == (if ru < 0 { -ru } else { ru }),
            u > 0,
    ;
}

/// The dot product is the sum of the products of all components, up to rounding.
#[verifier::spinoff_prover]
pub proof fn law_dot_is_close(a: Seq<Single>, b: Seq<Single>)
    requires
        are_short(a, b),
    ensures
        dot(a, b).finite(),
        abs(dot(a, b).units()) <= pow2(174),
        0x40_0000 * distance(dot(a, b).units() * single_one(), sum(exact_products(a, b)))
            <= dot_error(a.len() as int, sum(sizes_of(exact_products(a, b)))),
{
    let n = a.len() as int;
    let u = single_one();
    let c = 0x40_0000int;
    lemma_pow2_pos(149);
    let values = products(a, b);
    let t = exact_products(a, b);
    let v = single_units(values);
    let z = sizes_of(v);
    let w = sizes_of(t);
    let scaled = Seq::new(n as nat, |k: int| v[k] * u);
    let sizes = Seq::new(n as nat, |k: int| z[k] * u);
    let errors = Seq::new(n as nat, |k: int| w[k] + c * u);
    let flat = Seq::new(n as nat, |k: int| c * u);
    let most = 4 * (u * u);
    assert forall|k: int| 0 <= k < n implies {
        &&& (#[trigger] values[k]).finite()
        &&& c * distance(scaled[k], t[k]) <= errors[k]
        &&& c * distance(sizes[k], w[k]) <= errors[k]
        &&& abs(t[k]) <= most
    } by {
        assert(a[k].finite() && b[k].finite());
        lemma_dot_term(a[k], b[k]);
        let x = v[k];
        assert(abs(x * u) == abs(x) * u) by (nonlinear_arith)
            requires
                abs(x) == (if x < 0 { -x } else { x }),
                abs(x * u) == (if x * u < 0 { -(x * u) } else { x * u }),
                u > 0,
        ;
    }
    assert forall|k: int| 0 <= k < n implies c * distance(#[trigger] scaled[k], t[k]) <= errors[k] by {
        assert(values[k].finite());
    }
    assert forall|k: int| 0 <= k < n implies c * distance(#[trigger] sizes[k], w[k]) <= errors[k] by {
        assert(values[k].finite());
    }
    lemma_sums_close(scaled, t, errors, c);
    lemma_sums_close(sizes, w, errors, c);
    lemma_sum_of_both(w, flat, errors);
    lemma_sum_of_one(flat, c * u);
    lemma_sum_scaled(v, scaled, u);
    lemma_sum_scaled(z, sizes, u);
    let size = sum(w);
    assert(w.take(n) =~= w);
    lemma_sizes_sum(t, n as nat);
    assert(z.take(n) =~= z);
    lemma_sizes_sum(v, n as nat);
    let q = sum(v);
    let qa = sum(z);
    let nu = n * u;
    assert(n * (c * u) == c * nu) by (nonlinear_arith)
        requires
            nu == n * u,
    ;
    assert forall|k: int| 0 <= k < t.len() implies abs(#[trigger] t[k]) <= most by {
        assert(values[k].finite());
    }
    lemma_sum_bounded(t, most);
    // far below the limit
    let qau = qa * u;
    assert(qau <= 2 * size + nu);
    assert(size <= n * most);
    assert(qa <= 9 * nu) by (nonlinear_arith)
        requires
            qau == qa * u,
            qau <= 2 * size + nu,
            size <= n * (4 * (u * u)),
            nu == n * u,
            n >= 0,
            u >= 1,
    ;
    assert(nu <= 0x10_0000 * u) by (nonlinear_arith)
        requires
            nu == n * u,
            n <= 0x10_0000,
            u > 0,
    ;
    lemma_pow2_adds(25, 149);
    vstd::arithmetic::power2::lemma2_to64();
    assert(pow2(174) == 0x200_0000 * u);
    lemma_pow2_strictly_increases(174, 253);
    assert(2 * qa <= 0x120_0000 * u);
    assert(v.take(n) =~= v);
    lemma_single_format();
    crate::float::arith::lemma_zero_units(24);
    assert forall|i: int| 0 <= i < n implies (#[trigger] values[i]).finite() by {}
    law_added_single_is_close(Single::minus_zero_spec(), values, n as nat);
    let s = dot(a, b);
    assert(distance(s.units(), q) <= qa) by (nonlinear_arith)
        requires
            0x80_0000 * distance(s.units(), q) <= n * qa,
            n <= 0x10_0000,
            qa >= 0,
    ;
    assert(abs(s.units()) <= 2 * qa);
    assert(2 * qa <= 0x120_0000 * u);
    let su = s.units() * u;
    let qu = q * u;
    assert(0x80_0000 * distance(su, qu) <= n * qau && 0 <= qau) by (nonlinear_arith)
        requires
            0x80_0000 * distance(s.units(), q) <= n * qa,
            distance(s.units(), q) == (if s.units() <= q { q - s.units() } else { s.units() - q }),
            distance(su, qu) == (if su <= qu { qu - su } else { su - qu }),
            su == s.units() * u,
            qu == q * u,
            qau == qa * u,
            u > 0,
            0 <= qa,
    ;
    lemma_dot_arith(n, u, su, qu, qau, sum(t), size);
}

/// The order of the components is of no account: with the components of both vectors in
/// another order, the dot product is the same, up to rounding.
pub proof fn law_dot_ignores_component_order(
    a: Seq<Single>,
    b: Seq<Single>,
    c: Seq<Single>,
    d: Seq<Single>,
    order: Seq<int>,
)
    requires
        are_short(a, b),
        are_short(c, d),
        order.len() == a.len(),
        c.len() == a.len(),
        is_selection(order, a.len() as int),
        forall|i: int| 0 <= i < c.len() ==> #[trigger] c[i] == a[order[i]],
        forall|i: int| 0 <= i < d.len() ==> #[trigger] d[i] == b[order[i]],
    ensures
        0x40_0000 * distance(dot(a, b).units() * single_one(), dot(c, d).units() * single_one())
            <= 2 * dot_error(a.len() as int, sum(sizes_of(exact_products(a, b)))),
{
    let t = exact_products(a, b);
    let p = exact_products(c, d);
    assert forall|i: int| 0 <= i < p.len() implies #[trigger] p[i] == t[order[i]] by {
        assert(0 <= order[i] < a.len());
        assert(c[i] == a[order[i]] && d[i] == b[order[i]]);
    }
    lemma_sum_permuted(t, p, order);
    assert forall|i: int| 0 <= i < p.len() implies #[trigger] sizes_of(p)[i] == sizes_of(
        t,
    )[order[i]] by {
        assert(0 <= order[i] < a.len());
        assert(p[i] == t[order[i]]);
    }
    lemma_sum_permuted(sizes_of(t), sizes_of(p), order);
    law_dot_is_close(a, b);
    law_dot_is_close(c, d);
}

/// The larger of an integer and zero.
pub open spec fn at_least_zero(x: int) -> int {
    if x < 0 { 0 } else { x }
}

/// One, in single precision.
proof fn lemma_single_one()
    ensures
        Single::one_spec().finite(),
        Single::one_spec().units() == single_one(),
{
    let b = 0x3f80_0000int;
    lemma_single_format();
    crate::float::grid::lemma_half_span(24);
    vstd::arithmetic::power2::lemma2_to64();
    let h = crate::float::grid::half_span(24);
    assert(h == 0x80_0000);
    vstd::arithmetic::div_mod::lemma_fundamental_div_mod_converse(b, h, 127, 0);
    assert(crate::float::grid::gap_exponent(24, b) == 126);
    assert(crate::float::grid::significand(24, b) == h);
    lemma_pow2_adds(23, 126);
    assert(Single::one_spec().num().magnitude == b);
}

/// The affinity of two embeddings is the sum of the products of all their components,
/// or zero where that is negative, up to rounding.
pub proof fn law_affinity_is_close(a: Embedding, b: Embedding)
    requires
        are_short(a.components(), b.components()),
    ensures
        affinity(a, b).finite(),
        0 <= affinity(a, b).units() <= pow2(174),
        0x40_0000 * distance(
            affinity(a, b).units() * single_one(),
            at_least_zero(sum(exact_products(a.components(), b.components()))),
        ) <= dot_error(
            EMBEDDING_DIM as int,
            sum(sizes_of(exact_products(a.components(), b.components()))),
        ),
{
    let (x, y) = (a.components(), b.components());
    law_dot_is_close(x, y);
    assert(x.len() == EMBEDDING_DIM);
    let s = dot(x, y);
    let u = single_one();
    lemma_pow2_pos(149);
    lemma_pow2_pos(174);
    lemma_single_format();
    crate::float::arith::lemma_zero_units(24);
    let zero = Single::zero_spec();
    assert(zero.units() == 0 && zero.finite());
    law_rank_orders_values(binary32(), s.num(), zero.num());
    let r = affinity(a, b);
    assert(r.units() == at_least_zero(s.units()));
    let su = s.units() * u;
    assert(r.units() * u == at_least_zero(su)) by (nonlinear_arith)
        requires
            su == s.units() * u,
            r.units() == (if s.units() < 0 { 0 } else { s.units() }),
            at_least_zero(su) == (if su < 0 { 0 } else { su }),
            u > 0,
    ;
}

/// The distance of two embeddings is one less the sum of the products of all their
/// components, or one where that sum is negative, up to rounding. It is the same from
/// both sides, and zero from an embedding to itself.
pub proof fn law_member_distance_is_close(embeddings: Seq<Embedding>, i: int, j: int)
    requires
        i != j,
        are_short(embeddings[i].components(), embeddings[j].components()),
    ensures
        gap_between(embeddings, i, i).units() == 0,
        gap_between(embeddings, i, j) == gap_between(embeddings, j, i),
        ({
            let r = gap_between(embeddings, i, j);
            let t = exact_products(embeddings[i].components(), embeddings[j].components());
            &&& r.finite()
            &&& 0x40_0000 * distance(
                r.units() * single_one(),
                single_one() * single_one() - at_least_zero(sum(t)),
            ) <= dot_error(EMBEDDING_DIM as int, sum(sizes_of(t))) + abs(r.units()) * single_one()
        }),
{
    lemma_single_format();
    crate::float::arith::lemma_zero_units(24);
    let (a, b) = if i < j { (embeddings[i], embeddings[j]) } else { (embeddings[j], embeddings[i]) };
    let (x, y) = (a.components(), b.components());
    law_affinity_is_close(a, b);
    let p = exact_products(x, y);
    let t = exact_products(embeddings[i].components(), embeddings[j].components());
    assert(p =~= t) by {
        assert forall|k: int| 0 <= k < p.len() implies p[k] == t[k] by {
            let (v, w) = (x[k].units(), y[k].units());
            assert(v * w == w * v) by (nonlinear_arith);
        }
    }
    lemma_single_one();
    lemma_pow2_pos(149);
    lemma_pow2_strictly_increases(149, 253);
    lemma_pow2_strictly_increases(174, 253);
    let s = affinity(a, b);
    let u = single_one();
    law_single_difference_is_close(Single::one_spec(), s);
    let r = gap_between(embeddings, i, j);
    assert(r == Single::one_spec().minus(s));
    let d = distance(r.units(), u - s.units());
    let ru = r.units() * u;
    let mu = u * u - s.units() * u;
    let ra = abs(r.units());
    assert(distance(ru, mu) == d * u) by (nonlinear_arith)
        requires
            ru == r.units() * u,
            mu == u * u - s.units() * u,
            d == (if r.units() <= u - s.units() {
                u - s.units() - r.units()
            } else {
                r.units() - (u - s.units())
            }),
            distance(ru, mu) == (if ru <= mu { mu - ru } else { ru - mu }),
            u > 0,
    ;
    assert(0x40_0000 * (d * u) <= ra * u) by (nonlinear_arith)
        requires
            0x100_0000 * d <= ra,
            u > 0,
            d >= 0,
    ;
}

} // verus!
