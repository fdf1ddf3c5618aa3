//! What the distance of two clusters is, in terms of those of their members.

use vstd::arithmetic::power2::pow2;
use vstd::prelude::*;
use crate::cluster::agglomerative::{cluster_distance, crossings, distance, greatest, infinity, least, widened};
use crate::cluster::hungarian::sums::sum;
use crate::cluster::options::Linkage;
use crate::embed::types::Embedding;
use crate::float::arith::abs;
use crate::float::error_single::{law_mean_is_close, mean_error, narrowed_mean, single_units};
use crate::float::grid::distance as gap;
use crate::float::Single;

verus! {

/// The exact distances of embedding `i` to the members of a cluster.
pub open spec fn distances_to(embeddings: Seq<Embedding>, i: int, b: Seq<usize>) -> Seq<int> {
    Seq::new(b.len(), |q: int| distance(embeddings, i, b[q] as int).units())
}

/// The exact distances of all pairs of members, added up member by member.
pub open spec fn pair_total(embeddings: Seq<Embedding>, a: Seq<usize>, b: Seq<usize>) -> int {
    sum(Seq::new(a.len(), |p: int| sum(distances_to(embeddings, a[p] as int, b))))
}

/// All distances between members are finite and of at most `most` units.
pub open spec fn are_moderate(
    embeddings: Seq<Embedding>,
    a: Seq<usize>,
    b: Seq<usize>,
    most: int,
) -> bool {
    &&& 0 < a.len() * b.len() <= 0x4_0000_0000_0000
    &&& most <= pow2(274)
    &&& forall|p: int, q: int|
        #![trigger a[p], b[q]]
        0 <= p < a.len() && 0 <= q < b.len() ==> {
            let x = distance(embeddings, a[p] as int, b[q] as int);
            x.finite() && abs(x.units()) <= most
        }
}

/// The sum of two sequences one after the other.
pub proof fn lemma_sum_concat(s: Seq<int>, t: Seq<int>)
    ensures
        sum(s + t) == sum(s) + sum(t),
    decreases t.len(),
{
    if t.len() > 0 {
        lemma_sum_concat(s, t.drop_last());
        assert((s + t).drop_last() =~= s + t.drop_last());
        assert((s + t).last() == t.last());
    } else {
        assert(s + t =~= s);
    }
}

/// Position `t` of the distances between members is that of members `p` and `q`.
proof fn lemma_crossing(t: int, m: int, n: int) -> (r: (int, int))
    requires
        0 <= t < m * n,
        m >= 0,
        n >= 0,
    ensures
        r == (t / n, t % n),
        0 <= r.0 < m,
        0 <= r.1 < n,
{
    assert(n > 0) by (nonlinear_arith)
        requires
            0 < m * n,
            m >= 0,
            n >= 0,
    ;
    vstd::arithmetic::div_mod::lemma_fundamental_div_mod(t, n);
    vstd::arithmetic::div_mod::lemma_div_pos_is_pos(t, n);
    let p = t / n;
    assert(p < m) by (nonlinear_arith)
        requires
            n * p <= t,
            t < m * n,
            n > 0,
    ;
    (t / n, t % n)
}

/// The distances between members add up to the same, listed or member by member.
proof fn lemma_crossings_total(embeddings: Seq<Embedding>, a: Seq<usize>, b: Seq<usize>)
    ensures
        sum(single_units(crossings(embeddings, a, b))) == pair_total(embeddings, a, b),
    decreases a.len(),
{
    let n = b.len() as int;
    let all = single_units(crossings(embeddings, a, b));
    let rows = Seq::new(a.len(), |p: int| sum(distances_to(embeddings, a[p] as int, b)));
    if a.len() == 0 {
        assert(0 * n == 0);
        assert(all.len() == 0);
        assert(rows.len() == 0);
    } else {
        let c = a.drop_last();
        let k = c.len() as int;
        lemma_crossings_total(embeddings, c, b);
        let before = single_units(crossings(embeddings, c, b));
        let row = distances_to(embeddings, a[k] as int, b);
        assert((k + 1) * n == k * n + n) by (nonlinear_arith);
        assert forall|t: int| 0 <= t < all.len() implies all[t] == (before + row)[t] by {
            if t < k * n {
                let (p, q) = lemma_crossing(t, k, n);
                assert(c[p] == a[p]);
            } else {
                vstd::arithmetic::div_mod::lemma_fundamental_div_mod_converse(t, n, k, t - k * n);
            }
        }
        assert(all =~= before + row);
        lemma_sum_concat(before, row);
        assert(rows.drop_last() =~= Seq::new(
            c.len(),
            |p: int| sum(distances_to(embeddings, c[p] as int, b)),
        ));
    }
}

/// Under average linkage the distance of two clusters is the mean of the distances of
/// all pairs of their members, up to a unit in the last place of the largest: so many
/// times it is their sum.
pub proof fn law_average_distance_is_the_mean(
    embeddings: Seq<Embedding>,
    a: Seq<usize>,
    b: Seq<usize>,
    most: int,
)
    requires
        are_moderate(embeddings, a, b, most),
    ensures
        ({
            let n = a.len() * b.len();
            let r = cluster_distance(embeddings, Linkage::Average, a, b);
            &&& r.finite()
            &&& 0x10_0000_0000_0000 * gap(n * r.units(), pair_total(embeddings, a, b)) <= n
                * mean_error(n as int, most)
        }),
{
    let values = crossings(embeddings, a, b);
    let wide = widened(values);
    assert forall|t: int| 0 <= t < values.len() implies (#[trigger] values[t]).finite() && abs(
        values[t].units(),
    ) <= most by {
        let (p, q) = lemma_crossing(t, a.len() as int, b.len() as int);
        assert(values[t] == distance(embeddings, a[p] as int, b[q] as int));
    }
    law_mean_is_close(values, wide, most);
    lemma_crossings_total(embeddings, a, b);
    assert(cluster_distance(embeddings, Linkage::Average, a, b) == narrowed_mean(wide));
}

/// Under average linkage the distance of a union to a third cluster is the mean of the
/// distances of its parts, weighted by their sizes, up to rounding.
pub proof fn law_union_distance_is_weighted(
    embeddings: Seq<Embedding>,
    a: Seq<usize>,
    b: Seq<usize>,
    c: Seq<usize>,
    most: int,
)
    requires
        are_moderate(embeddings, a, c, most),
        are_moderate(embeddings, b, c, most),
        are_moderate(embeddings, a + b, c, most),
    ensures
        ({
            let m = a.len() * c.len();
            let n = b.len() * c.len();
            let whole = cluster_distance(embeddings, Linkage::Average, a + b, c).units();
            let first = cluster_distance(embeddings, Linkage::Average, a, c).units();
            let second = cluster_distance(embeddings, Linkage::Average, b, c).units();
            0x10_0000_0000_0000 * gap((m + n) * whole, m * first + n * second) <= (m + n)
                * mean_error((m + n) as int, most) + m * mean_error(m as int, most) + n
                * mean_error(n as int, most)
        }),
{
    law_average_distance_is_the_mean(embeddings, a, c, most);
    law_average_distance_is_the_mean(embeddings, b, c, most);
    law_average_distance_is_the_mean(embeddings, a + b, c, most);
    assert((a.len() + b.len()) * c.len() == a.len() * c.len() + b.len() * c.len())
        by (nonlinear_arith);
    let x = Seq::new(a.len(), |p: int| sum(distances_to(embeddings, a[p] as int, c)));
    let y = Seq::new(b.len(), |p: int| sum(distances_to(embeddings, b[p] as int, c)));
    let z = Seq::new(
        (a + b).len(),
        |p: int| sum(distances_to(embeddings, (a + b)[p] as int, c)),
    );
    assert(z =~= x + y);
    lemma_sum_concat(x, y);
}

proof fn lemma_least(values: Seq<Single>, n: nat)
    requires
        n <= values.len(),
    ensures
        !least(values, n).nan(),
        forall|t: int| 0 <= t < n ==> !(#[trigger] values[t]).below(least(values, n)),
        least(values, n) == infinity() || exists|t: int|
            0 <= t < n && #[trigger] values[t] == least(values, n),
    decreases n,
{
    if n > 0 {
        lemma_least(values, (n - 1) as nat);
        let r = least(values, (n - 1) as nat);
        if values[n - 1].below(r) {
            assert(values[n - 1] == least(values, n));
        } else if r != infinity() {
            let t = choose|t: int| 0 <= t < n - 1 && #[trigger] values[t] == r;
            assert(values[t] == least(values, n));
        }
    }
}

proof fn lemma_greatest(values: Seq<Single>, n: nat)
    requires
        n <= values.len(),
    ensures
        !greatest(values, n).nan(),
        forall|t: int| 0 <= t < n ==> !greatest(values, n).below(#[trigger] values[t]),
        greatest(values, n) == infinity().negated() || exists|t: int|
            0 <= t < n && #[trigger] values[t] == greatest(values, n),
    decreases n,
{
    if n > 0 {
        lemma_greatest(values, (n - 1) as nat);
        let r = greatest(values, (n - 1) as nat);
        if r.below(values[n - 1]) {
            assert(values[n - 1] == greatest(values, n));
        } else if r != infinity().negated() {
            let t = choose|t: int| 0 <= t < n - 1 && #[trigger] values[t] == r;
            assert(values[t] == greatest(values, n));
        }
    }
}

/// `x` is the distance of some member of `a` and some member of `b`.
pub open spec fn is_member_distance(
    embeddings: Seq<Embedding>,
    a: Seq<usize>,
    b: Seq<usize>,
    x: Single,
) -> bool {
    exists|p: int, q: int|
        #![trigger a[p], b[q]]
        0 <= p < a.len() && 0 <= q < b.len() && x == distance(embeddings, a[p] as int, b[q] as int)
}

/// Where a pair of members stands among all.
proof fn lemma_crossing_at(p: int, q: int, m: int, n: int) -> (t: int)
    requires
        0 <= p < m,
        0 <= q < n,
    ensures
        0 <= t < m * n,
        t / n == p,
        t % n == q,
{
    crate::cluster::hungarian::sums::lemma_index(m, n, p, q);
    vstd::arithmetic::div_mod::lemma_fundamental_div_mod_converse(p * n + q, n, p, q);
    p * n + q
}

/// Under single linkage the distance of two clusters is that of their closest members,
/// under complete linkage that of their farthest.
pub proof fn law_extreme_distances(
    embeddings: Seq<Embedding>,
    a: Seq<usize>,
    b: Seq<usize>,
    p: int,
    q: int,
)
    requires
        0 <= p < a.len(),
        0 <= q < b.len(),
        forall|i: int, j: int|
            #![trigger a[i], b[j]]
            0 <= i < a.len() && 0 <= j < b.len() ==> distance(
                embeddings,
                a[i] as int,
                b[j] as int,
            ).finite(),
    ensures
        ({
            let near = cluster_distance(embeddings, Linkage::Single, a, b);
            let far = cluster_distance(embeddings, Linkage::Complete, a, b);
            let own = distance(embeddings, a[p] as int, b[q] as int);
            &&& near.at_most(own)
            &&& own.at_most(far)
            &&& is_member_distance(embeddings, a, b, near)
            &&& is_member_distance(embeddings, a, b, far)
        }),
{
    let values = crossings(embeddings, a, b);
    let n = values.len();
    lemma_least(values, n);
    lemma_greatest(values, n);
    let at = lemma_crossing_at(p, q, a.len() as int, b.len() as int);
    let own = values[at];
    assert(own == distance(embeddings, a[p] as int, b[q] as int));
    assert(own.finite());
    let near = least(values, n);
    let far = greatest(values, n);
    assert(near != infinity());
    assert(far != infinity().negated());
    let s = choose|t: int| 0 <= t < n && #[trigger] values[t] == near;
    let (i, j) = lemma_crossing(s, a.len() as int, b.len() as int);
    assert(near == distance(embeddings, a[i] as int, b[j] as int));
    let s = choose|t: int| 0 <= t < n && #[trigger] values[t] == far;
    let (k, l) = lemma_crossing(s, a.len() as int, b.len() as int);
    assert(far == distance(embeddings, a[k] as int, b[l] as int));
}

} // verus!
