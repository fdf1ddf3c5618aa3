//! Bottom-up merging of the closest clusters.

use vstd::prelude::*;
use crate::cluster::error::Error;
use crate::cluster::options::{Linkage, OfflineClusterOptions};
use crate::embed::types::{dot, Embedding};
use crate::float::sums::added;
use crate::float::{Double, Single};

verus! {

pub open spec fn infinity() -> Single {
    Single { bits: 0x7f80_0000 }
}

/// The similarity of two embeddings, negative ones taken as zero.
pub open spec fn affinity(a: Embedding, b: Embedding) -> Single {
    dot(a.components(), b.components()).larger(Single::zero_spec())
}

/// The distance of two of the embeddings.
pub open spec fn distance(embeddings: Seq<Embedding>, i: int, j: int) -> Single {
    if i < j {
        Single::one_spec().minus(affinity(embeddings[i], embeddings[j]))
    } else if j < i {
        Single::one_spec().minus(affinity(embeddings[j], embeddings[i]))
    } else {
        Single::zero_spec()
    }
}

/// The smallest of the first `n` numbers; infinity where none is smaller.
pub open spec fn least(values: Seq<Single>, n: nat) -> Single
    decreases n,
{
    if n == 0 {
        infinity()
    } else {
        let r = least(values, (n - 1) as nat);
        if values[n - 1].below(r) {
            values[n - 1]
        } else {
            r
        }
    }
}

/// The largest of the first `n` numbers; negative infinity where none is larger.
pub open spec fn greatest(values: Seq<Single>, n: nat) -> Single
    decreases n,
{
    if n == 0 {
        infinity().negated()
    } else {
        let r = greatest(values, (n - 1) as nat);
        if r.below(values[n - 1]) {
            values[n - 1]
        } else {
            r
        }
    }
}

pub open spec fn widened(values: Seq<Single>) -> Seq<Double> {
    Seq::new(values.len(), |t: int| values[t].widened())
}

/// The distances between the members of two clusters, those of the first member
/// of `a` first.
pub open spec fn crossings(embeddings: Seq<Embedding>, a: Seq<usize>, b: Seq<usize>) -> Seq<Single> {
    Seq::new(
        a.len() * b.len(),
        |t: int| distance(embeddings, a[t / b.len() as int] as int, b[t % b.len() as int] as int),
    )
}

/// One distance out of those between the members: the smallest, the largest, or
/// the mean, which is taken in double precision.
pub open spec fn linked(values: Seq<Single>, linkage: Linkage) -> Single {
    match linkage {
        Linkage::Single => least(values, values.len()),
        Linkage::Complete => greatest(values, values.len()),
        Linkage::Average => added(Double::zero_spec(), widened(values), values.len()).over(
            Double::natural(values.len()),
        ).narrowed(),
    }
}

/// The distance of two clusters.
pub open spec fn cluster_distance(
    embeddings: Seq<Embedding>,
    linkage: Linkage,
    a: Seq<usize>,
    b: Seq<usize>,
) -> Single {
    linked(crossings(embeddings, a, b), linkage)
}

/// All distances, row by row.
spec fn is_table(d: Seq<Vec<Single>>, embeddings: Seq<Embedding>) -> bool {
    &&& d.len() == embeddings.len()
    &&& forall|i: int| 0 <= i < d.len() ==> #[trigger] is_table_row(d[i]@, embeddings, i)
}

spec fn is_table_row(row: Seq<Single>, embeddings: Seq<Embedding>, i: int) -> bool {
    &&& row.len() == embeddings.len()
    &&& forall|j: int| 0 <= j < row.len() ==> #[trigger] row[j] == distance(embeddings, i, j)
}

fn distance_table(embeddings: &[Embedding]) -> (d: Vec<Vec<Single>>)
    ensures
        is_table(d@, embeddings@),
{
    let n: usize = embeddings.len();
    let mut d: Vec<Vec<Single>> = Vec::with_capacity(n);
    while d.len() < n
        invariant
            n == embeddings.len(),
            d.len() <= n,
            forall|i: int| 0 <= i < d.len() ==> #[trigger] is_table_row(d@[i]@, embeddings@, i),
        decreases n - d.len(),
    {
        let i: usize = d.len();
        let mut row: Vec<Single> = Vec::with_capacity(n);
        while row.len() < n
            invariant
                n == embeddings.len(),
                d.len() == i,
                i < n,
                row.len() <= n,
                forall|k: int| 0 <= k < i ==> #[trigger] is_table_row(d@[k]@, embeddings@, k),
                forall|j: int|
                    0 <= j < row.len() ==> #[trigger] row@[j] == distance(embeddings@, i as int, j),
            decreases n - row.len(),
        {
            let j: usize = row.len();
            let value: Single = if j < i {
                proof {
                    assert(is_table_row(d@[j as int]@, embeddings@, j as int));
                }
                d[j][i]
            } else if j == i {
                Single::zero()
            } else {
                Single::one().sub(embeddings[i].similarity(&embeddings[j]).max(Single::zero()))
            };
            row.push(value);
        }
        d.push(row);
    }
    d
}

/// Members that the table knows.
spec fn is_known(cluster: Seq<usize>, n: nat) -> bool {
    forall|p: int| 0 <= p < cluster.len() ==> #[trigger] cluster[p] < n
}

/// The distance of two clusters.
fn pair_distance(
    a: &[usize],
    b: &[usize],
    d: &[Vec<Single>],
    linkage: Linkage,
    Ghost(embeddings): Ghost<Seq<Embedding>>,
) -> (r: Single)
    requires
        is_table(d@, embeddings),
        is_known(a@, embeddings.len()),
        is_known(b@, embeddings.len()),
        a.len() * b.len() <= u64::MAX,
    ensures
        r == cluster_distance(embeddings, linkage, a@, b@),
{
    let ghost all = crossings(embeddings, a@, b@);
    let mut least_so_far: Single = Single::from_bits(0x7f80_0000);
    let mut greatest_so_far: Single = Single::from_bits(0x7f80_0000).neg();
    let mut total: Double = Double::zero();
    let mut pairs: u64 = 0;
    let mut p: usize = 0;
    proof {
        assert(0 * b.len() == 0);
    }
    while p < a.len()
        invariant
            p <= a.len(),
            pairs == p * b.len(),
            a.len() * b.len() <= u64::MAX,
            all == crossings(embeddings, a@, b@),
            is_table(d@, embeddings),
            is_known(a@, embeddings.len()),
            is_known(b@, embeddings.len()),
            linkage == Linkage::Single ==> least_so_far == least(all, pairs as nat),
            linkage == Linkage::Complete ==> greatest_so_far == greatest(all, pairs as nat),
            linkage == Linkage::Average ==> total == added(
                Double::zero_spec(),
                widened(all),
                pairs as nat,
            ),
        decreases a.len() - p,
    {
        let i: usize = a[p];
        let mut q: usize = 0;
        proof {
            assert(p * b.len() + b.len() <= a.len() * b.len()) by (nonlinear_arith)
                requires
                    p + 1 <= a.len(),
                    0 <= b.len(),
            ;
            assert((p + 1) * b.len() == p * b.len() + b.len()) by (nonlinear_arith);
        }
        while q < b.len()
            invariant
                p < a.len(),
                i == a@[p as int],
                q <= b.len(),
                pairs == p * b.len() + q,
                p * b.len() + b.len() <= a.len() * b.len(),
                a.len() * b.len() <= u64::MAX,
                all == crossings(embeddings, a@, b@),
                is_table(d@, embeddings),
                is_known(a@, embeddings.len()),
                is_known(b@, embeddings.len()),
                linkage == Linkage::Single ==> least_so_far == least(all, pairs as nat),
                linkage == Linkage::Complete ==> greatest_so_far == greatest(all, pairs as nat),
                linkage == Linkage::Average ==> total == added(
                    Double::zero_spec(),
                    widened(all),
                    pairs as nat,
                ),
            decreases b.len() - q,
        {
            let j: usize = b[q];
            proof {
                assert(is_table_row(d@[i as int]@, embeddings, i as int));
                vstd::arithmetic::div_mod::lemma_fundamental_div_mod_converse(
                    pairs as int,
                    b.len() as int,
                    p as int,
                    q as int,
                );
                assert(all[pairs as int] == distance(embeddings, i as int, j as int));
            }
            let value: Single = d[i][j];
            match linkage {
                Linkage::Single => {
                    if value.lt(least_so_far) {
                        least_so_far = value;
                    }
                },
                Linkage::Complete => {
                    if value.gt(greatest_so_far) {
                        greatest_so_far = value;
                    }
                },
                Linkage::Average => {
                    total = total.add(value.to_double());
                },
            }
            pairs = pairs + 1;
            q = q + 1;
        }
        p = p + 1;
    }
    match linkage {
        Linkage::Single => least_so_far,
        Linkage::Complete => greatest_so_far,
        Linkage::Average => total.div(Double::from_u64(pairs)).to_single(),
    }
}

/// Two clusters and their distance.
pub struct Closest {
    pub a: int,
    pub b: int,
    pub dist: Single,
}

/// The closest of the pairs that come before `(a, b)`, where pairs are ordered by
/// their first and then by their second cluster. Of equally close ones the first.
pub open spec fn closest_before(
    embeddings: Seq<Embedding>,
    linkage: Linkage,
    clusters: Seq<Seq<usize>>,
    a: nat,
    b: nat,
) -> Closest
    decreases a, b,
{
    if b > a + 1 {
        let r = closest_before(embeddings, linkage, clusters, a, (b - 1) as nat);
        let dist = cluster_distance(embeddings, linkage, clusters[a as int], clusters[b - 1]);
        if dist.below(r.dist) {
            Closest { a: a as int, b: b - 1, dist }
        } else {
            r
        }
    } else if a == 0 {
        Closest { a: 0, b: 1, dist: infinity() }
    } else {
        closest_before(embeddings, linkage, clusters, (a - 1) as nat, clusters.len())
    }
}

/// The closest pair of clusters.
pub open spec fn closest(
    embeddings: Seq<Embedding>,
    linkage: Linkage,
    clusters: Seq<Seq<usize>>,
) -> Closest {
    closest_before(
        embeddings,
        linkage,
        clusters,
        (clusters.len() - 1) as nat,
        clusters.len(),
    )
}

/// The clusters with those at `a < b` joined, at `a`.
pub open spec fn joined(clusters: Seq<Seq<usize>>, a: int, b: int) -> Seq<Seq<usize>> {
    clusters.remove(b).update(a, clusters[a] + clusters[b])
}

/// The clusters that merging ends with. It stops at the target or, without a
/// target, where no two clusters are closer than `stop`.
pub open spec fn merged(
    embeddings: Seq<Embedding>,
    linkage: Linkage,
    target: Option<u32>,
    stop: Single,
    clusters: Seq<Seq<usize>>,
) -> Seq<Seq<usize>>
    decreases clusters.len(),
{
    let best = closest(embeddings, linkage, clusters);
    if clusters.len() <= 1 || is_reached(target, clusters.len()) {
        clusters
    } else if target is None && stop.at_most(best.dist) {
        clusters
    } else if 0 <= best.a < best.b < clusters.len() {
        merged(embeddings, linkage, target, stop, joined(clusters, best.a, best.b))
    } else {
        clusters
    }
}

/// The number of clusters is the target.
pub open spec fn is_reached(target: Option<u32>, k: nat) -> bool {
    target is Some && k == target->0
}

/// Every embedding in a cluster of its own.
pub open spec fn singletons(n: nat) -> Seq<Seq<usize>> {
    Seq::new(n, |i: int| seq![i as usize])
}

/// The clusters that the options ask for.
pub open spec fn clusters_of(
    embeddings: Seq<Embedding>,
    linkage: Linkage,
    opts: OfflineClusterOptions,
) -> Seq<Seq<usize>> {
    merged(
        embeddings,
        linkage,
        opts.target(),
        Single::one_spec().minus(opts.threshold()),
        singletons(embeddings.len()),
    )
}

/// Clusters that hold each of `0..n` once, none of them empty.
pub open spec fn is_partition(clusters: Seq<Seq<usize>>, n: nat) -> bool {
    &&& forall|c: int, p: int|
        0 <= c < clusters.len() && 0 <= p < clusters[c].len() ==> #[trigger] clusters[c][p] < n
    &&& forall|c: int| 0 <= c < clusters.len() ==> #[trigger] clusters[c].len() > 0
    &&& forall|c: int, p: int, d: int, q: int|
        0 <= c < clusters.len() && 0 <= p < clusters[c].len() && 0 <= d < clusters.len() && 0 <= q
            < clusters[d].len() && #[trigger] clusters[c][p] == #[trigger] clusters[d][q] ==> c == d
            && p == q
    &&& forall|i: int| 0 <= i < n ==> #[trigger] is_held(clusters, i)
}

/// Some cluster holds `i`.
pub open spec fn is_held(clusters: Seq<Seq<usize>>, i: int) -> bool {
    exists|c: int, p: int|
        0 <= c < clusters.len() && 0 <= p < clusters[c].len() && #[trigger] clusters[c][p] == i
}

proof fn lemma_singletons(n: nat)
    requires
        n <= usize::MAX,
    ensures
        is_partition(singletons(n), n),
{
    assert forall|i: int| 0 <= i < n implies #[trigger] is_held(singletons(n), i) by {
        assert(singletons(n)[i][0] == i);
    }
}

/// Joining two clusters keeps the partition.
proof fn lemma_joined(clusters: Seq<Seq<usize>>, a: int, b: int, n: nat)
    requires
        is_partition(clusters, n),
        0 <= a < b < clusters.len(),
    ensures
        is_partition(joined(clusters, a, b), n),
        joined(clusters, a, b).len() == clusters.len() - 1,
{
    let next = joined(clusters, a, b);
    let both = clusters[a] + clusters[b];
    let split = clusters[a].len() as int;
    assert forall|c: int, p: int| 0 <= c < next.len() && 0 <= p < next[c].len() implies (
    #[trigger] next[c][p]) == old_member(clusters, a, b, c, p) by {
        if c == a {
            assert(next[c] == both);
        } else if c < b {
            assert(next[c] == clusters[c]);
        } else {
            assert(next[c] == clusters[c + 1]);
        }
    }
    assert forall|c: int| 0 <= c < next.len() implies #[trigger] next[c].len() > 0 by {
        if c == a {
            assert(clusters[a].len() > 0);
        } else if c < b {
            assert(clusters[c].len() > 0);
        } else {
            assert(clusters[c + 1].len() > 0);
        }
    }
    assert forall|c: int, p: int| 0 <= c < next.len() && 0 <= p < next[c].len() implies
        #[trigger] next[c][p] < n by {
        assert(next[c][p] == old_member(clusters, a, b, c, p));
    }
    assert forall|c: int, p: int, d: int, q: int|
        0 <= c < next.len() && 0 <= p < next[c].len() && 0 <= d < next.len() && 0 <= q
            < next[d].len() && #[trigger] next[c][p] == #[trigger] next[d][q] implies c == d && p
        == q by {
        assert(next[c][p] == old_member(clusters, a, b, c, p));
        assert(next[d][q] == old_member(clusters, a, b, d, q));
    }
    assert forall|i: int| 0 <= i < n implies #[trigger] is_held(next, i) by {
        assert(is_held(clusters, i));
        let (c, p) = choose|c: int, p: int|
            0 <= c < clusters.len() && 0 <= p < clusters[c].len() && #[trigger] clusters[c][p] == i;
        if c == a {
            assert(next[a][p] == i);
        } else if c == b {
            assert(next[a][split + p] == i);
        } else if c < b {
            assert(next[c][p] == i);
        } else {
            assert(next[c - 1][p] == i);
        }
    }
}

/// Where a member of joined clusters stood before.
spec fn old_member(clusters: Seq<Seq<usize>>, a: int, b: int, c: int, p: int) -> usize {
    if c == a {
        if p < clusters[a].len() {
            clusters[a][p]
        } else {
            clusters[b][p - clusters[a].len()]
        }
    } else if c < b {
        clusters[c][p]
    } else {
        clusters[c + 1][p]
    }
}

/// A cluster of a partition has at most `n` members.
proof fn lemma_cluster_size(clusters: Seq<Seq<usize>>, n: nat, c: int)
    requires
        is_partition(clusters, n),
        0 <= c < clusters.len(),
    ensures
        clusters[c].len() <= n,
{
    let members = clusters[c].map_values(|x: usize| x as int);
    assert(members.no_duplicates()) by {
        assert forall|p: int, q: int|
            0 <= p < members.len() && 0 <= q < members.len() && p != q implies members[p]
            != members[q] by {
            assert(clusters[c][p] != clusters[c][q]);
        }
    }
    members.unique_seq_to_set();
    assert(members.to_set().subset_of(vstd::set_lib::set_int_range(0, n as int))) by {
        assert forall|x: int| members.to_set().contains(x) implies vstd::set_lib::set_int_range(
            0,
            n as int,
        ).contains(x) by {
            let p = choose|p: int| 0 <= p < members.len() && members[p] == x;
            assert(clusters[c][p] < n);
        }
    }
    vstd::set_lib::lemma_int_range(0, n as int);
    vstd::set_lib::lemma_len_subset(members.to_set(), vstd::set_lib::set_int_range(0, n as int));
}

/// The found pair is a pair of clusters.
proof fn lemma_closest_is_pair(
    embeddings: Seq<Embedding>,
    linkage: Linkage,
    clusters: Seq<Seq<usize>>,
    a: nat,
    b: nat,
)
    requires
        clusters.len() >= 2,
        a + 1 <= b <= clusters.len(),
    ensures
        ({
            let r = closest_before(embeddings, linkage, clusters, a, b);
            0 <= r.a < r.b < clusters.len()
        }),
    decreases a, b,
{
    if b > a + 1 {
        lemma_closest_is_pair(embeddings, linkage, clusters, a, (b - 1) as nat);
    } else if a > 0 {
        lemma_closest_is_pair(embeddings, linkage, clusters, (a - 1) as nat, clusters.len());
    }
}

/// The members of all clusters.
pub open spec fn members(clusters: Seq<Vec<usize>>) -> Seq<Seq<usize>> {
    Seq::new(clusters.len(), |c: int| clusters[c]@)
}

/// The closest pair of clusters.
fn find_closest(
    clusters: &[Vec<usize>],
    d: &[Vec<Single>],
    linkage: Linkage,
    Ghost(embeddings): Ghost<Seq<Embedding>>,
) -> (r: (usize, usize, Single))
    requires
        clusters.len() >= 2,
        is_table(d@, embeddings),
        is_partition(members(clusters@), embeddings.len()),
        embeddings.len() * embeddings.len() <= u64::MAX,
    ensures
        r.0 < r.1 < clusters.len(),
        r.0 == closest(embeddings, linkage, members(clusters@)).a,
        r.1 == closest(embeddings, linkage, members(clusters@)).b,
        r.2 == closest(embeddings, linkage, members(clusters@)).dist,
{
    let k: usize = clusters.len();
    let ghost sets = members(clusters@);
    let ghost n = embeddings.len();
    let mut best_a: usize = 0;
    let mut best_b: usize = 1;
    let mut best_dist: Single = Single::from_bits(0x7f80_0000);
    let mut a: usize = 0;
    while a < k - 1
        invariant
            k == clusters.len(),
            k >= 2,
            a <= k - 1,
            sets == members(clusters@),
            n == embeddings.len(),
            is_table(d@, embeddings),
            is_partition(sets, n),
            n * n <= u64::MAX,
            ({
                let r = closest_before(embeddings, linkage, sets, a as nat, (a + 1) as nat);
                best_a == r.a && best_b == r.b && best_dist == r.dist
            }),
        decreases k - a,
    {
        let mut b: usize = a + 1;
        while b < k
            invariant
                k == clusters.len(),
                k >= 2,
                a < k - 1,
                a + 1 <= b <= k,
                sets == members(clusters@),
                n == embeddings.len(),
                is_table(d@, embeddings),
                is_partition(sets, n),
                n * n <= u64::MAX,
                ({
                    let r = closest_before(embeddings, linkage, sets, a as nat, b as nat);
                    best_a == r.a && best_b == r.b && best_dist == r.dist
                }),
            decreases k - b,
        {
            proof {
                lemma_cluster_size(sets, n, a as int);
                lemma_cluster_size(sets, n, b as int);
                assert(sets[a as int].len() * sets[b as int].len() <= n * n) by (nonlinear_arith)
                    requires
                        sets[a as int].len() <= n,
                        sets[b as int].len() <= n,
                ;
                assert forall|p: int| 0 <= p < clusters@[a as int]@.len() implies
                    #[trigger] clusters@[a as int]@[p] < n by {
                    assert(sets[a as int][p] < n);
                }
                assert forall|p: int| 0 <= p < clusters@[b as int]@.len() implies
                    #[trigger] clusters@[b as int]@[p] < n by {
                    assert(sets[b as int][p] < n);
                }
            }
            let dist: Single = pair_distance(
                clusters[a].as_slice(),
                clusters[b].as_slice(),
                d,
                linkage,
                Ghost(embeddings),
            );
            if dist.lt(best_dist) {
                best_dist = dist;
                best_a = a;
                best_b = b;
            }
            b = b + 1;
        }
        a = a + 1;
    }
    proof {
        lemma_closest_is_pair(embeddings, linkage, sets, (k - 1) as nat, k as nat);
    }
    (best_a, best_b, best_dist)
}

/// Joins the clusters at `a < b`, at `a`.
fn join(clusters: &mut Vec<Vec<usize>>, a: usize, b: usize)
    requires
        a < b < old(clusters).len(),
    ensures
        members(final(clusters)@) == joined(members(old(clusters)@), a as int, b as int),
{
    let ghost before = clusters@;
    let mut tail: Vec<usize> = clusters.remove(b);
    let mut head: Vec<usize> = Vec::new();
    std::mem::swap(&mut clusters[a], &mut head);
    head.append(&mut tail);
    clusters[a] = head;
    proof {
        assert(members(clusters@) =~= joined(members(before), a as int, b as int));
    }
}

/// The label of each of `0..n`: the position of its cluster.
pub open spec fn is_labelling(labels: Seq<u64>, clusters: Seq<Seq<usize>>) -> bool {
    forall|c: int, p: int|
        0 <= c < clusters.len() && 0 <= p < clusters[c].len() ==> labels[#[trigger] clusters[c][p]
            as int] == c
}

/// The labels of a partition.
fn label_members(clusters: &[Vec<usize>], n: usize) -> (labels: Vec<u64>)
    requires
        is_partition(members(clusters@), n as nat),
    ensures
        labels.len() == n,
        is_labelling(labels@, members(clusters@)),
{
    let ghost sets = members(clusters@);
    let mut labels: Vec<u64> = Vec::with_capacity(n);
    while labels.len() < n
        invariant
            labels.len() <= n,
        decreases n - labels.len(),
    {
        labels.push(0);
    }
    let mut c: usize = 0;
    while c < clusters.len()
        invariant
            c <= clusters.len(),
            sets == members(clusters@),
            is_partition(sets, n as nat),
            labels.len() == n,
            forall|e: int, p: int|
                0 <= e < c && 0 <= p < sets[e].len() ==> labels@[#[trigger] sets[e][p] as int] == e,
        decreases clusters.len() - c,
    {
        let cluster: &Vec<usize> = &clusters[c];
        let mut p: usize = 0;
        while p < cluster.len()
            invariant
                c < clusters.len(),
                cluster@ == clusters@[c as int]@,
                p <= cluster.len(),
                sets == members(clusters@),
                is_partition(sets, n as nat),
                labels.len() == n,
                forall|e: int, q: int|
                    0 <= e < c && 0 <= q < sets[e].len() ==> labels@[#[trigger] sets[e][q] as int]
                        == e,
                forall|q: int| 0 <= q < p ==> labels@[#[trigger] sets[c as int][q] as int] == c,
            decreases cluster.len() - p,
        {
            proof {
                assert(sets[c as int][p as int] < n);
            }
            let ghost labels0 = labels@;
            labels[cluster[p]] = c as u64;
            proof {
                let m = sets[c as int][p as int];
                assert(cluster@[p as int] == m);
                assert forall|e: int, q: int| 0 <= e < c && 0 <= q < sets[e].len() implies
                    labels@[#[trigger] sets[e][q] as int] == e by {
                    assert(sets[e][q] != m);
                    assert(labels0[sets[e][q] as int] == e);
                }
                assert forall|q: int| 0 <= q < p + 1 implies labels@[#[trigger] sets[c as int][q]
                    as int] == c by {
                    if q < p {
                        assert(sets[c as int][q] != m);
                        assert(labels0[sets[c as int][q] as int] == c);
                    }
                }
            }
            p = p + 1;
        }
        c = c + 1;
    }
    labels
}

/// One label per embedding: the position of its final cluster.
pub open spec fn is_answer(
    labels: Seq<u64>,
    embeddings: Seq<Embedding>,
    linkage: Linkage,
    opts: OfflineClusterOptions,
) -> bool {
    &&& labels.len() == embeddings.len()
    &&& is_labelling(labels, clusters_of(embeddings, linkage, opts))
}

/// Clusters embeddings bottom up. Labels are the positions of the final clusters.
pub fn cluster(
    embeddings: &[Embedding],
    linkage: Linkage,
    opts: &OfflineClusterOptions,
) -> (r: Result<Vec<u64>, Error>)
    requires
        embeddings.len() >= 1,
        embeddings.len() * embeddings.len() <= u64::MAX,
    ensures
        r is Ok,
        is_answer(r->Ok_0@, embeddings@, linkage, *opts),
{
    let n: usize = embeddings.len();
    let d: Vec<Vec<Single>> = distance_table(embeddings);
    let mut clusters: Vec<Vec<usize>> = Vec::with_capacity(n);
    while clusters.len() < n
        invariant
            clusters.len() <= n,
            forall|i: int| 0 <= i < clusters.len() ==> (#[trigger] clusters@[i])@ == seq![i as usize],
        decreases n - clusters.len(),
    {
        let mut single: Vec<usize> = Vec::new();
        single.push(clusters.len());
        proof {
            assert(single@ =~= seq![clusters.len()]);
        }
        clusters.push(single);
    }
    let stop_dist: Single = Single::one().sub(opts.similarity_threshold());
    let target: Option<u32> = opts.target_speakers();
    proof {
        assert(members(clusters@) =~= singletons(n as nat));
        lemma_singletons(n as nat);
    }
    let ghost goal = clusters_of(embeddings@, linkage, *opts);
    loop
        invariant
            n == embeddings.len(),
            n * n <= u64::MAX,
            is_table(d@, embeddings@),
            is_partition(members(clusters@), n as nat),
            1 <= clusters.len(),
            target == opts.target(),
            stop_dist == Single::one_spec().minus(opts.threshold()),
            goal == merged(embeddings@, linkage, target, stop_dist, members(clusters@)),
        ensures
            is_partition(members(clusters@), n as nat),
            goal == members(clusters@),
        decreases clusters.len(),
    {
        if clusters.len() == 1 {
            break;
        }
        if let Some(t) = target {
            if clusters.len() == t as usize {
                break;
            }
        }
        let (a, b, dist) = find_closest(clusters.as_slice(), d.as_slice(), linkage, Ghost(embeddings@));
        if target.is_none() && dist.ge(stop_dist) {
            break;
        }
        proof {
            lemma_joined(members(clusters@), a as int, b as int, n as nat);
        }
        join(&mut clusters, a, b);
        proof {
            assert(members(clusters@).len() == clusters.len());
        }
    }
    Ok(label_members(clusters.as_slice(), n))
}

/// A pair at an earlier place is not closer than the one found.
proof fn lemma_closest_before(
    embeddings: Seq<Embedding>,
    linkage: Linkage,
    clusters: Seq<Seq<usize>>,
    a: nat,
    b: nat,
    i: int,
    j: int,
)
    requires
        a + 1 <= b <= clusters.len(),
        0 <= i < j < clusters.len(),
        i < a || (i == a && j < b),
    ensures
        !cluster_distance(embeddings, linkage, clusters[i], clusters[j]).below(
            closest_before(embeddings, linkage, clusters, a, b).dist,
        ),
    decreases a, b,
{
    if b > a + 1 {
        if !(i == a && j == b - 1) {
            lemma_closest_before(embeddings, linkage, clusters, a, (b - 1) as nat, i, j);
        }
    } else if a > 0 {
        lemma_closest_before(
            embeddings,
            linkage,
            clusters,
            (a - 1) as nat,
            clusters.len(),
            i,
            j,
        );
    }
}

/// No two clusters are closer than the pair found.
pub proof fn law_closest_pair_is_closest(
    embeddings: Seq<Embedding>,
    linkage: Linkage,
    clusters: Seq<Seq<usize>>,
)
    requires
        clusters.len() >= 2,
    ensures
        ({
            let best = closest(embeddings, linkage, clusters);
            &&& 0 <= best.a < best.b < clusters.len()
            &&& forall|i: int, j: int|
                0 <= i < j < clusters.len() ==> !(#[trigger] cluster_distance(
                    embeddings,
                    linkage,
                    clusters[i],
                    clusters[j],
                )).below(best.dist)
        }),
{
    let k = clusters.len();
    lemma_closest_is_pair(embeddings, linkage, clusters, (k - 1) as nat, k);
    assert forall|i: int, j: int| 0 <= i < j < k implies !(#[trigger] cluster_distance(
        embeddings,
        linkage,
        clusters[i],
        clusters[j],
    )).below(closest(embeddings, linkage, clusters).dist) by {
        lemma_closest_before(embeddings, linkage, clusters, (k - 1) as nat, k, i, j);
    }
}

/// Merging keeps a partition a partition.
proof fn lemma_merged_partition(
    embeddings: Seq<Embedding>,
    linkage: Linkage,
    target: Option<u32>,
    stop: Single,
    clusters: Seq<Seq<usize>>,
    n: nat,
)
    requires
        is_partition(clusters, n),
    ensures
        is_partition(merged(embeddings, linkage, target, stop, clusters), n),
    decreases clusters.len(),
{
    let best = closest(embeddings, linkage, clusters);
    if clusters.len() > 1 && !is_reached(target, clusters.len()) && !(target is None
        && stop.at_most(best.dist)) && 0 <= best.a < best.b < clusters.len() {
        lemma_joined(clusters, best.a, best.b, n);
        lemma_merged_partition(
            embeddings,
            linkage,
            target,
            stop,
            joined(clusters, best.a, best.b),
            n,
        );
    }
}

/// The final clusters hold every embedding once, and none is empty.
pub proof fn law_clusters_partition(
    embeddings: Seq<Embedding>,
    linkage: Linkage,
    opts: OfflineClusterOptions,
)
    requires
        embeddings.len() <= usize::MAX,
    ensures
        is_partition(clusters_of(embeddings, linkage, opts), embeddings.len()),
{
    lemma_singletons(embeddings.len());
    lemma_merged_partition(
        embeddings,
        linkage,
        opts.target(),
        Single::one_spec().minus(opts.threshold()),
        singletons(embeddings.len()),
        embeddings.len(),
    );
}

proof fn lemma_merged_to_target(
    embeddings: Seq<Embedding>,
    linkage: Linkage,
    target: u32,
    stop: Single,
    clusters: Seq<Seq<usize>>,
)
    requires
        1 <= target <= clusters.len(),
    ensures
        merged(embeddings, linkage, Some(target), stop, clusters).len() == target,
    decreases clusters.len(),
{
    if clusters.len() > 1 && clusters.len() != target {
        let best = closest(embeddings, linkage, clusters);
        let k = clusters.len();
        lemma_closest_is_pair(embeddings, linkage, clusters, (k - 1) as nat, k);
        assert(joined(clusters, best.a, best.b).len() == k - 1);
        lemma_merged_to_target(
            embeddings,
            linkage,
            target,
            stop,
            joined(clusters, best.a, best.b),
        );
    }
}

/// A target between one and the number of embeddings is met exactly, whatever the
/// threshold.
pub proof fn law_target_is_met(
    embeddings: Seq<Embedding>,
    linkage: Linkage,
    opts: OfflineClusterOptions,
)
    requires
        opts.target() is Some,
        1 <= opts.target()->0 <= embeddings.len(),
    ensures
        clusters_of(embeddings, linkage, opts).len() == opts.target()->0,
{
    lemma_merged_to_target(
        embeddings,
        linkage,
        opts.target()->0,
        Single::one_spec().minus(opts.threshold()),
        singletons(embeddings.len()),
    );
}

proof fn lemma_merged_apart(
    embeddings: Seq<Embedding>,
    linkage: Linkage,
    stop: Single,
    clusters: Seq<Seq<usize>>,
    i: int,
    j: int,
)
    requires
        ({
            let r = merged(embeddings, linkage, None, stop, clusters);
            0 <= i < j < r.len()
        }),
    ensures
        ({
            let r = merged(embeddings, linkage, None, stop, clusters);
            !cluster_distance(embeddings, linkage, r[i], r[j]).below(stop)
        }),
    decreases clusters.len(),
{
    let best = closest(embeddings, linkage, clusters);
    if clusters.len() > 1 {
        let k = clusters.len();
        lemma_closest_is_pair(embeddings, linkage, clusters, (k - 1) as nat, k);
        if stop.at_most(best.dist) {
            law_closest_pair_is_closest(embeddings, linkage, clusters);
            assert(!cluster_distance(embeddings, linkage, clusters[i], clusters[j]).below(
                best.dist,
            ));
        } else {
            lemma_merged_apart(
                embeddings,
                linkage,
                stop,
                joined(clusters, best.a, best.b),
                i,
                j,
            );
        }
    }
}

/// Without a target no two final clusters are closer than one minus the threshold.
pub proof fn law_clusters_are_apart(
    embeddings: Seq<Embedding>,
    linkage: Linkage,
    opts: OfflineClusterOptions,
)
    requires
        opts.target() is None,
    ensures
        ({
            let r = clusters_of(embeddings, linkage, opts);
            forall|i: int, j: int|
                0 <= i < j < r.len() ==> !(#[trigger] cluster_distance(
                    embeddings,
                    linkage,
                    r[i],
                    r[j],
                )).below(Single::one_spec().minus(opts.threshold()))
        }),
{
    let stop = Single::one_spec().minus(opts.threshold());
    let r = clusters_of(embeddings, linkage, opts);
    assert forall|i: int, j: int| 0 <= i < j < r.len() implies !(#[trigger] cluster_distance(
        embeddings,
        linkage,
        r[i],
        r[j],
    )).below(stop) by {
        lemma_merged_apart(embeddings, linkage, stop, singletons(embeddings.len()), i, j);
    }
}

/// Labels run from zero without a gap: every label is the position of a cluster,
/// and every position is a label.
pub proof fn law_labels_have_no_gap(
    labels: Seq<u64>,
    embeddings: Seq<Embedding>,
    linkage: Linkage,
    opts: OfflineClusterOptions,
)
    requires
        is_answer(labels, embeddings, linkage, opts),
        embeddings.len() <= usize::MAX,
    ensures
        forall|i: int|
            0 <= i < labels.len() ==> #[trigger] labels[i] < clusters_of(
                embeddings,
                linkage,
                opts,
            ).len(),
        forall|c: int|
            0 <= c < clusters_of(embeddings, linkage, opts).len() ==> #[trigger] is_label(labels, c),
{
    let clusters = clusters_of(embeddings, linkage, opts);
    law_clusters_partition(embeddings, linkage, opts);
    assert forall|i: int| 0 <= i < labels.len() implies #[trigger] labels[i] < clusters.len() by {
        assert(is_held(clusters, i));
        let (c, p) = choose|c: int, p: int|
            0 <= c < clusters.len() && 0 <= p < clusters[c].len() && #[trigger] clusters[c][p] == i;
        assert(labels[clusters[c][p] as int] == c);
    }
    assert forall|c: int| 0 <= c < clusters.len() implies #[trigger] is_label(labels, c) by {
        assert(clusters[c].len() > 0);
        assert(labels[clusters[c][0] as int] == c);
    }
}

/// Some embedding has the label.
pub open spec fn is_label(labels: Seq<u64>, c: int) -> bool {
    exists|i: int| 0 <= i < labels.len() && #[trigger] labels[i] == c
}

} // verus!
