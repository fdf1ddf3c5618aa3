//! K-means on the rows of a matrix.

use vstd::prelude::*;
use crate::cluster::random::{draw_index, draw_word, index_draw, to_unit_interval, unit_interval, word_draw};
use crate::cluster::seeding::{are_weighable, has_finite_cells, is_distinct, is_weighable, lemma_pick_is_new};
use crate::float::sums::{add_all, added, sum};
use crate::float::Double;
use crate::matrix::{copy_row, row, DoubleMatrix, Grid};

verus! {

/// The squared differences between row `j` and a point.
pub open spec fn square_terms(m: Grid, j: int, c: Seq<Double>) -> Seq<Double> {
    Seq::new(c.len(), |x: int| m.at(j, x).minus(c[x]).times(m.at(j, x).minus(c[x])))
}

/// The squared distance between row `j` and a point.
pub open spec fn square_distance(m: Grid, j: int, c: Seq<Double>) -> Double {
    sum(square_terms(m, j, c))
}

/// The position and squared distance of the first of the closest of the first `k`
/// points to row `j`.
pub open spec fn nearest(
    m: Grid,
    j: int,
    points: Seq<Seq<Double>>,
    k: nat,
) -> (int, Double)
    decreases k,
{
    if k == 0 {
        (0, Double::infinity_spec())
    } else {
        let r = nearest(m, j, points, (k - 1) as nat);
        let d = square_distance(m, j, points[k - 1]);
        if d.below(r.1) {
            (k - 1, d)
        } else {
            r
        }
    }
}

/// The squared distance of every row to the closest point.
pub open spec fn weights(m: Grid, points: Seq<Seq<Double>>) -> Seq<Double> {
    Seq::new(m.height, |j: int| nearest(m, j, points, points.len()).1)
}

/// What vectors hold.
pub open spec fn contents(points: Seq<Vec<Double>>) -> Seq<Seq<Double>> {
    Seq::new(points.len(), |c: int| points[c]@)
}

/// Points with a coordinate for each column.
pub open spec fn fit(points: Seq<Seq<Double>>, m: Grid) -> bool {
    forall|c: int| 0 <= c < points.len() ==> (#[trigger] points[c]).len() == m.width
}

/// The squared distance between row `j` and a point.
fn square_distance_to(m: &DoubleMatrix, j: usize, c: &[Double]) -> (r: Double)
    requires
        j < m.height(),
        c.len() == m.width(),
    ensures
        r == square_distance(m@, j as int, c@),
{
    let mut total: Double = Double::minus_zero();
    let mut x: usize = 0;
    while x < c.len()
        invariant
            j < m.height(),
            c.len() == m.width(),
            x <= c.len(),
            total == added(
                Double::minus_zero_spec(),
                square_terms(m@, j as int, c@),
                x as nat,
            ),
        decreases c.len() - x,
    {
        let difference: Double = m.get(j, x).sub(c[x]);
        total = total.add(difference.mul(difference));
        x = x + 1;
    }
    total
}

/// The first of the closest points to row `j`.
fn nearest_point(m: &DoubleMatrix, j: usize, points: &[Vec<Double>]) -> (r: (usize, Double))
    requires
        j < m.height(),
        fit(contents(points@), m@),
    ensures
        (r.0 as int, r.1) == nearest(m@, j as int, contents(points@), points@.len()),
        points.len() > 0 ==> r.0 < points.len(),
{
    let ghost all = contents(points@);
    let mut best: usize = 0;
    let mut best_distance: Double = Double::infinity();
    let mut c: usize = 0;
    while c < points.len()
        invariant
            j < m.height(),
            all == contents(points@),
            fit(all, m@),
            c <= points.len(),
            best == 0 || best < c,
            (best as int, best_distance) == nearest(m@, j as int, all, c as nat),
        decreases points.len() - c,
    {
        proof {
            assert(all[c as int].len() == m.width());
        }
        let d: Double = square_distance_to(m, j, points[c].as_slice());
        if d.lt(best_distance) {
            best_distance = d;
            best = c;
        }
        c = c + 1;
    }
    (best, best_distance)
}

/// The squared distance of every row to the closest point.
pub fn weigh(m: &DoubleMatrix, points: &[Vec<Double>]) -> (r: Vec<Double>)
    requires
        fit(contents(points@), m@),
    ensures
        r@ == weights(m@, contents(points@)),
{
    let (n, _) = m.shape();
    let mut r: Vec<Double> = Vec::with_capacity(n);
    while r.len() < n
        invariant
            n == m.height(),
            r.len() <= n,
            fit(contents(points@), m@),
            forall|j: int|
                0 <= j < r.len() ==> #[trigger] r@[j] == nearest(
                    m@,
                    j,
                    contents(points@),
                    points@.len(),
                ).1,
        decreases n - r.len(),
    {
        let (_, d) = nearest_point(m, r.len(), points);
        r.push(d);
    }
    proof {
        assert(r@ =~= weights(m@, contents(points@)));
    }
    r
}

/// The numbers below `n` that are not chosen, in order.
pub open spec fn unchosen(n: nat, chosen: Seq<usize>) -> Seq<usize>
    decreases n,
{
    if n == 0 {
        Seq::empty()
    } else if chosen.contains((n - 1) as usize) {
        unchosen((n - 1) as nat, chosen)
    } else {
        unchosen((n - 1) as nat, chosen).push((n - 1) as usize)
    }
}

/// The chosen numbers below `m`.
spec fn chosen_below(m: nat, chosen: Seq<usize>) -> Set<usize> {
    chosen.to_set().filter(|x: usize| x < m)
}

proof fn lemma_unchosen_count(m: nat, chosen: Seq<usize>)
    requires
        m <= usize::MAX,
    ensures
        chosen_below(m, chosen).finite(),
        unchosen(m, chosen).len() + chosen_below(m, chosen).len() == m,
    decreases m,
{
    chosen.to_set().lemma_len_filter(|x: usize| x < m);
    if m == 0 {
        assert(chosen_below(0, chosen) =~= Set::empty());
    } else {
        let last = (m - 1) as usize;
        lemma_unchosen_count((m - 1) as nat, chosen);
        let below = chosen_below((m - 1) as nat, chosen);
        if chosen.contains(last) {
            assert(chosen_below(m, chosen) =~= below.insert(last));
        } else {
            assert(chosen_below(m, chosen) =~= below);
        }
    }
}

/// Fewer than `n` choices leave some number below `n`.
proof fn lemma_some_unchosen(n: nat, chosen: Seq<usize>)
    requires
        n <= usize::MAX,
        chosen.len() < n,
    ensures
        unchosen(n, chosen).len() > 0,
        unchosen(n, chosen).len() <= n,
{
    lemma_unchosen_count(n, chosen);
    chosen.to_set().lemma_len_filter(|x: usize| x < n);
    chosen.lemma_cardinality_of_set();
}

/// What is not chosen is below `n`.
proof fn lemma_unchosen_below(n: nat, chosen: Seq<usize>)
    requires
        n <= usize::MAX,
    ensures
        forall|p: int| 0 <= p < unchosen(n, chosen).len() ==> #[trigger] unchosen(n, chosen)[p] < n,
        forall|p: int|
            0 <= p < unchosen(n, chosen).len() ==> !chosen.contains(
                #[trigger] unchosen(n, chosen)[p],
            ),
    decreases n,
{
    if n > 0 {
        let rest = unchosen((n - 1) as nat, chosen);
        lemma_unchosen_below((n - 1) as nat, chosen);
        assert forall|p: int| 0 <= p < unchosen(n, chosen).len() implies #[trigger] unchosen(
            n,
            chosen,
        )[p] < n && !chosen.contains(unchosen(n, chosen)[p]) by {
            if p < rest.len() {
                assert(unchosen(n, chosen)[p] == rest[p]);
            }
        }
    }
}

/// The numbers below `n` that are not chosen.
pub fn list_unchosen(n: usize, chosen: &[usize]) -> (r: Vec<usize>)
    ensures
        r@ == unchosen(n as nat, chosen@),
{
    let mut r: Vec<usize> = Vec::new();
    let mut j: usize = 0;
    while j < n
        invariant
            j <= n,
            r@ == unchosen(j as nat, chosen@),
        decreases n - j,
    {
        let mut found: bool = false;
        let mut p: usize = 0;
        while p < chosen.len()
            invariant
                p <= chosen.len(),
                found <==> exists|q: int| 0 <= q < p && chosen@[q] == j,
            decreases chosen.len() - p,
        {
            if chosen[p] == j {
                found = true;
            }
            p = p + 1;
        }
        if !found {
            r.push(j);
        }
        j = j + 1;
    }
    r
}

/// The first position from `j` on at which the weights added up from zero exceed
/// `t`; the last position where there is none.
pub open spec fn first_above(weights: Seq<Double>, t: Double, j: nat) -> int
    decreases weights.len() - j,
{
    if j >= weights.len() {
        weights.len() - 1
    } else if t.below(added(Double::zero_spec(), weights, j + 1)) {
        j as int
    } else {
        first_above(weights, t, j + 1)
    }
}

/// The row that a random word picks, with a chance in proportion to its weight.
pub open spec fn picked_by_weight(weights: Seq<Double>, word: u64) -> int {
    first_above(weights, unit_interval(word).times(sum(weights)), 0)
}

/// The row that a random word picks, with a chance in proportion to its weight.
pub fn pick_by_weight(weights: &[Double], word: u64) -> (r: usize)
    requires
        weights.len() > 0,
    ensures
        r == picked_by_weight(weights@, word),
        r < weights.len(),
{
    let total: Double = add_all(Double::minus_zero(), weights);
    let t: Double = to_unit_interval(word).mul(total);
    let mut running: Double = Double::zero();
    let mut j: usize = 0;
    while j < weights.len()
        invariant
            weights.len() > 0,
            j <= weights.len(),
            t == unit_interval(word).times(sum(weights@)),
            running == added(Double::zero_spec(), weights@, j as nat),
            first_above(weights@, t, 0) == first_above(weights@, t, j as nat),
        decreases weights.len() - j,
    {
        running = running.add(weights[j]);
        if running.gt(t) {
            return j;
        }
        j = j + 1;
    }
    weights.len() - 1
}

/// Rows chosen so far, and the position in the random stream.
pub struct Picks {
    pub chosen: Seq<usize>,
    pub position: u128,
}

/// The chosen rows.
pub open spec fn chosen_rows(m: Grid, chosen: Seq<usize>) -> Seq<Seq<Double>> {
    Seq::new(chosen.len(), |c: int| row(m, chosen[c] as int))
}

/// One more choice. A row's chance is in proportion to its squared distance to the
/// closest row chosen before; where all those distances are zero, every row not
/// chosen before has the same chance.
pub open spec fn picked_next(m: Grid, seed: u64, picks: Picks) -> Picks {
    let w = weights(m, chosen_rows(m, picks.chosen));
    if sum(w).equals(Double::zero_spec()) {
        let free = unchosen(m.height, picks.chosen);
        let draw = index_draw(seed, picks.position, free.len() as usize);
        Picks { chosen: picks.chosen.push(free[draw.0 as int]), position: draw.1 }
    } else {
        let draw = word_draw(seed, picks.position);
        Picks {
            chosen: picks.chosen.push(picked_by_weight(w, draw.0) as usize),
            position: draw.1,
        }
    }
}

/// The first `k` choices; the first of all is uniform over the rows.
pub open spec fn picks(m: Grid, k: nat, seed: u64) -> Picks
    decreases k,
{
    if k <= 1 {
        let draw = index_draw(seed, 0, m.height as usize);
        Picks { chosen: seq![draw.0], position: draw.1 }
    } else {
        picked_next(m, seed, picks(m, (k - 1) as nat, seed))
    }
}

/// Chooses `k` rows to start from: distinct ones, as long as the distances to weigh can
/// be told from their shares.
pub fn kmeans_pp_seed(m: &DoubleMatrix, k: usize, seed: u64) -> (r: Vec<Vec<Double>>)
    requires
        1 <= k <= m.height(),
    ensures
        contents(r@) == chosen_rows(m@, picks(m@, k as nat, seed).chosen),
        r.len() == k,
        forall|c: int|
            0 <= c < k ==> (#[trigger] picks(m@, k as nat, seed).chosen[c]) < m.height(),
        has_finite_cells(m@) && are_weighable(m@, k as nat, seed) ==> is_distinct(
            picks(m@, k as nat, seed).chosen,
        ),
{
    let (n, _) = m.shape();
    let (first, after) = draw_index(seed, 0, n);
    let mut position: u128 = after;
    let mut chosen: Vec<usize> = Vec::new();
    chosen.push(first);
    let mut centroids: Vec<Vec<Double>> = Vec::new();
    centroids.push(copy_row(m, first));
    proof {
        assert(chosen@ =~= picks(m@, 1, seed).chosen);
        assert(contents(centroids@) =~= chosen_rows(m@, chosen@));
    }
    while centroids.len() < k
        invariant
            1 <= k <= n,
            n == m.height(),
            1 <= centroids.len() <= k,
            centroids.len() == chosen.len(),
            contents(centroids@) == chosen_rows(m@, chosen@),
            forall|c: int| 0 <= c < chosen.len() ==> (#[trigger] chosen@[c]) < n,
            chosen@ == picks(m@, chosen@.len(), seed).chosen,
            position == picks(m@, chosen@.len(), seed).position,
            has_finite_cells(m@) && are_weighable(m@, chosen@.len(), seed) ==> is_distinct(chosen@),
        decreases k - centroids.len(),
    {
        let ghost points = chosen_rows(m@, chosen@);
        let ghost before = chosen@;
        let ghost centroids0 = centroids@;
        proof {
            assert forall|c: int| 0 <= c < points.len() implies (#[trigger] points[c]).len()
                == m.width() by {}
        }
        let w: Vec<Double> = weigh(m, centroids.as_slice());
        let total: Double = add_all(Double::minus_zero(), w.as_slice());
        let pick: usize;
        let ghost mut drawn: u64 = 0;
        if total.same(Double::zero()) {
            let free: Vec<usize> = list_unchosen(n, chosen.as_slice());
            proof {
                lemma_some_unchosen(n as nat, chosen@);
                lemma_unchosen_below(n as nat, chosen@);
            }
            let (index, after) = draw_index(seed, position, free.len());
            pick = free[index];
            position = after;
        } else {
            let (word, after) = draw_word(seed, position);
            pick = pick_by_weight(w.as_slice(), word);
            position = after;
            proof {
                drawn = word;
            }
        }
        chosen.push(pick);
        centroids.push(copy_row(m, pick));
        proof {
            assert(chosen@.len() - 1 == before.len());
            assert(picks(m@, chosen@.len(), seed) == picked_next(
                m@,
                seed,
                picks(m@, before.len(), seed),
            ));
            assert(chosen@ =~= before.push(pick));
            if has_finite_cells(m@) && are_weighable(m@, chosen@.len(), seed) {
                assert(is_weighable(m@, picks(m@, before.len(), seed).chosen));
                assert(are_weighable(m@, before.len(), seed));
                assert(!before.contains(pick)) by {
                    if total.equals(Double::zero_spec()) {
                        lemma_unchosen_below(n as nat, before);
                    } else {
                        lemma_pick_is_new(m@, before, drawn);
                    }
                }
                assert forall|a: int, b: int|
                    0 <= a < chosen@.len() && 0 <= b < chosen@.len() && a != b implies chosen@[a]
                    != chosen@[b] by {
                    if a == before.len() {
                        assert(before.contains(before[b]));
                    } else if b == before.len() {
                        assert(before.contains(before[a]));
                    }
                }
            }
            assert forall|c: int| 0 <= c < centroids.len() implies contents(centroids@)[c]
                == chosen_rows(m@, chosen@)[c] by {
                if c < before.len() {
                    assert(contents(centroids0)[c] == points[c]);
                }
            }
            assert(contents(centroids@) =~= chosen_rows(m@, chosen@));
        }
    }
    centroids
}

/// The most rounds of [`kmeans_lloyd`].
pub const MAX_ROUNDS: usize = 100;

/// Every row's closest point.
pub open spec fn assigned(m: Grid, points: Seq<Seq<Double>>) -> Seq<usize> {
    Seq::new(m.height, |j: int| nearest(m, j, points, points.len()).0 as usize)
}

/// Column `x` of those of the first `n` rows that have label `c`, added up from
/// zero.
pub open spec fn member_sum(
    m: Grid,
    labels: Seq<usize>,
    c: int,
    x: int,
    n: nat,
) -> Double
    decreases n,
{
    if n == 0 {
        Double::zero_spec()
    } else if labels[n - 1] == c {
        member_sum(m, labels, c, x, (n - 1) as nat).plus(m.at(n - 1, x))
    } else {
        member_sum(m, labels, c, x, (n - 1) as nat)
    }
}

/// How many of the first `n` labels are `c`.
pub open spec fn member_count(labels: Seq<usize>, c: int, n: nat) -> nat
    decreases n,
{
    if n == 0 {
        0
    } else if labels[n - 1] == c {
        member_count(labels, c, (n - 1) as nat) + 1
    } else {
        member_count(labels, c, (n - 1) as nat)
    }
}

/// The mean of the rows with label `c`, each sum times the inverse of the count; a
/// point without rows stays where it is.
pub open spec fn moved(
    m: Grid,
    labels: Seq<usize>,
    points: Seq<Seq<Double>>,
    c: int,
) -> Seq<Double> {
    let count = member_count(labels, c, m.height);
    if count == 0 {
        points[c]
    } else {
        Seq::new(
            m.width,
            |x: int|
                member_sum(m, labels, c, x, m.height).times(
                    Double::one_spec().over(Double::natural(count)),
                ),
        )
    }
}

/// Every point moved to the mean of its rows.
pub open spec fn all_moved(
    m: Grid,
    labels: Seq<usize>,
    points: Seq<Seq<Double>>,
) -> Seq<Seq<Double>> {
    Seq::new(points.len(), |c: int| moved(m, labels, points, c))
}

/// The labels after at most `rounds` rounds, each of which labels every row with
/// its closest point and then moves the points. It ends early with the round that
/// changes no label.
pub open spec fn settled(
    m: Grid,
    points: Seq<Seq<Double>>,
    labels: Seq<usize>,
    rounds: nat,
) -> Seq<usize>
    decreases rounds,
{
    let next = assigned(m, points);
    if rounds == 0 || next == labels {
        labels
    } else {
        settled(m, all_moved(m, next, points), next, (rounds - 1) as nat)
    }
}

/// No label yet.
pub open spec fn unlabelled(n: nat) -> Seq<usize> {
    Seq::new(n, |j: int| usize::MAX)
}

proof fn lemma_member_count_bounded(labels: Seq<usize>, c: int, n: nat)
    ensures
        member_count(labels, c, n) <= n,
    decreases n,
{
    if n > 0 {
        lemma_member_count_bounded(labels, c, (n - 1) as nat);
    }
}

/// Every row's closest point.
pub fn assign(m: &DoubleMatrix, points: &[Vec<Double>]) -> (r: Vec<usize>)
    requires
        fit(contents(points@), m@),
    ensures
        r@ == assigned(m@, contents(points@)),
        points.len() > 0 ==> forall|j: int| 0 <= j < r.len() ==> #[trigger] r@[j] < points.len(),
{
    let (n, _) = m.shape();
    let mut r: Vec<usize> = Vec::with_capacity(n);
    while r.len() < n
        invariant
            n == m.height(),
            r.len() <= n,
            fit(contents(points@), m@),
            points.len() > 0 ==> forall|j: int| 0 <= j < r.len() ==> #[trigger] r@[j] < points.len(),
            forall|j: int|
                0 <= j < r.len() ==> #[trigger] r@[j] == nearest(
                    m@,
                    j,
                    contents(points@),
                    points@.len(),
                ).0,
        decreases n - r.len(),
    {
        let (best, _) = nearest_point(m, r.len(), points);
        r.push(best);
    }
    proof {
        assert(r@ =~= assigned(m@, contents(points@)));
    }
    r
}

/// The rows with label `c`, added up and counted.
fn add_members(m: &DoubleMatrix, labels: &[usize], c: usize, x: usize) -> (r: Double)
    requires
        labels.len() == m.height(),
        x < m.width(),
    ensures
        r == member_sum(m@, labels@, c as int, x as int, m.height()),
{
    let mut total: Double = Double::zero();
    let mut j: usize = 0;
    while j < labels.len()
        invariant
            labels.len() == m.height(),
            x < m.width(),
            j <= labels.len(),
            total == member_sum(m@, labels@, c as int, x as int, j as nat),
        decreases labels.len() - j,
    {
        if labels[j] == c {
            total = total.add(m.get(j, x));
        }
        j = j + 1;
    }
    total
}

/// How many labels are `c`.
fn count_members(labels: &[usize], c: usize) -> (r: u64)
    requires
        labels.len() <= u64::MAX,
    ensures
        r == member_count(labels@, c as int, labels@.len()),
{
    let mut count: u64 = 0;
    let mut j: usize = 0;
    while j < labels.len()
        invariant
            j <= labels.len(),
            labels.len() <= u64::MAX,
            count == member_count(labels@, c as int, j as nat),
        decreases labels.len() - j,
    {
        proof {
            lemma_member_count_bounded(labels@, c as int, j as nat);
        }
        if labels[j] == c {
            count = count + 1;
        }
        j = j + 1;
    }
    count
}

/// Point `c` moved to the mean of its rows.
fn move_point(m: &DoubleMatrix, labels: &[usize], points: &[Vec<Double>], c: usize) -> (r: Vec<
    Double,
>)
    requires
        labels.len() == m.height(),
        labels.len() <= u64::MAX,
        c < points.len(),
        fit(contents(points@), m@),
    ensures
        r@ == moved(m@, labels@, contents(points@), c as int),
        r.len() == m.width(),
{
    let (_, width) = m.shape();
    let count: u64 = count_members(labels, c);
    let mut r: Vec<Double> = Vec::with_capacity(width);
    proof {
        assert(contents(points@)[c as int].len() == m.width());
    }
    if count == 0 {
        let old_point: &Vec<Double> = &points[c];
        while r.len() < width
            invariant
                width == old_point.len(),
                r.len() <= width,
                forall|x: int| 0 <= x < r.len() ==> r@[x] == #[trigger] old_point@[x],
            decreases width - r.len(),
        {
            r.push(old_point[r.len()]);
        }
        proof {
            assert(r@ =~= old_point@);
        }
        return r;
    }
    let inverse: Double = Double::one().div(Double::from_u64(count));
    while r.len() < width
        invariant
            labels.len() == m.height(),
            width == m.width(),
            r.len() <= width,
            forall|x: int|
                0 <= x < r.len() ==> #[trigger] r@[x] == member_sum(
                    m@,
                    labels@,
                    c as int,
                    x,
                    m.height(),
                ).times(inverse),
        decreases width - r.len(),
    {
        r.push(add_members(m, labels, c, r.len()).mul(inverse));
    }
    proof {
        assert(r@ =~= moved(m@, labels@, contents(points@), c as int));
    }
    r
}

/// Labels are the same.
fn same_labels(a: &[usize], b: &[usize]) -> (r: bool)
    requires
        a.len() == b.len(),
    ensures
        r == (a@ == b@),
{
    let mut j: usize = 0;
    while j < a.len()
        invariant
            j <= a.len(),
            a.len() == b.len(),
            forall|i: int| 0 <= i < j ==> #[trigger] a@[i] == b@[i],
        decreases a.len() - j,
    {
        if a[j] != b[j] {
            proof {
                assert(a@[j as int] != b@[j as int]);
            }
            return false;
        }
        j = j + 1;
    }
    proof {
        assert(a@ =~= b@);
    }
    true
}

/// Refines points until no label changes, for at most [`MAX_ROUNDS`] rounds, and
/// returns the label of each row.
pub fn kmeans_lloyd(m: &DoubleMatrix, initial_centroids: Vec<Vec<Double>>) -> (r: Vec<usize>)
    requires
        initial_centroids.len() > 0,
        fit(contents(initial_centroids@), m@),
        m.height() <= u64::MAX,
    ensures
        r@ == settled(
            m@,
            contents(initial_centroids@),
            unlabelled(m.height()),
            MAX_ROUNDS as nat,
        ),
        r.len() == m.height(),
        forall|j: int| 0 <= j < r.len() ==> #[trigger] r@[j] < initial_centroids.len(),
{
    let ghost initial = contents(initial_centroids@);
    let (n, _) = m.shape();
    let k: usize = initial_centroids.len();
    let mut centroids: Vec<Vec<Double>> = initial_centroids;
    let mut labels: Vec<usize> = Vec::with_capacity(n);
    while labels.len() < n
        invariant
            labels.len() <= n,
            forall|j: int| 0 <= j < labels.len() ==> #[trigger] labels@[j] == usize::MAX,
        decreases n - labels.len(),
    {
        labels.push(usize::MAX);
    }
    proof {
        assert(labels@ =~= unlabelled(n as nat));
    }
    let mut round: usize = 0;
    while round < MAX_ROUNDS
        invariant
            n == m.height(),
            n <= u64::MAX,
            0 < k,
            k == centroids.len(),
            k == initial_centroids.len(),
            initial == contents(initial_centroids@),
            fit(contents(centroids@), m@),
            labels.len() == n,
            round <= MAX_ROUNDS,
            round > 0 ==> forall|j: int| 0 <= j < labels.len() ==> #[trigger] labels@[j] < k,
            settled(m@, initial, unlabelled(n as nat), MAX_ROUNDS as nat) == settled(
                m@,
                contents(centroids@),
                labels@,
                (MAX_ROUNDS - round) as nat,
            ),
        decreases MAX_ROUNDS - round,
    {
        let next: Vec<usize> = assign(m, centroids.as_slice());
        if same_labels(next.as_slice(), labels.as_slice()) {
            return labels;
        }
        let mut moved_points: Vec<Vec<Double>> = Vec::with_capacity(k);
        while moved_points.len() < k
            invariant
                n == m.height(),
                n <= u64::MAX,
                k == centroids.len(),
                fit(contents(centroids@), m@),
                next.len() == n,
                moved_points.len() <= k,
                forall|c: int|
                    0 <= c < moved_points.len() ==> (#[trigger] moved_points@[c])@ == moved(
                        m@,
                        next@,
                        contents(centroids@),
                        c,
                    ) && moved_points@[c]@.len() == m.width(),
            decreases k - moved_points.len(),
        {
            let point: Vec<Double> = move_point(
                m,
                next.as_slice(),
                centroids.as_slice(),
                moved_points.len(),
            );
            moved_points.push(point);
        }
        proof {
            assert(contents(moved_points@) =~= all_moved(m@, next@, contents(centroids@)));
            assert forall|c: int| 0 <= c < k implies (#[trigger] contents(moved_points@)[c]).len()
                == m.width() by {
                assert(moved_points@[c]@.len() == m.width());
            }
        }
        centroids = moved_points;
        labels = next;
        round = round + 1;
    }
    labels
}

/// The closest point found is the closest: no point before it is as close, and none
/// after it is closer.
pub proof fn law_nearest_is_closest(m: Grid, j: int, points: Seq<Seq<Double>>, k: nat)
    requires
        k <= points.len(),
    ensures
        ({
            let r = nearest(m, j, points, k);
            &&& forall|c: int|
                0 <= c < k ==> !(#[trigger] square_distance(m, j, points[c])).below(r.1)
            &&& r.1 != Double::infinity_spec() ==> {
                &&& 0 <= r.0 < k
                &&& r.1 == square_distance(m, j, points[r.0])
                &&& forall|c: int|
                    0 <= c < r.0 ==> !(#[trigger] square_distance(m, j, points[c])).at_most(r.1)
            }
        }),
    decreases k,
{
    if k > 0 {
        law_nearest_is_closest(m, j, points, (k - 1) as nat);
        let r = nearest(m, j, points, (k - 1) as nat);
        let d = square_distance(m, j, points[k - 1]);
        if d.below(r.1) {
            assert forall|c: int| 0 <= c < k - 1 implies !(#[trigger] square_distance(
                m,
                j,
                points[c],
            )).at_most(d) by {
                assert(!square_distance(m, j, points[c]).below(r.1));
            }
        }
    }
}

/// Points and labels after exactly `n` rounds.
pub open spec fn after_rounds(
    m: Grid,
    points: Seq<Seq<Double>>,
    labels: Seq<usize>,
    n: nat,
) -> (Seq<Seq<Double>>, Seq<usize>)
    decreases n,
{
    if n == 0 {
        (points, labels)
    } else {
        let next = assigned(m, points);
        after_rounds(m, all_moved(m, next, points), next, (n - 1) as nat)
    }
}

/// Refinement ends with the labels of some round `n`, which give every row the closest
/// of the points before that round; the points after it are those moved under these
/// very labels. Where it ends before the last round, the labels have settled: they give
/// every row the closest of the moved points too. No earlier round settled.
pub proof fn law_settled_labels_are_nearest(
    m: Grid,
    points: Seq<Seq<Double>>,
    labels: Seq<usize>,
    rounds: nat,
) -> (n: nat)
    ensures
        ({
            let r = settled(m, points, labels, rounds);
            &&& n <= rounds
            &&& r == after_rounds(m, points, labels, n).1
            &&& n > 0 ==> {
                let before = after_rounds(m, points, labels, (n - 1) as nat).0;
                &&& r == assigned(m, before)
                &&& after_rounds(m, points, labels, n).0 == all_moved(m, r, before)
            }
            &&& n < rounds ==> r == assigned(m, after_rounds(m, points, labels, n).0)
            &&& forall|i: nat|
                i < n ==> assigned(m, after_rounds(m, points, labels, i).0)
                    != (#[trigger] after_rounds(m, points, labels, i)).1
        }),
    decreases rounds,
{
    let next = assigned(m, points);
    if rounds == 0 || next == labels {
        0
    } else {
        let moved = all_moved(m, next, points);
        let k = law_settled_labels_are_nearest(m, moved, next, (rounds - 1) as nat);
        let n = k + 1;
        assert(after_rounds(m, points, labels, n) == after_rounds(m, moved, next, k));
        if k == 0 {
            assert(after_rounds(m, points, labels, 0) == (points, labels));
            assert(after_rounds(m, moved, next, 0) == (moved, next));
        } else {
            assert(after_rounds(m, points, labels, k) == after_rounds(
                m,
                moved,
                next,
                (k - 1) as nat,
            ));
        }
        assert forall|i: nat| i < n implies assigned(m, after_rounds(m, points, labels, i).0)
            != (#[trigger] after_rounds(m, points, labels, i)).1 by {
            if i > 0 {
                assert(after_rounds(m, points, labels, i) == after_rounds(
                    m,
                    moved,
                    next,
                    (i - 1) as nat,
                ));
            }
        }
        n
    }
}

} // verus!
