//! Dendrograms and their flat clusters.

use vstd::prelude::*;
use crate::cluster::hungarian::sums::lemma_selection_is_full;
use crate::cluster::hungarian::sums::{is_selection, lemma_sum_update, sum};
use crate::float::Double;

verus! {

/// One merge of a dendrogram. Clusters below the number of observations are the
/// observations; the `i`-th merge makes cluster `n + i`.
#[derive(Clone, Copy, Debug, PartialEq, Eq, Structural)]
pub struct Step {
    pub cluster1: usize,
    pub cluster2: usize,
    pub dissimilarity: Double,
}

/// The merges of `n` observations.
pub struct Tree {
    pub steps: Seq<Step>,
    pub n: nat,
}

impl Tree {
    pub open spec fn is_inner(self, node: int) -> bool {
        self.n <= node < self.n + self.steps.len()
    }

    pub open spec fn left(self, node: int) -> int {
        self.steps[node - self.n].cluster1 as int
    }

    pub open spec fn right(self, node: int) -> int {
        self.steps[node - self.n].cluster2 as int
    }

    /// The node is a merge of two earlier nodes.
    pub open spec fn splits(self, node: int) -> bool {
        self.is_inner(node) && 0 <= self.left(node) < node && 0 <= self.right(node) < node
    }

    /// Every merge joins two earlier nodes, none of which is joined twice, until
    /// one is left.
    pub open spec fn is_dendrogram(self) -> bool {
        &&& self.n >= 1
        &&& self.steps.len() == self.n - 1
        &&& forall|node: int| #[trigger]
            self.is_inner(node) ==> self.splits(node) && self.left(node) != self.right(node)
        &&& forall|a: int, b: int| #[trigger]
            self.is_inner(a) && #[trigger] self.is_inner(b) && a != b ==> {
                &&& self.left(a) != self.left(b)
                &&& self.left(a) != self.right(b)
                &&& self.right(a) != self.right(b)
            }
    }

    /// The last node: all observations.
    pub open spec fn root(self) -> int {
        self.n + self.steps.len() - 1
    }

    /// The largest dissimilarity of the merges in a subtree.
    pub open spec fn height(self, node: int) -> Double
        decreases node,
    {
        if self.splits(node) {
            self.steps[node - self.n].dissimilarity.larger(self.height(self.left(node))).larger(
                self.height(self.right(node)),
            )
        } else {
            Double::zero_spec()
        }
    }

    /// Node `x` is in the subtree of `node`.
    pub open spec fn under(self, x: int, node: int) -> bool
        decreases node,
    {
        x == node || (self.splits(node) && (self.under(x, self.left(node)) || self.under(
            x,
            self.right(node),
        )))
    }

    /// The subtree is one flat cluster: a single observation, or no merge above
    /// the threshold.
    pub open spec fn is_flat(self, node: int, threshold: Double) -> bool {
        !self.splits(node) || self.height(node).at_most(threshold)
    }

    /// The number of flat clusters of a subtree.
    pub open spec fn parts(self, node: int, threshold: Double) -> nat
        decreases node,
    {
        if self.is_flat(node, threshold) {
            1
        } else {
            self.parts(self.left(node), threshold) + self.parts(self.right(node), threshold)
        }
    }

    /// The flat cluster of observation `x` in a subtree whose clusters are
    /// numbered from `first` on, left to right.
    pub open spec fn label(self, x: int, node: int, first: nat, threshold: Double) -> nat
        decreases node,
    {
        if self.is_flat(node, threshold) {
            first
        } else if self.under(x, self.left(node)) {
            self.label(x, self.left(node), first, threshold)
        } else {
            self.label(
                x,
                self.right(node),
                first + self.parts(self.left(node), threshold),
                threshold,
            )
        }
    }

    /// The number of observations of a subtree.
    pub open spec fn leaves(self, node: int) -> nat
        decreases node,
    {
        if self.splits(node) {
            self.leaves(self.left(node)) + self.leaves(self.right(node))
        } else {
            1
        }
    }
}

/// A subtree of a subtree is a subtree.
pub proof fn lemma_under_transitive(t: Tree, x: int, a: int, b: int)
    requires
        t.under(x, a),
        t.under(a, b),
    ensures
        t.under(x, b),
    decreases b,
{
    if a != b {
        if t.under(a, t.left(b)) {
            lemma_under_transitive(t, x, a, t.left(b));
        } else {
            lemma_under_transitive(t, x, a, t.right(b));
        }
    }
}

pub proof fn lemma_under_order(t: Tree, x: int, node: int)
    requires
        t.under(x, node),
    ensures
        x <= node,
    decreases node,
{
    if x != node {
        if t.under(x, t.left(node)) {
            lemma_under_order(t, x, t.left(node));
        } else {
            lemma_under_order(t, x, t.right(node));
        }
    }
}

/// The parent of a node inside a subtree.
proof fn lemma_parent_under(t: Tree, x: int, node: int) -> (p: int)
    requires
        t.under(x, node),
        x != node,
    ensures
        t.splits(p),
        t.left(p) == x || t.right(p) == x,
        t.under(p, node),
    decreases node,
{
    if t.left(node) == x || t.right(node) == x {
        node
    } else if t.under(x, t.left(node)) {
        let p = lemma_parent_under(t, x, t.left(node));
        p
    } else {
        let p = lemma_parent_under(t, x, t.right(node));
        p
    }
}

/// Two subtrees that share a node are nested.
proof fn lemma_nested(t: Tree, x: int, a: int, b: int)
    requires
        t.is_dendrogram(),
        t.under(x, a),
        t.under(x, b),
        a <= b,
    ensures
        t.under(a, b),
    decreases b - x,
{
    lemma_under_order(t, x, a);
    if x != a && a != b {
        let p = lemma_parent_under(t, x, a);
        let q = lemma_parent_under(t, x, b);
        assert(t.is_inner(p) && t.is_inner(q));
        assert(p == q);
        lemma_under_order(t, p, b);
        lemma_nested(t, p, a, b);
    }
}

/// The two children of a merge share nothing.
pub proof fn lemma_siblings_apart(t: Tree, x: int, node: int)
    requires
        t.is_dendrogram(),
        t.splits(node),
    ensures
        !(t.under(x, t.left(node)) && t.under(x, t.right(node))),
{
    let l = t.left(node);
    let r = t.right(node);
    assert(t.is_inner(node));
    if t.under(x, l) && t.under(x, r) {
        let (a, b) = if l < r { (l, r) } else { (r, l) };
        lemma_nested(t, x, a, b);
        let p = lemma_parent_under(t, a, b);
        assert(t.is_inner(p));
        assert(p == node);
        lemma_under_order(t, node, b);
    }
}

/// Every node is in the tree.
pub proof fn lemma_all_under_root(t: Tree, x: int)
    requires
        t.is_dendrogram(),
        0 <= x <= t.root(),
    ensures
        t.under(x, t.root()),
    decreases t.root() - x,
{
    if x < t.root() {
        let p = lemma_parent(t, x);
        lemma_all_under_root(t, p);
        assert(t.under(x, p)) by {
            assert(t.under(x, x));
        }
        lemma_under_transitive(t, x, p, t.root());
    }
}

/// Every node but the last has a parent.
proof fn lemma_parent(t: Tree, x: int) -> (p: int)
    requires
        t.is_dendrogram(),
        0 <= x < t.root(),
    ensures
        t.splits(p),
        x < p <= t.root(),
        t.left(p) == x || t.right(p) == x,
{
    let m = t.steps.len() as int;
    let children = Seq::new(
        (2 * m) as nat,
        |k: int| if k % 2 == 0 { t.left(t.n + k / 2) } else { t.right(t.n + k / 2) },
    );
    assert(is_selection(children, 2 * m)) by {
        assert forall|k: int| 0 <= k < children.len() implies 0 <= #[trigger] children[k] < 2 * m by {
            assert(t.is_inner(t.n + k / 2));
        }
        assert forall|a: int, b: int|
            0 <= a < children.len() && 0 <= b < children.len() && a != b implies children[a]
            != children[b] by {
            assert(t.is_inner(t.n + a / 2));
            assert(t.is_inner(t.n + b / 2));
        }
    }
    lemma_selection_is_full(children, 2 * m);
    assert(children.contains(x));
    let k = choose|k: int| 0 <= k < children.len() && children[k] == x;
    let p = t.n + k / 2;
    assert(t.is_inner(p));
    p
}

pub proof fn lemma_parts_bounded(t: Tree, node: int, threshold: Double)
    ensures
        1 <= t.parts(node, threshold) <= t.leaves(node),
    decreases node,
{
    if t.splits(node) {
        lemma_parts_bounded(t, t.left(node), threshold);
        lemma_parts_bounded(t, t.right(node), threshold);
    }
}

/// The tree has no more leaves than there are observations.
pub proof fn lemma_leaves(t: Tree)
    requires
        t.is_dendrogram(),
    ensures
        t.leaves(t.root()) <= t.n,
{
    let m = t.steps.len() as int;
    let w = lemma_forest(t, m);
    assert(!is_joined(t, t.root(), m)) by {
        assert forall|p: int| t.n <= p < t.n + m implies !#[trigger] joins(t, p, t.root()) by {
            assert(t.is_inner(p));
        }
    }
    assert(w[t.root()] == t.leaves(t.root()));
    lemma_entry_at_most_sum(w, t.root());
}

/// Node `x` has been joined by one of the first `i` merges.
spec fn is_joined(t: Tree, x: int, i: int) -> bool {
    exists|p: int| t.n <= p < t.n + i && #[trigger] joins(t, p, x)
}

/// Merge `p` joins node `x`.
spec fn joins(t: Tree, p: int, x: int) -> bool {
    t.left(p) == x || t.right(p) == x
}

/// The leaves of the trees left after `i` merges: `n` in all.
proof fn lemma_forest(t: Tree, i: int) -> (w: Seq<int>)
    requires
        t.is_dendrogram(),
        0 <= i <= t.steps.len(),
    ensures
        w.len() == t.n + t.steps.len(),
        sum(w) == t.n,
        forall|x: int|
            0 <= x < w.len() ==> #[trigger] w[x] == (if x < t.n + i && !is_joined(t, x, i) {
                t.leaves(x) as int
            } else {
                0
            }),
    decreases i,
{
    let size = (t.n + t.steps.len()) as nat;
    if i == 0 {
        let w = Seq::new(size, |x: int| if x < t.n { 1int } else { 0 });
        lemma_sum_ones(w, t.n);
        w
    } else {
        let before = lemma_forest(t, i - 1);
        let node = t.n + i - 1;
        assert(t.is_inner(node));
        let l = t.left(node);
        let r = t.right(node);
        assert(!is_joined(t, l, i - 1) && !is_joined(t, r, i - 1) && !is_joined(t, node, i - 1)) by {
            assert forall|p: int| t.n <= p < t.n + (i - 1) implies !#[trigger] joins(t, p, l) by {
                assert(t.is_inner(p));
            }
            assert forall|p: int| t.n <= p < t.n + (i - 1) implies !#[trigger] joins(t, p, r) by {
                assert(t.is_inner(p));
            }
            assert forall|p: int| t.n <= p < t.n + (i - 1) implies !#[trigger] joins(t, p, node) by {
                assert(t.is_inner(p));
            }
        }
        let w1 = before.update(l, 0);
        let w2 = w1.update(r, 0);
        let w = w2.update(node, t.leaves(node) as int);
        lemma_sum_update(before, l, 0);
        lemma_sum_update(w1, r, 0);
        lemma_sum_update(w2, node, t.leaves(node) as int);
        assert(before[node] == 0);
        assert(before[l] == t.leaves(l));
        assert(before[r] == t.leaves(r));
        assert forall|x: int| 0 <= x < w.len() implies #[trigger] w[x] == (if x < t.n + i
            && !is_joined(t, x, i) {
            t.leaves(x) as int
        } else {
            0
        }) by {
            assert(is_joined(t, x, i) <==> (is_joined(t, x, i - 1) || l == x || r == x)) by {
                if is_joined(t, x, i) && !(l == x || r == x) {
                    let p = choose|p: int| t.n <= p < t.n + i && #[trigger] joins(t, p, x);
                    assert(p != node);
                    assert(joins(t, p, x) && t.n <= p < t.n + (i - 1));
                }
                if l == x || r == x {
                    assert(joins(t, node, x));
                }
            }
            assert(before[x] == (if x < t.n + i - 1 && !is_joined(t, x, i - 1) {
                t.leaves(x) as int
            } else {
                0
            }));
        }
        w
    }
}

proof fn lemma_sum_ones(w: Seq<int>, n: nat)
    requires
        w.len() >= n,
        forall|x: int| 0 <= x < w.len() ==> #[trigger] w[x] == (if x < n { 1int } else { 0 }),
    ensures
        sum(w) == n,
    decreases w.len(),
{
    if w.len() > 0 {
        let rest = w.drop_last();
        assert(forall|x: int| 0 <= x < rest.len() ==> rest[x] == #[trigger] w[x]);
        assert(w.last() == w[w.len() - 1]);
        if w.len() > n {
            lemma_sum_ones(rest, n);
        } else {
            lemma_sum_ones(rest, (n - 1) as nat);
        }
    }
}

proof fn lemma_entry_at_most_sum(w: Seq<int>, x: int)
    requires
        0 <= x < w.len(),
        forall|k: int| 0 <= k < w.len() ==> #[trigger] w[k] >= 0,
    ensures
        w[x] <= sum(w),
    decreases w.len(),
{
    let rest = w.drop_last();
    assert(forall|k: int| 0 <= k < rest.len() ==> rest[k] == #[trigger] w[k]);
    assert(w.last() == w[w.len() - 1]);
    if x == w.len() - 1 {
        lemma_sum_nonnegative(rest);
    } else {
        lemma_entry_at_most_sum(rest, x);
    }
}

proof fn lemma_sum_nonnegative(w: Seq<int>)
    requires
        forall|k: int| 0 <= k < w.len() ==> #[trigger] w[k] >= 0,
    ensures
        sum(w) >= 0,
    decreases w.len(),
{
    if w.len() > 0 {
        let rest = w.drop_last();
        assert(forall|k: int| 0 <= k < rest.len() ==> rest[k] == #[trigger] w[k]);
        assert(w.last() == w[w.len() - 1]);
        lemma_sum_nonnegative(rest);
    }
}

/// Labels stay in the range of their subtree.
pub proof fn lemma_label_range(t: Tree, x: int, node: int, first: nat, threshold: Double)
    requires
        t.under(x, node),
    ensures
        first <= t.label(x, node, first, threshold) < first + t.parts(node, threshold),
    decreases node,
{
    if !t.is_flat(node, threshold) {
        lemma_parts_bounded(t, t.left(node), threshold);
        lemma_parts_bounded(t, t.right(node), threshold);
        if t.under(x, t.left(node)) {
            lemma_label_range(t, x, t.left(node), first, threshold);
        } else if x != node {
            lemma_label_range(
                t,
                x,
                t.right(node),
                first + t.parts(t.left(node), threshold),
                threshold,
            );
        } else {
            lemma_label_outside(
                t,
                x,
                t.right(node),
                first + t.parts(t.left(node), threshold),
                threshold,
            );
        }
    }
}

/// So does the label of a node outside the subtree.
proof fn lemma_label_outside(t: Tree, x: int, node: int, first: nat, threshold: Double)
    ensures
        first <= t.label(x, node, first, threshold) < first + t.parts(node, threshold),
    decreases node,
{
    if !t.is_flat(node, threshold) {
        lemma_parts_bounded(t, t.left(node), threshold);
        lemma_parts_bounded(t, t.right(node), threshold);
        lemma_label_outside(t, x, t.left(node), first, threshold);
        lemma_label_outside(
            t,
            x,
            t.right(node),
            first + t.parts(t.left(node), threshold),
            threshold,
        );
    }
}

/// Two observations get the same label exactly if some subtree without a merge
/// above the threshold holds both.
pub proof fn law_same_label_iff_close(t: Tree, threshold: Double, x: int, y: int)
    requires
        t.is_dendrogram(),
        0 <= x < t.n,
        0 <= y < t.n,
    ensures
        t.label(x, t.root(), 0, threshold) == t.label(y, t.root(), 0, threshold) <==> exists|m: int|
            #[trigger] t.is_flat(m, threshold) && t.under(x, m) && t.under(y, m),
{
    lemma_all_under_root(t, x);
    lemma_all_under_root(t, y);
    if t.label(x, t.root(), 0, threshold) == t.label(y, t.root(), 0, threshold) {
        lemma_same_label_close(t, threshold, x, y, t.root(), 0);
    }
    if exists|m: int| #[trigger] t.is_flat(m, threshold) && t.under(x, m) && t.under(y, m) {
        let m = choose|m: int| #[trigger] t.is_flat(m, threshold) && t.under(x, m) && t.under(y, m);
        lemma_nested_pair(t, x, m);
        lemma_close_same_label(t, threshold, x, y, m, t.root(), 0);
    }
}

/// A node with an observation under it is in the tree.
proof fn lemma_nested_pair(t: Tree, x: int, m: int)
    requires
        t.is_dendrogram(),
        0 <= x < t.n,
        t.under(x, m),
    ensures
        t.under(m, t.root()),
{
    lemma_under_order(t, x, m);
    if x != m {
        assert(t.splits(m));
    }
    lemma_all_under_root(t, m);
}

proof fn lemma_same_label_close(t: Tree, threshold: Double, x: int, y: int, node: int, first: nat)
    requires
        t.is_dendrogram(),
        0 <= x < t.n,
        0 <= y < t.n,
        t.under(x, node),
        t.under(y, node),
        t.label(x, node, first, threshold) == t.label(y, node, first, threshold),
    ensures
        exists|m: int| #[trigger] t.is_flat(m, threshold) && t.under(x, m) && t.under(y, m),
    decreases node,
{
    if t.is_flat(node, threshold) {
        assert(t.is_flat(node, threshold));
    } else {
        let l = t.left(node);
        let r = t.right(node);
        let next = first + t.parts(l, threshold);
        assert(t.is_inner(node));
        if t.under(x, l) && t.under(y, l) {
            lemma_same_label_close(t, threshold, x, y, l, first);
        } else if !t.under(x, l) && !t.under(y, l) {
            lemma_same_label_close(t, threshold, x, y, r, next);
        } else if t.under(x, l) {
            lemma_label_range(t, x, l, first, threshold);
            lemma_label_range(t, y, r, next, threshold);
        } else {
            lemma_label_range(t, y, l, first, threshold);
            lemma_label_range(t, x, r, next, threshold);
        }
    }
}

proof fn lemma_close_same_label(
    t: Tree,
    threshold: Double,
    x: int,
    y: int,
    m: int,
    node: int,
    first: nat,
)
    requires
        t.is_dendrogram(),
        t.is_flat(m, threshold),
        t.under(x, m),
        t.under(y, m),
        t.under(m, node),
    ensures
        t.label(x, node, first, threshold) == t.label(y, node, first, threshold),
    decreases node,
{
    if !t.is_flat(node, threshold) {
        let l = t.left(node);
        let r = t.right(node);
        if t.under(m, l) {
            lemma_under_transitive(t, x, m, l);
            lemma_under_transitive(t, y, m, l);
            lemma_close_same_label(t, threshold, x, y, m, l, first);
        } else {
            lemma_under_transitive(t, x, m, r);
            lemma_under_transitive(t, y, m, r);
            lemma_siblings_apart(t, x, node);
            lemma_siblings_apart(t, y, node);
            lemma_close_same_label(
                t,
                threshold,
                x,
                y,
                m,
                r,
                first + t.parts(l, threshold),
            );
        }
    }
}

/// The labels are contiguous: every number below the count of flat clusters is
/// some observation's label.
pub proof fn law_labels_are_contiguous(t: Tree, threshold: Double, k: nat) -> (x: int)
    requires
        t.is_dendrogram(),
        k < t.parts(t.root(), threshold),
    ensures
        0 <= x < t.n,
        t.label(x, t.root(), 0, threshold) == k,
{
    lemma_label_used(t, threshold, t.root(), 0, k)
}

proof fn lemma_label_used(t: Tree, threshold: Double, node: int, first: nat, k: nat) -> (x: int)
    requires
        t.is_dendrogram(),
        0 <= node <= t.root(),
        first <= k < first + t.parts(node, threshold),
    ensures
        0 <= x < t.n,
        t.under(x, node),
        t.label(x, node, first, threshold) == k,
    decreases node,
{
    if t.is_flat(node, threshold) {
        lemma_some_leaf(t, node)
    } else {
        let l = t.left(node);
        let r = t.right(node);
        let next = first + t.parts(l, threshold);
        if k < next {
            let x = lemma_label_used(t, threshold, l, first, k);
            x
        } else {
            let x = lemma_label_used(t, threshold, r, next, k);
            lemma_siblings_apart(t, x, node);
            x
        }
    }
}

proof fn lemma_some_leaf(t: Tree, node: int) -> (x: int)
    requires
        t.is_dendrogram(),
        0 <= node <= t.root(),
    ensures
        0 <= x < t.n,
        t.under(x, node),
    decreases node,
{
    if node < t.n {
        node
    } else {
        assert(t.is_inner(node));
        let x = lemma_some_leaf(t, t.left(node));
        x
    }
}

/// One of the first `k` merges takes in node `x`.
spec fn is_taken(steps: Seq<Step>, k: int, x: int) -> bool {
    exists|i: int| 0 <= i < k && #[trigger] takes(steps[i], x)
}

/// The merge takes in node `x`.
spec fn takes(step: Step, x: int) -> bool {
    step.cluster1 == x || step.cluster2 == x
}

/// Whether merges of `n` observations make a dendrogram.
pub fn check_dendrogram(steps: &[Step], n: usize) -> (r: bool)
    requires
        2 * n <= usize::MAX,
    ensures
        r == (Tree { steps: steps@, n: n as nat }).is_dendrogram(),
{
    let ghost t = Tree { steps: steps@, n: n as nat };
    if n == 0 || steps.len() != n - 1 {
        return false;
    }
    let mut taken: Vec<bool> = vec![false; n + steps.len()];
    let mut i: usize = 0;
    while i < steps.len()
        invariant
            2 * n <= usize::MAX,
            steps.len() == n - 1,
            i <= steps.len(),
            t == (Tree { steps: steps@, n: n as nat }),
            taken.len() == n + steps.len(),
            forall|x: int|
                0 <= x < taken.len() ==> #[trigger] taken@[x] == is_taken(steps@, i as int, x),
            forall|node: int|
                node < n + i && #[trigger] t.is_inner(node) ==> t.splits(node) && t.left(node)
                    != t.right(node),
            forall|a: int, b: int|
                a < n + i && b < n + i && #[trigger] t.is_inner(a) && #[trigger] t.is_inner(b) && a
                    != b ==> {
                    &&& t.left(a) != t.left(b)
                    &&& t.left(a) != t.right(b)
                    &&& t.right(a) != t.right(b)
                },
        decreases steps.len() - i,
    {
        let first: usize = steps[i].cluster1;
        let second: usize = steps[i].cluster2;
        let ghost node = n + i;
        proof {
            assert(t.is_inner(node));
            assert(t.left(node) == first && t.right(node) == second);
        }
        if first >= n + i || second >= n + i || first == second {
            return false;
        }
        if taken[first] || taken[second] {
            proof {
                let x: int = if taken@[first as int] { first as int } else { second as int };
                assert(is_taken(steps@, i as int, x));
                let k = choose|k: int| 0 <= k < i && #[trigger] takes(steps@[k], x);
                assert(t.is_inner(n + k));
                assert(t.left(n + k) == x || t.right(n + k) == x);
            }
            return false;
        }
        let ghost before = taken@;
        taken[first] = true;
        taken[second] = true;
        proof {
            assert forall|x: int| 0 <= x < taken.len() implies #[trigger] taken@[x] == is_taken(
                steps@,
                i + 1,
                x,
            ) by {
                assert(before[x] == is_taken(steps@, i as int, x));
                if is_taken(steps@, i + 1, x) {
                    let k = choose|k: int| 0 <= k < i + 1 && #[trigger] takes(steps@[k], x);
                    if k < i {
                        assert(is_taken(steps@, i as int, x));
                    }
                }
                if before[x] {
                    let k = choose|k: int| 0 <= k < i && #[trigger] takes(steps@[k], x);
                    assert(is_taken(steps@, i + 1, x));
                }
                if x == first || x == second {
                    assert(takes(steps@[i as int], x));
                    assert(is_taken(steps@, i + 1, x));
                }
            }
            assert forall|a: int, b: int|
                a < n + i + 1 && b < n + i + 1 && #[trigger] t.is_inner(a) && #[trigger] t.is_inner(
                    b,
                ) && a != b implies {
                &&& t.left(a) != t.left(b)
                &&& t.left(a) != t.right(b)
                &&& t.right(a) != t.right(b)
            } by {
                if a == node || b == node {
                    let other = if a == node { b } else { a };
                    let k = other - n;
                    assert(0 <= k < i);
                    assert(before[first as int] == is_taken(steps@, i as int, first as int));
                    assert(before[second as int] == is_taken(steps@, i as int, second as int));
                    assert(takes(steps@[k], t.left(other)));
                    assert(takes(steps@[k], t.right(other)));
                }
            }
        }
        i = i + 1;
    }
    proof {
        assert forall|node: int| #[trigger] t.is_inner(node) implies node < n + i by {}
    }
    true
}

} // verus!
