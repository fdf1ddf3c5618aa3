//! Normalisation, linkage and flat clusters.

use vstd::prelude::*;
use crate::aggregate::count::{all_finite, is_positive, positive};
use crate::cluster::ahc::error::{Error, NonFiniteField, ShapeError};
use crate::cluster::ahc::tree::{lemma_all_under_root, lemma_leaves, lemma_parts_bounded, lemma_siblings_apart, lemma_under_transitive, Step, Tree};
use crate::float::sums::added;
use crate::float::Double;

verus! {

/// The number of nodes of a subtree.
spec fn nodes(t: Tree, node: int) -> nat
    decreases node,
{
    if t.splits(node) {
        1 + nodes(t, t.left(node)) + nodes(t, t.right(node))
    } else {
        1
    }
}

/// The number of nodes of all subtrees on a stack.
spec fn stack_nodes(t: Tree, stack: Seq<usize>) -> nat
    decreases stack.len(),
{
    if stack.len() == 0 {
        0
    } else {
        stack_nodes(t, stack.drop_last()) + nodes(t, stack.last() as int)
    }
}

proof fn lemma_stack_nodes_push(t: Tree, stack: Seq<usize>, node: usize)
    ensures
        stack_nodes(t, stack.push(node)) == stack_nodes(t, stack) + nodes(t, node as int),
        nodes(t, node as int) >= 1,
{
    assert(stack.push(node).drop_last() =~= stack);
}

/// Some subtree on the stack holds `x`.
spec fn is_pending(t: Tree, stack: Seq<usize>, x: int) -> bool {
    exists|k: int| 0 <= k < stack.len() && #[trigger] t.under(x, stack[k] as int)
}

/// Gives every observation under `node` the label.
fn paint_leaves(node: usize, n: usize, steps: &[Step], label: usize, labels: &mut Vec<usize>)
    requires
        ({
            let t = Tree { steps: steps@, n: n as nat };
            t.is_dendrogram() && node <= t.root()
        }),
        old(labels).len() == n,
        n + steps.len() <= usize::MAX,
    ensures
        final(labels).len() == n,
        forall|x: int|
            0 <= x < n ==> #[trigger] final(labels)@[x] == if (Tree {
                steps: steps@,
                n: n as nat,
            }).under(x, node as int) { label } else { old(labels)@[x] },
{
    let ghost t = Tree { steps: steps@, n: n as nat };
    let ghost labels0 = labels@;
    let mut stack: Vec<usize> = Vec::new();
    stack.push(node);
    proof {
        assert forall|x: int| 0 <= x < n && t.under(x, node as int) implies is_pending(t, stack@, x) by {
            assert(t.under(x, stack@[0] as int));
        }
        assert(t.under(node as int, node as int));
    }
    loop
        invariant
            t == (Tree { steps: steps@, n: n as nat }),
            t.is_dendrogram(),
            n + steps.len() <= usize::MAX,
            labels.len() == n,
            forall|k: int|
                0 <= k < stack.len() ==> t.under(#[trigger] stack@[k] as int, node as int)
                    && stack@[k] <= t.root(),
            forall|x: int|
                0 <= x < n ==> #[trigger] labels@[x] == label || labels@[x] == labels0[x],
            forall|x: int|
                0 <= x < n && !t.under(x, node as int) ==> #[trigger] labels@[x] == labels0[x],
            forall|x: int|
                0 <= x < n && t.under(x, node as int) && !is_pending(t, stack@, x)
                    ==> #[trigger] labels@[x] == label,
        ensures
            labels.len() == n,
            forall|x: int|
                0 <= x < n ==> #[trigger] labels@[x] == if t.under(x, node as int) {
                    label
                } else {
                    labels0[x]
                },
        decreases stack_nodes(t, stack@),
    {
        let ghost stack0 = stack@;
        match stack.pop() {
            None => {
                break;
            },
            Some(cur) => {
                proof {
                    assert(stack@ =~= stack0.drop_last());
                    assert(cur == stack0.last());
                    assert(t.under(stack0[stack0.len() - 1] as int, node as int));
                    assert(stack0 =~= stack@.push(cur));
                    lemma_stack_nodes_push(t, stack@, cur);
                }
                if cur < n {
                    let ghost labels1 = labels@;
                    labels[cur] = label;
                    proof {
                        assert(!t.splits(cur as int));
                        assert forall|x: int|
                            0 <= x < n && t.under(x, node as int) && !is_pending(t, stack@, x) implies
                            #[trigger] labels@[x] == label by {
                            if x != cur {
                                assert(!is_pending(t, stack0, x)) by {
                                    if is_pending(t, stack0, x) {
                                        let k = choose|k: int|
                                            0 <= k < stack0.len() && #[trigger] t.under(
                                                x,
                                                stack0[k] as int,
                                            );
                                        if k < stack@.len() {
                                            assert(t.under(x, stack@[k] as int));
                                        }
                                    }
                                }
                                assert(labels1[x] == label);
                            }
                        }
                    }
                } else {
                    proof {
                        assert(t.is_inner(cur as int));
                        assert(t.splits(cur as int));
                    }
                    let step: Step = steps[cur - n];
                    stack.push(step.cluster1);
                    stack.push(step.cluster2);
                    proof {
                        let below = stack0.drop_last();
                        let l = t.left(cur as int);
                        let r = t.right(cur as int);
                        assert(stack@ =~= below.push(step.cluster1).push(step.cluster2));
                        lemma_stack_nodes_push(t, below, step.cluster1);
                        lemma_stack_nodes_push(t, below.push(step.cluster1), step.cluster2);
                        assert(t.under(l, l) && t.under(r, r));
                        assert(t.under(l, cur as int) && t.under(r, cur as int));
                        lemma_under_transitive(t, l, cur as int, node as int);
                        lemma_under_transitive(t, r, cur as int, node as int);
                        assert forall|x: int|
                            0 <= x < n && t.under(x, node as int) && !is_pending(t, stack@, x) implies
                            #[trigger] labels@[x] == label by {
                            assert(!is_pending(t, stack0, x)) by {
                                if is_pending(t, stack0, x) {
                                    let k = choose|k: int|
                                        0 <= k < stack0.len() && #[trigger] t.under(
                                            x,
                                            stack0[k] as int,
                                        );
                                    if k < below.len() {
                                        assert(t.under(x, stack@[k] as int));
                                    } else {
                                        assert(x != cur);
                                        let b = below.len() as int;
                                        assert(stack@[b] == l && stack@[b + 1] == r);
                                        if t.under(x, l) {
                                            assert(t.under(x, stack@[b] as int));
                                        } else {
                                            assert(t.under(x, stack@[b + 1] as int));
                                        }
                                    }
                                }
                            }
                        }
                    }
                }
            },
        }
    }
}

/// The first label for the subtree at position `k` of the stack, which is worked
/// off from its end.
spec fn first_label(t: Tree, stack: Seq<usize>, threshold: Double, next: nat, k: int) -> nat
    decreases stack.len() - k,
{
    if k >= stack.len() - 1 {
        next
    } else {
        first_label(t, stack, threshold, next, k + 1) + t.parts(stack[k + 1] as int, threshold)
    }
}

/// All labels that the stack will use, and those used.
spec fn labels_total(t: Tree, stack: Seq<usize>, threshold: Double, next: nat) -> nat
    decreases stack.len(),
{
    if stack.len() == 0 {
        next
    } else {
        labels_total(t, stack.drop_last(), threshold, next) + t.parts(
            stack.last() as int,
            threshold,
        )
    }
}

/// Where the cut of a tree stands: finished observations have their final label,
/// the others will get it from their subtree on the stack.
spec fn is_cutting(
    t: Tree,
    threshold: Double,
    stack: Seq<usize>,
    labels: Seq<usize>,
    next: nat,
) -> bool {
    &&& labels.len() == t.n
    &&& forall|k: int| 0 <= k < stack.len() ==> #[trigger] stack[k] <= t.root()
    &&& forall|x: int, k: int|
        0 <= x < t.n && 0 <= k < stack.len() && #[trigger] t.under(x, stack[k] as int) ==> t.label(
            x,
            t.root(),
            0,
            threshold,
        ) == t.label(x, stack[k] as int, first_label(t, stack, threshold, next, k), threshold)
    &&& forall|x: int, a: int, b: int|
        0 <= x < t.n && 0 <= a < b < stack.len() ==> !(#[trigger] t.under(x, stack[a] as int)
            && #[trigger] t.under(x, stack[b] as int))
    &&& forall|x: int|
        0 <= x < t.n && !is_pending(t, stack, x) ==> #[trigger] labels[x] == t.label(
            x,
            t.root(),
            0,
            threshold,
        )
}

/// First labels below the top of the stack depend only on how many labels the
/// top takes.
proof fn lemma_first_label_popped(
    t: Tree,
    stack: Seq<usize>,
    threshold: Double,
    next: nat,
    next2: nat,
    k: int,
)
    requires
        stack.len() > 0,
        0 <= k < stack.len() - 1,
        next2 == next + t.parts(stack.last() as int, threshold),
    ensures
        first_label(t, stack, threshold, next, k) == first_label(
            t,
            stack.drop_last(),
            threshold,
            next2,
            k,
        ),
    decreases stack.len() - k,
{
    let below = stack.drop_last();
    if k + 1 < below.len() {
        lemma_first_label_popped(t, stack, threshold, next, next2, k + 1);
        assert(below[k + 1] == stack[k + 1]);
    } else {
        assert(first_label(t, stack, threshold, next, k + 1) == next);
    }
}

/// A finished subtree leaves the stack.
proof fn lemma_cut_finished(
    t: Tree,
    threshold: Double,
    stack: Seq<usize>,
    labels: Seq<usize>,
    labels2: Seq<usize>,
    next: nat,
)
    requires
        t.is_dendrogram(),
        stack.len() > 0,
        is_cutting(t, threshold, stack, labels, next),
        t.is_flat(stack.last() as int, threshold),
        labels2.len() == t.n,
        forall|x: int|
            0 <= x < t.n ==> #[trigger] labels2[x] == if t.under(x, stack.last() as int) {
                next as usize
            } else {
                labels[x]
            },
        next <= usize::MAX,
    ensures
        is_cutting(t, threshold, stack.drop_last(), labels2, next + 1),
{
    let below = stack.drop_last();
    let top = stack.len() - 1;
    assert forall|x: int, k: int|
        0 <= x < t.n && 0 <= k < below.len() && #[trigger] t.under(x, below[k] as int) implies t.label(
        x,
        t.root(),
        0,
        threshold,
    ) == t.label(x, below[k] as int, first_label(t, below, threshold, next + 1, k), threshold) by {
        assert(t.under(x, stack[k] as int));
        lemma_first_label_popped(t, stack, threshold, next, next + 1, k);
    }
    assert forall|x: int, a: int, b: int| 0 <= x < t.n && 0 <= a < b < below.len() implies !(
    #[trigger] t.under(x, below[a] as int) && #[trigger] t.under(x, below[b] as int)) by {
        assert(!(t.under(x, stack[a] as int) && t.under(x, stack[b] as int)));
    }
    assert forall|x: int| 0 <= x < t.n && !is_pending(t, below, x) implies #[trigger] labels2[x]
        == t.label(x, t.root(), 0, threshold) by {
        if t.under(x, stack[top] as int) {
            assert(t.label(x, t.root(), 0, threshold) == t.label(
                x,
                stack[top] as int,
                first_label(t, stack, threshold, next, top),
                threshold,
            ));
        } else {
            assert(!is_pending(t, stack, x)) by {
                if is_pending(t, stack, x) {
                    let k = choose|k: int|
                        0 <= k < stack.len() && #[trigger] t.under(x, stack[k] as int);
                    assert(k < top);
                    assert(t.under(x, below[k] as int));
                }
            }
            assert(labels[x] == t.label(x, t.root(), 0, threshold));
        }
    }
    assert forall|k: int| 0 <= k < below.len() implies #[trigger] below[k] <= t.root() by {
        assert(stack[k] <= t.root());
    }
}

/// A split subtree is replaced by its two children, the left one on top.
proof fn lemma_cut_split(
    t: Tree,
    threshold: Double,
    stack: Seq<usize>,
    labels: Seq<usize>,
    next: nat,
    l: usize,
    r: usize,
)
    requires
        t.is_dendrogram(),
        stack.len() > 0,
        is_cutting(t, threshold, stack, labels, next),
        !t.is_flat(stack.last() as int, threshold),
        l == t.left(stack.last() as int),
        r == t.right(stack.last() as int),
    ensures
        is_cutting(t, threshold, stack.drop_last().push(r).push(l), labels, next),
{
    let below = stack.drop_last();
    let node = stack.last() as int;
    let top = stack.len() - 1;
    let next_stack = below.push(r).push(l);
    let b = below.len() as int;
    assert(next_stack.drop_last() =~= below.push(r));
    assert(next_stack.drop_last().drop_last() =~= below);
    assert(stack[top] == node);
    assert forall|k: int| 0 <= k < b implies first_label(t, stack, threshold, next, k) == first_label(
        t,
        next_stack,
        threshold,
        next,
        k,
    ) by {
        let after = next + t.parts(node, threshold);
        lemma_first_label_popped(t, stack, threshold, next, after, k);
        lemma_first_label_popped(
            t,
            next_stack,
            threshold,
            next,
            next + t.parts(l as int, threshold),
            k,
        );
        lemma_first_label_popped(
            t,
            next_stack.drop_last(),
            threshold,
            next + t.parts(l as int, threshold),
            after,
            k,
        );
    }
    assert(first_label(t, next_stack, threshold, next, b + 1) == next);
    assert(first_label(t, next_stack, threshold, next, b) == next + t.parts(l as int, threshold));
    assert forall|x: int, k: int|
        0 <= x < t.n && 0 <= k < next_stack.len() && #[trigger] t.under(
            x,
            next_stack[k] as int,
        ) implies t.label(x, t.root(), 0, threshold) == t.label(
        x,
        next_stack[k] as int,
        first_label(t, next_stack, threshold, next, k),
        threshold,
    ) by {
        if k < b {
            assert(t.under(x, stack[k] as int));
        } else {
            lemma_siblings_apart(t, x, node);
            assert(t.under(x, stack[top] as int));
            assert(t.label(x, t.root(), 0, threshold) == t.label(
                x,
                node,
                first_label(t, stack, threshold, next, top),
                threshold,
            ));
        }
    }
    assert forall|x: int, a: int, c: int| 0 <= x < t.n && 0 <= a < c < next_stack.len() implies !(
    #[trigger] t.under(x, next_stack[a] as int) && #[trigger] t.under(x, next_stack[c] as int)) by {
        if c < b {
            assert(!(t.under(x, stack[a] as int) && t.under(x, stack[c] as int)));
        } else if a < b {
            assert(!(t.under(x, stack[a] as int) && t.under(x, stack[top] as int)));
        } else {
            lemma_siblings_apart(t, x, node);
        }
    }
    assert forall|x: int| 0 <= x < t.n && !is_pending(t, next_stack, x) implies #[trigger] labels[x]
        == t.label(x, t.root(), 0, threshold) by {
        assert(!is_pending(t, stack, x)) by {
            if is_pending(t, stack, x) {
                let k = choose|k: int|
                    0 <= k < stack.len() && #[trigger] t.under(x, stack[k] as int);
                if k < b {
                    assert(t.under(x, next_stack[k] as int));
                } else {
                    assert(x != node);
                    if t.under(x, l as int) {
                        assert(t.under(x, next_stack[b + 1] as int));
                    } else {
                        assert(t.under(x, next_stack[b] as int));
                    }
                }
            }
        }
    }
    assert forall|k: int| 0 <= k < next_stack.len() implies #[trigger] next_stack[k] <= t.root() by {
        if k < b {
            assert(stack[k] <= t.root());
        }
    }
}

/// The largest dissimilarity in each subtree.
fn subtree_heights(steps: &[Step], n: usize) -> (heights: Vec<Double>)
    requires
        (Tree { steps: steps@, n: n as nat }).is_dendrogram(),
        n + steps.len() <= usize::MAX,
    ensures
        heights.len() == n + steps.len(),
        forall|node: int|
            0 <= node < heights.len() ==> #[trigger] heights@[node] == (Tree {
                steps: steps@,
                n: n as nat,
            }).height(node),
{
    let ghost t = Tree { steps: steps@, n: n as nat };
    let mut heights: Vec<Double> = vec![Double::zero(); n];
    proof {
        assert forall|node: int| 0 <= node < n implies #[trigger] heights@[node] == t.height(node) by {
            assert(!t.splits(node));
        }
    }
    let mut i: usize = 0;
    while i < steps.len()
        invariant
            i <= steps.len(),
            t == (Tree { steps: steps@, n: n as nat }),
            t.is_dendrogram(),
            n + steps.len() <= usize::MAX,
            heights.len() == n + i,
            forall|node: int|
                0 <= node < heights.len() ==> #[trigger] heights@[node] == t.height(node),
        decreases steps.len() - i,
    {
        let step: Step = steps[i];
        proof {
            assert(t.is_inner(n + i));
            assert(t.splits(n + i));
        }
        let height: Double = step.dissimilarity.max(heights[step.cluster1]).max(
            heights[step.cluster2],
        );
        heights.push(height);
        i = i + 1;
    }
    heights
}

/// Cuts a dendrogram at a threshold: the flat clusters of the observations,
/// numbered left to right. A subtree stays together if none of its merges is
/// above the threshold, also where a merge lies below one that it contains.
pub fn fcluster_distance_remap(steps: &[Step], n: usize, threshold: Double) -> (labels: Vec<usize>)
    requires
        (Tree { steps: steps@, n: n as nat }).is_dendrogram(),
        n + steps.len() <= usize::MAX,
    ensures
        labels.len() == n,
        forall|x: int|
            0 <= x < n ==> #[trigger] labels@[x] == (Tree { steps: steps@, n: n as nat }).label(
                x,
                (Tree { steps: steps@, n: n as nat }).root(),
                0,
                threshold,
            ),
{
    let ghost t = Tree { steps: steps@, n: n as nat };
    let heights: Vec<Double> = subtree_heights(steps, n);
    let mut labels: Vec<usize> = vec![0; n];
    let mut next: usize = 0;
    let root: usize = n + steps.len() - 1;
    let mut stack: Vec<usize> = Vec::new();
    stack.push(root);
    proof {
        lemma_leaves(t);
        lemma_parts_bounded(t, t.root(), threshold);
        assert(stack@ =~= Seq::<usize>::empty().push(root));
        lemma_labels_total_push(t, Seq::empty(), threshold, 0, root);
        assert(is_cutting(t, threshold, stack@, labels@, 0)) by {
            assert forall|x: int| 0 <= x < t.n implies is_pending(t, stack@, x) by {
                lemma_all_under_root(t, x);
                assert(t.under(x, stack@[0] as int));
            }
        }
    }
    loop
        invariant
            t == (Tree { steps: steps@, n: n as nat }),
            t.is_dendrogram(),
            n + steps.len() <= usize::MAX,
            heights.len() == n + steps.len(),
            forall|node: int|
                0 <= node < heights.len() ==> #[trigger] heights@[node] == t.height(node),
            labels.len() == n,
            is_cutting(t, threshold, stack@, labels@, next as nat),
            labels_total(t, stack@, threshold, next as nat) <= n,
        ensures
            stack@.len() == 0,
            is_cutting(t, threshold, stack@, labels@, next as nat),
        decreases stack_nodes(t, stack@),
    {
        let ghost stack0 = stack@;
        match stack.pop() {
            None => {
                break;
            },
            Some(node) => {
                proof {
                    assert(stack@ =~= stack0.drop_last());
                    assert(node == stack0.last());
                    assert(stack0[stack0.len() - 1] <= t.root());
                    assert(stack0 =~= stack@.push(node));
                    lemma_stack_nodes_push(t, stack@, node);
                    lemma_labels_total_push(t, stack@, threshold, next as nat, node);
                    lemma_parts_bounded(t, node as int, threshold);
                    lemma_labels_total(t, stack@, threshold, next as nat);
                }
                if node < n {
                    let ghost labels0 = labels@;
                    labels[node] = next;
                    proof {
                        assert(!t.splits(node as int));
                        lemma_cut_finished(
                            t,
                            threshold,
                            stack0,
                            labels0,
                            labels@,
                            next as nat,
                        );
                        lemma_labels_total_shift(t, stack@, threshold, next as nat);
                    }
                    next = next + 1;
                } else if heights[node].le(threshold) {
                    let ghost labels0 = labels@;
                    paint_leaves(node, n, steps, next, &mut labels);
                    proof {
                        lemma_cut_finished(
                            t,
                            threshold,
                            stack0,
                            labels0,
                            labels@,
                            next as nat,
                        );
                        lemma_labels_total_shift(t, stack@, threshold, next as nat);
                    }
                    next = next + 1;
                } else {
                    proof {
                        assert(t.is_inner(node as int));
                        assert(t.splits(node as int));
                    }
                    let step: Step = steps[node - n];
                    proof {
                        lemma_cut_split(
                            t,
                            threshold,
                            stack0,
                            labels@,
                            next as nat,
                            step.cluster1,
                            step.cluster2,
                        );
                    }
                    stack.push(step.cluster2);
                    stack.push(step.cluster1);
                    proof {
                        let below = stack0.drop_last();
                        assert(stack@ =~= below.push(step.cluster2).push(step.cluster1));
                        lemma_stack_nodes_push(t, below, step.cluster2);
                        lemma_stack_nodes_push(t, below.push(step.cluster2), step.cluster1);
                        lemma_labels_total_push(t, below, threshold, next as nat, step.cluster2);
                        lemma_labels_total_push(
                            t,
                            below.push(step.cluster2),
                            threshold,
                            next as nat,
                            step.cluster1,
                        );
                    }
                }
            },
        }
    }
    proof {
        assert forall|x: int| 0 <= x < n implies #[trigger] labels@[x] == t.label(
            x,
            t.root(),
            0,
            threshold,
        ) by {
            assert(!is_pending(t, stack@, x));
        }
    }
    labels
}

/// Labels used are labels.
proof fn lemma_labels_total(t: Tree, stack: Seq<usize>, threshold: Double, next: nat)
    ensures
        labels_total(t, stack, threshold, next) >= next,
    decreases stack.len(),
{
    if stack.len() > 0 {
        lemma_labels_total(t, stack.drop_last(), threshold, next);
    }
}

proof fn lemma_labels_total_push(t: Tree, stack: Seq<usize>, threshold: Double, next: nat, node: usize)
    ensures
        labels_total(t, stack.push(node), threshold, next) == labels_total(t, stack, threshold, next)
            + t.parts(node as int, threshold),
{
    assert(stack.push(node).drop_last() =~= stack);
}

proof fn lemma_labels_total_shift(t: Tree, stack: Seq<usize>, threshold: Double, next: nat)
    ensures
        labels_total(t, stack, threshold, next + 1) == labels_total(t, stack, threshold, next) + 1,
    decreases stack.len(),
{
    if stack.len() > 0 {
        lemma_labels_total_shift(t, stack.drop_last(), threshold, next);
    }
}

/// Row `r` of a flat matrix with `d` columns.
pub open spec fn flat_row(values: Seq<Double>, d: nat, r: int) -> Seq<Double> {
    Seq::new(d, |j: int| values[r * d + j])
}

/// The sum of the squares of the first `n` numbers, added up in order.
pub open spec fn squares_to(values: Seq<Double>, n: nat) -> Double
    decreases n,
{
    if n == 0 {
        Double::zero_spec()
    } else {
        squares_to(values, (n - 1) as nat).plus(values[n - 1].times(values[n - 1]))
    }
}

/// The squared norm.
pub open spec fn squared_norm(values: Seq<Double>) -> Double {
    squares_to(values, values.len())
}

/// What keeps a row from being normalised, if anything.
pub open spec fn row_fault(values: Seq<Double>) -> Option<Error> {
    if !all_finite(values) {
        Some(Error::NonFinite(NonFiniteField::Embeddings))
    } else if !squared_norm(values).finite() {
        Some(Error::Shape(ShapeError::RowNormOverflow))
    } else if squared_norm(values).equals(Double::zero_spec()) {
        Some(Error::Shape(ShapeError::ZeroNormRow))
    } else {
        None
    }
}

/// What is wrong with the first faulty row among the first `n`.
pub open spec fn rows_fault(values: Seq<Double>, d: nat, n: nat) -> Option<Error>
    decreases n,
{
    if n == 0 {
        None
    } else {
        match rows_fault(values, d, (n - 1) as nat) {
            Some(e) => Some(e),
            None => row_fault(flat_row(values, d, n - 1)),
        }
    }
}

/// The first check that an input fails, if any.
pub open spec fn ahc_error(embeddings: Seq<Double>, n: nat, d: nat, threshold: Double) -> Option<Error> {
    if n == 0 {
        Some(Error::Shape(ShapeError::EmptyEmbeddings))
    } else if d == 0 {
        Some(Error::Shape(ShapeError::ZeroEmbeddingDim))
    } else if n * d > usize::MAX {
        Some(Error::Shape(ShapeError::EmbeddingsSizeOverflow))
    } else if embeddings.len() != n * d {
        Some(Error::Shape(ShapeError::EmbeddingsLenMismatch))
    } else if !positive(threshold) {
        Some(Error::Shape(ShapeError::InvalidThreshold))
    } else {
        rows_fault(embeddings, d, n)
    }
}

/// The rows scaled to unit length.
pub open spec fn unit_rows(values: Seq<Double>, d: nat) -> Seq<Double> {
    Seq::new(
        values.len(),
        |i: int|
            values[i].times(
                Double { bits: 0x3ff0_0000_0000_0000 }.over(
                    squared_norm(flat_row(values, d, i / d as int)).root(),
                ),
            ),
    )
}

/// A fault among the first rows is the fault of all.
proof fn lemma_rows_fault_stays(values: Seq<Double>, d: nat, n: nat, m: nat)
    requires
        n <= m,
        rows_fault(values, d, n) is Some,
    ensures
        rows_fault(values, d, m) == rows_fault(values, d, n),
    decreases m - n,
{
    if n < m {
        lemma_rows_fault_stays(values, d, n, (m - 1) as nat);
    }
}

/// The squared norm of row `r`.
fn row_square(values: &[Double], n: usize, d: usize, r: usize) -> (sq: Double)
    requires
        r < n,
        values.len() == n * d,
    ensures
        sq == squared_norm(flat_row(values@, d as nat, r as int)),
{
    let size: usize = values.len();
    let ghost entries = flat_row(values@, d as nat, r as int);
    let mut sq: Double = Double::zero();
    let mut j: usize = 0;
    while j < d
        invariant
            j <= d,
            r < n,
            values.len() == n * d == size,
            entries == flat_row(values@, d as nat, r as int),
            sq == squares_to(entries, j as nat),
        decreases d - j,
    {
        proof {
            crate::cluster::hungarian::sums::lemma_index(n as int, d as int, r as int, j as int);
        }
        let v: Double = values[r * d + j];
        sq = sq.add(v.mul(v));
        j = j + 1;
    }
    sq
}

/// Whether every entry of row `r` is finite.
fn is_row_finite(values: &[Double], n: usize, d: usize, r: usize) -> (b: bool)
    requires
        r < n,
        values.len() == n * d,
    ensures
        b == all_finite(flat_row(values@, d as nat, r as int)),
{
    let size: usize = values.len();
    let ghost entries = flat_row(values@, d as nat, r as int);
    let mut j: usize = 0;
    while j < d
        invariant
            j <= d,
            r < n,
            values.len() == n * d == size,
            entries == flat_row(values@, d as nat, r as int),
            forall|k: int| 0 <= k < j ==> (#[trigger] entries[k]).finite(),
        decreases d - j,
    {
        proof {
            crate::cluster::hungarian::sums::lemma_index(n as int, d as int, r as int, j as int);
        }
        if !values[r * d + j].is_finite() {
            proof {
                assert(!entries[j as int].finite());
            }
            return false;
        }
        j = j + 1;
    }
    true
}

/// Checks the input of the initial clustering.
pub fn check_ahc(embeddings: &[Double], n: usize, d: usize, threshold: Double) -> (r: Result<(), Error>)
    ensures
        match ahc_error(embeddings@, n as nat, d as nat, threshold) {
            Some(e) => r == Err::<(), Error>(e),
            None => r is Ok,
        },
{
    if n == 0 {
        return Err(Error::Shape(ShapeError::EmptyEmbeddings));
    }
    if d == 0 {
        return Err(Error::Shape(ShapeError::ZeroEmbeddingDim));
    }
    let expected: usize = match n.checked_mul(d) {
        Some(k) => k,
        None => {
            return Err(Error::Shape(ShapeError::EmbeddingsSizeOverflow));
        },
    };
    if embeddings.len() != expected {
        return Err(Error::Shape(ShapeError::EmbeddingsLenMismatch));
    }
    if !is_positive(threshold) {
        return Err(Error::Shape(ShapeError::InvalidThreshold));
    }
    let mut r: usize = 0;
    while r < n
        invariant
            r <= n,
            n > 0,
            d > 0,
            n * d <= usize::MAX,
            embeddings.len() == n * d,
            positive(threshold),
            rows_fault(embeddings@, d as nat, r as nat) is None,
        decreases n - r,
    {
        let finite: bool = is_row_finite(embeddings, n, d, r);
        let sq: Double = row_square(embeddings, n, d, r);
        let fault: Option<Error> = if !finite {
            Some(Error::NonFinite(NonFiniteField::Embeddings))
        } else if !sq.is_finite() {
            Some(Error::Shape(ShapeError::RowNormOverflow))
        } else if sq.same(Double::zero()) {
            Some(Error::Shape(ShapeError::ZeroNormRow))
        } else {
            None
        };
        match fault {
            Some(e) => {
                proof {
                    lemma_rows_fault_stays(embeddings@, d as nat, (r + 1) as nat, n as nat);
                }
                return Err(e);
            },
            None => {},
        }
        r = r + 1;
    }
    Ok(())
}

/// Scales every row to unit length.
pub fn l2_normalize_to_row_major(m: &[Double], n: usize, d: usize) -> (out: Vec<Double>)
    requires
        d > 0,
        m.len() == n * d,
    ensures
        out@ == unit_rows(m@, d as nat),
{
    let mut out: Vec<Double> = Vec::with_capacity(m.len());
    let mut r: usize = 0;
    proof {
        assert(0 * d == 0);
    }
    while r < n
        invariant
            r <= n,
            d > 0,
            m.len() == n * d,
            out.len() == r * d,
            forall|i: int| 0 <= i < out.len() ==> #[trigger] out@[i] == unit_rows(m@, d as nat)[i],
        decreases n - r,
    {
        let size: usize = m.len();
        let sq: Double = row_square(m, n, d, r);
        let inverse: Double = Double::from_bits(0x3ff0_0000_0000_0000).div(sq.sqrt());
        let mut j: usize = 0;
        while j < d
            invariant
                j <= d,
                r < n,
                d > 0,
                m.len() == n * d == size,
                inverse == (Double { bits: 0x3ff0_0000_0000_0000 }).over(
                    squared_norm(flat_row(m@, d as nat, r as int)).root(),
                ),
                out.len() == r * d + j,
                forall|i: int|
                    0 <= i < out.len() ==> #[trigger] out@[i] == unit_rows(m@, d as nat)[i],
            decreases d - j,
        {
            proof {
                crate::cluster::hungarian::sums::lemma_index(
                    n as int,
                    d as int,
                    r as int,
                    j as int,
                );
                vstd::arithmetic::div_mod::lemma_fundamental_div_mod_converse(
                    r * d + j,
                    d as int,
                    r as int,
                    j as int,
                );
            }
            out.push(m[r * d + j].mul(inverse));
            j = j + 1;
        }
        proof {
            assert((r + 1) * d == r * d + d) by (nonlinear_arith);
        }
        r = r + 1;
    }
    proof {
        assert(out@ =~= unit_rows(m@, d as nat));
    }
    out
}

/// The squared differences of rows `i` and `j`.
pub open spec fn squared_differences(rows: Seq<Double>, d: nat, i: int, j: int) -> Seq<Double> {
    Seq::new(
        d,
        |k: int|
            {
                let x = rows[i * d + k].minus(rows[j * d + k]);
                x.times(x)
            },
    )
}

/// The Euclidean distance of rows `i` and `j`.
pub open spec fn euclidean(rows: Seq<Double>, d: nat, i: int, j: int) -> Double {
    added(Double::zero_spec(), squared_differences(rows, d, i, j), d).root()
}

/// The distances of row `i` to the rows after it.
pub open spec fn distances_from(rows: Seq<Double>, n: nat, d: nat, i: int) -> Seq<Double> {
    Seq::new((n - 1 - i) as nat, |k: int| euclidean(rows, d, i, i + 1 + k))
}

/// The distances of the first `m` rows to the rows after each, in condensed form: row
/// by row, each pair once.
pub open spec fn condensed(rows: Seq<Double>, n: nat, d: nat, m: nat) -> Seq<Double>
    decreases m,
{
    if m == 0 {
        Seq::empty()
    } else {
        condensed(rows, n, d, (m - 1) as nat) + distances_from(rows, n, d, m - 1)
    }
}

/// The Euclidean distance of two rows.
fn euclidean_distance(rows: &[Double], n: usize, d: usize, i: usize, j: usize) -> (r: Double)
    requires
        rows.len() == n * d,
        i < n,
        j < n,
    ensures
        r == euclidean(rows@, d as nat, i as int, j as int),
{
    let size: usize = rows.len();
    proof {
        assert(0 <= i * d && i * d + d <= n * d) by (nonlinear_arith)
            requires
                0 <= i,
                i + 1 <= n,
                0 <= d,
        ;
        assert(0 <= j * d && j * d + d <= n * d) by (nonlinear_arith)
            requires
                0 <= j,
                j + 1 <= n,
                0 <= d,
        ;
    }
    let a: usize = i * d;
    let b: usize = j * d;
    let mut total: Double = Double::zero();
    let mut k: usize = 0;
    while k < d
        invariant
            k <= d,
            a == i * d,
            b == j * d,
            a + d <= rows.len(),
            b + d <= rows.len(),
            total == added(
                Double::zero_spec(),
                squared_differences(rows@, d as nat, i as int, j as int),
                k as nat,
            ),
        decreases d - k,
    {
        let x: Double = rows[a + k].sub(rows[b + k]);
        total = total.add(x.mul(x));
        k = k + 1;
    }
    total.sqrt()
}

/// The distances of all pairs of rows, in condensed form.
pub fn pdist_euclidean(rows: &[Double], n: usize, d: usize) -> (r: Vec<Double>)
    requires
        rows.len() == n * d,
    ensures
        r@ == condensed(rows@, n as nat, d as nat, n as nat),
{
    let mut r: Vec<Double> = Vec::new();
    let mut i: usize = 0;
    while i < n
        invariant
            rows.len() == n * d,
            i <= n,
            r@ == condensed(rows@, n as nat, d as nat, i as nat),
        decreases n - i,
    {
        let ghost before = r@;
        let ghost own = distances_from(rows@, n as nat, d as nat, i as int);
        let mut j: usize = i + 1;
        while j < n
            invariant
                rows.len() == n * d,
                i < j <= n,
                own == distances_from(rows@, n as nat, d as nat, i as int),
                r@ == before + own.take(j - i - 1),
            decreases n - j,
        {
            r.push(euclidean_distance(rows, n, d, i, j));
            proof {
                assert(r@ =~= before + own.take(j - i));
            }
            j = j + 1;
        }
        proof {
            assert(own.take(n - i - 1) =~= own);
        }
        i = i + 1;
    }
    r
}

/// `labels` are the flat clusters of a dendrogram that `link` gave for the distances
/// of the unit rows.
pub open spec fn is_initial_labelling<F: Fn(&[Double], usize) -> Vec<Step>>(
    labels: Seq<usize>,
    embeddings: Seq<Double>,
    n: usize,
    d: usize,
    threshold: Double,
    link: F,
) -> bool {
    exists|distances: &[Double], steps: Vec<Step>|
        {
            let t = Tree { steps: steps@, n: n as nat };
            &&& #[trigger] call_ensures(link, (distances, n), steps)
            &&& distances@ == condensed(
                unit_rows(embeddings, d as nat),
                n as nat,
                d as nat,
                n as nat,
            )
            &&& labels == Seq::new(
                n as nat,
                |x: int| t.label(x, t.root(), 0, threshold) as usize,
            )
        }
}

/// The initial labels: rows scaled to unit length, merged by `link` by their Euclidean
/// distances, cut at the threshold. A single row is its own cluster.
///
/// `link` gives the centroid-linkage dendrogram of that many rows for their distances
/// in condensed form.
pub fn ahc_init<F: Fn(&[Double], usize) -> Vec<Step>>(
    embeddings: &[Double],
    n: usize,
    d: usize,
    threshold: Double,
    link: F,
) -> (r: Result<Vec<usize>, Error>)
    requires
        ahc_error(embeddings@, n as nat, d as nat, threshold) is None ==> 2 * n <= usize::MAX,
        forall|distances: &[Double]| #[trigger] call_requires(link, (distances, n)),
        forall|distances: &[Double], steps: Vec<Step>| #[trigger]
            call_ensures(link, (distances, n), steps) ==> (Tree {
                steps: steps@,
                n: n as nat,
            }).is_dendrogram(),
    ensures
        match ahc_error(embeddings@, n as nat, d as nat, threshold) {
            Some(e) => r == Err::<Vec<usize>, Error>(e),
            None => {
                &&& r is Ok
                &&& n == 1 ==> r->Ok_0@ == seq![0usize]
                &&& n > 1 ==> is_initial_labelling(r->Ok_0@, embeddings@, n, d, threshold, link)
            },
        },
{
    match check_ahc(embeddings, n, d, threshold) {
        Ok(()) => {},
        Err(e) => {
            return Err(e);
        },
    }
    if n == 1 {
        let mut single: Vec<usize> = Vec::new();
        single.push(0);
        return Ok(single);
    }
    let rows: Vec<Double> = l2_normalize_to_row_major(embeddings, n, d);
    let pairs: Vec<Double> = pdist_euclidean(&rows, n, d);
    let distances: &[Double] = &pairs;
    let steps: Vec<Step> = link(distances, n);
    let labels: Vec<usize> = fcluster_distance_remap(&steps, n, threshold);
    proof {
        let t = Tree { steps: steps@, n: n as nat };
        assert(call_ensures(link, (distances, n), steps));
        assert(labels@ =~= Seq::new(
            n as nat,
            |x: int| t.label(x, t.root(), 0, threshold) as usize,
        ));
    }
    Ok(labels)
}

} // verus!
