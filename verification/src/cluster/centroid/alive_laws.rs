//! Which clusters stay alive.

use vstd::prelude::*;
use crate::cluster::centroid::algo::{alive, ambiguity, is_ambiguous};
use crate::cluster::centroid::error::Error;
use crate::float::Double;

verus! {

/// The clusters alive are all those whose prior is above the threshold, in ascending
/// order.
pub proof fn law_alive_are_those_above(sp: Seq<Double>, threshold: Double, n: nat)
    requires
        n <= sp.len(),
        sp.len() <= usize::MAX,
    ensures
        forall|k: usize|
            k < sp.len() ==> (#[trigger] alive(sp, threshold, n).contains(k) <==> k < n
                && threshold.below(sp[k as int])),
        forall|p: int| 0 <= p < alive(sp, threshold, n).len() ==> #[trigger] alive(sp, threshold, n)[p] < n,
        forall|p: int, q: int|
            0 <= p < q < alive(sp, threshold, n).len() ==> #[trigger] alive(sp, threshold, n)[p]
                < #[trigger] alive(sp, threshold, n)[q],
    decreases n,
{
    let all = alive(sp, threshold, n);
    if n > 0 {
        let last = (n - 1) as usize;
        let before = alive(sp, threshold, (n - 1) as nat);
        law_alive_are_those_above(sp, threshold, (n - 1) as nat);
        if threshold.below(sp[n - 1]) {
            assert(all == before.push(last));
            assert(all[before.len() as int] == last);
            assert forall|k: usize| k < sp.len() implies (#[trigger] all.contains(k) <==> k < n
                && threshold.below(sp[k as int])) by {
                if all.contains(k) {
                    let p = choose|p: int| 0 <= p < all.len() && all[p] == k;
                    if p < before.len() {
                        assert(before[p] == k);
                        assert(before.contains(k));
                    }
                }
                if k < n && threshold.below(sp[k as int]) && k != last {
                    assert(before.contains(k));
                    let p = choose|p: int| 0 <= p < before.len() && before[p] == k;
                    assert(all[p] == k);
                }
            }
            assert forall|p: int| 0 <= p < all.len() implies #[trigger] all[p] < n by {
                if p < before.len() {
                    assert(all[p] == before[p]);
                }
            }
            assert forall|p: int, q: int| 0 <= p < q < all.len() implies #[trigger] all[p]
                < #[trigger] all[q] by {
                assert(all[p] == before[p]);
                if q < before.len() {
                    assert(all[q] == before[q]);
                }
            }
        } else {
            assert(all == before);
            assert forall|k: usize| k < sp.len() implies (#[trigger] all.contains(k) <==> k < n
                && threshold.below(sp[k as int])) by {
                assert(before.contains(k) <==> k < n - 1 && threshold.below(sp[k as int]));
            }
        }
    }
}

/// A prior is reported as ambiguous wherever there is one, and the first one is.
pub proof fn law_first_ambiguous_prior_is_reported(sp: Seq<Double>, threshold: Double, from: nat)
    requires
        sp.len() <= usize::MAX,
    ensures
        match ambiguity(sp, threshold, from) {
            None => forall|k: int|
                from <= k < sp.len() ==> !is_ambiguous(#[trigger] sp[k], threshold),
            Some(e) => match e {
                Error::AmbiguousAliveCluster { cluster, value, threshold: t, lo, hi } => {
                    &&& from <= cluster < sp.len()
                    &&& value == sp[cluster as int]
                    &&& t == threshold
                    &&& is_ambiguous(value, threshold)
                    &&& forall|k: int|
                        from <= k < cluster ==> !is_ambiguous(#[trigger] sp[k], threshold)
                },
                _ => false,
            },
        },
    decreases sp.len() - from,
{
    if from < sp.len() && !is_ambiguous(sp[from as int], threshold) {
        law_first_ambiguous_prior_is_reported(sp, threshold, from + 1);
    }
}

} // verus!
