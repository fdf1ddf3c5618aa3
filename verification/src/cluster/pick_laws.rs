//! Which rows are drawn as seeds.

use vstd::arithmetic::power2::{lemma_pow2_adds, lemma_pow2_pos, lemma_pow2_strictly_increases, pow2};
use vstd::prelude::*;
use crate::cluster::kmeans::{first_above, unchosen};
use crate::cluster::random::unit_interval;
use crate::float::arith::abs;
use crate::float::error::{law_product_is_close, lemma_one, limit, one};
use crate::float::grid::distance;
use crate::float::nearest::lemma_pattern;
use crate::float::order::lemma_natural_exact;
use crate::float::sums::added;
use crate::float::Double;

verus! {

/// The rows left are all those not chosen, in ascending order.
pub proof fn law_unchosen_are_the_rest(n: nat, chosen: Seq<usize>)
    requires
        n <= usize::MAX,
    ensures
        forall|p: int|
            0 <= p < unchosen(n, chosen).len() ==> #[trigger] unchosen(n, chosen)[p] < n
                && !chosen.contains(unchosen(n, chosen)[p]),
        forall|i: usize|
            i < n && !chosen.contains(i) ==> #[trigger] unchosen(n, chosen).contains(i),
        forall|p: int, q: int|
            0 <= p < q < unchosen(n, chosen).len() ==> #[trigger] unchosen(n, chosen)[p]
                < #[trigger] unchosen(n, chosen)[q],
    decreases n,
{
    let all = unchosen(n, chosen);
    if n > 0 {
        let last = (n - 1) as usize;
        let before = unchosen((n - 1) as nat, chosen);
        law_unchosen_are_the_rest((n - 1) as nat, chosen);
        if chosen.contains(last) {
            assert(all == before);
            assert forall|i: usize| i < n && !chosen.contains(i) implies #[trigger] all.contains(
                i,
            ) by {
                assert(i != last);
                assert(before.contains(i));
            }
        } else {
            assert(all == before.push(last));
            assert(all[before.len() as int] == last);
            assert forall|p: int| 0 <= p < all.len() implies #[trigger] all[p] < n
                && !chosen.contains(all[p]) by {
                if p < before.len() {
                    assert(all[p] == before[p]);
                }
            }
            assert forall|i: usize| i < n && !chosen.contains(i) implies #[trigger] all.contains(
                i,
            ) by {
                if i != last {
                    assert(before.contains(i));
                    let p = choose|p: int| 0 <= p < before.len() && before[p] == i;
                    assert(all[p] == i);
                }
            }
            assert forall|p: int, q: int| 0 <= p < q < all.len() implies #[trigger] all[p]
                < #[trigger] all[q] by {
                assert(all[p] == before[p]);
                if q < before.len() {
                    assert(all[q] == before[q]);
                }
            }
        }
    }
}

/// A draw by weight takes the first row at which the running sum of the weights exceeds
/// `t`, the last one where it never does.
pub proof fn law_pick_is_the_first_above(weights: Seq<Double>, t: Double, j: nat)
    requires
        j < weights.len(),
    ensures
        ({
            let r = first_above(weights, t, j);
            &&& j <= r < weights.len()
            &&& forall|i: int|
                j <= i < r ==> !t.below(
                    #[trigger] added(Double::zero_spec(), weights, (i + 1) as nat),
                )
            &&& r + 1 < weights.len() ==> t.below(
                added(Double::zero_spec(), weights, (r + 1) as nat),
            )
        }),
    decreases weights.len() - j,
{
    if !t.below(added(Double::zero_spec(), weights, j + 1)) && j + 1 < weights.len() {
        law_pick_is_the_first_above(weights, t, j + 1);
        let r = first_above(weights, t, j);
        assert forall|i: int| j <= i < r implies !t.below(
            #[trigger] added(Double::zero_spec(), weights, (i + 1) as nat),
        ) by {
            if i == j {
                assert((i + 1) as nat == j + 1);
            }
        }
    } else if j + 1 == weights.len() {
        assert(first_above(weights, t, j + 1) == weights.len() - 1);
    }
}

/// A word is drawn into the unit interval: its upper 53 bits, over `2^53`, up to
/// rounding.
pub proof fn law_unit_interval_is_a_fraction(word: u64)
    ensures
        unit_interval(word).finite(),
        word >> 11 < 0x20_0000_0000_0000,
        one() == 0x20_0000_0000_0000 * pow2(1021),
        0x20_0000_0000_0000 * distance(unit_interval(word).units(), (word >> 11) * pow2(1021))
            <= abs(unit_interval(word).units()) + 0x10_0000_0000_0000,
{
    assert(word >> 11 < 0x20_0000_0000_0000) by (bit_vector);
    let n = (word >> 11) as nat;
    let u = one();
    lemma_one();
    let x = Double { bits: 0x3ca0_0000_0000_0000 };
    assert(969 * 0x10_0000_0000_0000 + 0x10_0000_0000_0000 == 0x3ca0_0000_0000_0000);
    lemma_pattern(0x3ca0_0000_0000_0000, 969, 0x10_0000_0000_0000);
    lemma_pow2_adds(52, 969);
    lemma_pow2_adds(53, 1021);
    lemma_pow2_pos(1021);
    lemma_pow2_strictly_increases(1074, 2045);
    vstd::arithmetic::power2::lemma2_to64();
    vstd::arithmetic::power2::lemma2_to64_rest();
    lemma_natural_exact(n);
    let v = pow2(1021) as int;
    let nu = n * u;
    let nv = n * v;
    assert(v * nu == nv * u && 0 <= nv) by (nonlinear_arith)
        requires
            nu == n * u,
            nv == n * v,
            n >= 0,
            v > 0,
    ;
    assert(nv <= u) by (nonlinear_arith)
        requires
            nv == n * v,
            u == 0x20_0000_0000_0000 * v,
            n < 0x20_0000_0000_0000,
            v > 0,
    ;
    assert(0 <= nv * u <= limit() * u) by (nonlinear_arith)
        requires
            0 <= nv <= limit(),
            u > 0,
    ;
    law_product_is_close(x, Double::natural(n));
    let r = unit_interval(word).units();
    let ra = abs(r);
    let d = distance(r, nv);
    assert(distance(r * u, nv * u) == d * u) by (nonlinear_arith)
        requires
            d == (if r <= nv { nv - r } else { r - nv }),
            distance(r * u, nv * u) == (if r * u <= nv * u { nv * u - r * u } else { r * u - nv
                * u }),
            u > 0,
    ;
    assert(0x20_0000_0000_0000 * d <= ra + 0x10_0000_0000_0000) by (nonlinear_arith)
        requires
            0x20_0000_0000_0000 * (d * u) <= (ra + 0x10_0000_0000_0000) * u,
            u > 0,
    ;
}

} // verus!
