//! Integers of any size, for sums that must not be rounded.

use vstd::arithmetic::power2::{lemma_pow2_adds, lemma_pow2_pos, pow2};
use vstd::prelude::*;
use crate::cluster::hungarian::weight::Weight;
use crate::float::arith::{parts, Num};
use crate::float::double::{binary64, lemma_double_format, Double};
use crate::float::rounding::raised;

verus! {

/// What one place is worth in units of the next.
pub const RADIX: u64 = 0x1_0000_0000;

/// A whole number in places of 32 binary digits, the most significant first, above
/// which stand infinitely many zeros or, in a negative number, ones.
pub struct Wide {
    pub places: Vec<u32>,
    pub negative: bool,
}

/// The number that places stand for.
pub open spec fn worth(places: Seq<u32>, negative: bool) -> int
    decreases places.len(),
{
    if places.len() == 0 {
        if negative { -1 } else { 0 }
    } else {
        worth(places.drop_last(), negative) * RADIX + places.last()
    }
}

impl View for Wide {
    type V = int;

    open spec fn view(&self) -> int {
        worth(self.places@, self.negative)
    }
}

proof fn lemma_sign(places: Seq<u32>, negative: bool)
    ensures
        worth(places, negative) < 0 <==> negative,
    decreases places.len(),
{
    if places.len() > 0 {
        lemma_sign(places.drop_last(), negative);
    }
}

proof fn lemma_shorter(places: Seq<u32>, n: int, negative: bool)
    requires
        0 < n <= places.len(),
    ensures
        worth(places.take(n), negative) == worth(places.take(n - 1), negative) * RADIX + places[n
            - 1],
{
    assert(places.take(n).drop_last() =~= places.take(n - 1));
}

/// The number of the first `n` places, turned into its complement if `flip`.
spec fn turned(x: Wide, n: int, flip: bool) -> int {
    let w = worth(x.places@.take(n), x.negative);
    if flip { -1 - w } else { w }
}

/// The place before the first `n` places end; above them all, the sign.
fn place_at(x: &Wide, n: usize, flip: bool) -> (r: u64)
    requires
        n <= x.places.len(),
    ensures
        r < RADIX,
        n > 0 ==> turned(*x, n as int, flip) == turned(*x, n - 1, flip) * RADIX + r,
        n == 0 ==> turned(*x, 0, flip) == turned(*x, 0, flip) * RADIX + r,
{
    let d: u64 = if n > 0 {
        x.places[n - 1] as u64
    } else if x.negative {
        RADIX - 1
    } else {
        0
    };
    proof {
        if n > 0 {
            lemma_shorter(x.places@, n as int, x.negative);
        }
    }
    if flip {
        RADIX - 1 - d
    } else {
        d
    }
}

/// A number with one more place behind its last one.
fn extended(above: Wide, low: u64) -> (r: Wide)
    requires
        low < RADIX,
    ensures
        r@ == above@ * RADIX + low,
{
    let negative: bool = above.negative;
    let mut places: Vec<u32> = above.places;
    let filler: u64 = if negative {
        RADIX - 1
    } else {
        0
    };
    if places.len() > 0 || low != filler {
        let ghost before = places@;
        places.push(low as u32);
        proof {
            assert(places@.drop_last() =~= before);
        }
    }
    Wide { places, negative }
}

/// The sum of two signs, the second one turned if `flip`, and what is carried from the
/// places below.
fn added_signs(a: &Wide, b: &Wide, flip: bool, carry: u64) -> (r: Wide)
    requires
        carry <= 1,
        a.negative == (b.negative != flip) ==> (carry == 1 <==> a.negative),
    ensures
        r@ == turned(*a, 0, false) + turned(*b, 0, flip) + carry,
{
    let minus: bool = b.negative != flip;
    let negative: bool = if a.negative == minus {
        a.negative
    } else {
        carry == 0
    };
    let places: Vec<u32> = Vec::new();
    proof {
        assert(a.places@.take(0) =~= Seq::empty());
        assert(b.places@.take(0) =~= Seq::empty());
        assert(places@ =~= Seq::empty());
    }
    Wide { places, negative }
}

/// The sum of the first places of two numbers, the second one turned into its
/// complement if `flip`, and a carry.
fn added(a: &Wide, na: usize, b: &Wide, nb: usize, flip: bool, carry: u64) -> (r: Wide)
    requires
        na <= a.places.len(),
        nb <= b.places.len(),
        carry <= 1,
    ensures
        r@ == turned(*a, na as int, false) + turned(*b, nb as int, flip) + carry,
    decreases na + nb,
{
    let total: u64 = place_at(a, na, false) + place_at(b, nb, flip) + carry;
    let (low, high) = if total >= RADIX {
        (total - RADIX, 1u64)
    } else {
        (total, 0u64)
    };
    let ma: usize = if na > 0 {
        na - 1
    } else {
        0
    };
    let mb: usize = if nb > 0 {
        nb - 1
    } else {
        0
    };
    let ghost x = turned(*a, ma as int, false);
    let ghost y = turned(*b, mb as int, flip);
    let above: Wide = if na == 0 && nb == 0 {
        proof {
            assert(a.places@.take(0) =~= Seq::empty());
            assert(b.places@.take(0) =~= Seq::empty());
        }
        added_signs(a, b, flip, high)
    } else {
        added(a, ma, b, mb, flip, high)
    };
    proof {
        assert(above@ == x + y + high);
        assert((x + y + high) * RADIX + low == x * RADIX + y * RADIX + total);
    }
    extended(above, low)
}

/// The exact value of a finite number, in units.
pub fn widened(x: Double) -> (r: Wide)
    requires
        x.finite(),
    ensures
        r@ == x.units(),
{
    proof {
        lemma_double_format();
        crate::float::arith::lemma_zero_units(53);
    }
    let n: Num = x.unpack();
    let (m, g) = parts(binary64(), n.magnitude);
    let rest: u32 = g % 32;
    let count: u32 = g / 32;
    proof {
        vstd::arithmetic::power2::lemma2_to64();
        vstd::arithmetic::power2::lemma2_to64_rest();
        lemma_pow2_adds(rest as nat, (32 * count) as nat);
        lemma_pow2_adds(rest as nat, (32 - rest) as nat);
        lemma_pow2_pos(rest as nat);
        lemma_pow2_pos((32 - rest) as nat);
        let p = pow2(rest as nat) as int;
        let q = pow2((32 - rest) as nat) as int;
        assert(0 < p <= RADIX) by (nonlinear_arith)
            requires
                p * q == RADIX,
                q > 0,
                p > 0,
        ;
        assert(0 <= m * p <= m * RADIX) by (nonlinear_arith)
            requires
                0 <= m,
                0 < p <= RADIX,
        ;
    }
    let lowest: u128 = raised(m as u128, rest);
    let radix: u128 = RADIX as u128;
    let mut places: Vec<u32> = Vec::new();
    let p2: u32 = (lowest / radix / radix) as u32;
    let p1: u32 = (lowest / radix % radix) as u32;
    let p0: u32 = (lowest % radix) as u32;
    places.push(p2);
    places.push(p1);
    places.push(p0);
    proof {
        assert(places@ =~= seq![p2, p1, p0]);
        assert(places@.drop_last() =~= seq![p2, p1]);
        assert(places@.drop_last().drop_last() =~= seq![p2]);
        assert(places@.drop_last().drop_last().drop_last() =~= Seq::empty());
        assert(worth(Seq::<u32>::empty(), false) == 0);
        assert(worth(seq![p2], false) == p2);
        assert(worth(seq![p2, p1], false) == p2 * RADIX + p1);
        assert(worth(places@, false) == lowest);
        assert(lowest * 1 == lowest);
    }
    let mut i: u32 = 0;
    while i < count
        invariant
            i <= count,
            count <= 64,
            worth(places@, false) == lowest * pow2((32 * i) as nat),
        decreases count - i,
    {
        let ghost before = places@;
        places.push(0);
        proof {
            assert(places@.drop_last() =~= before);
            vstd::arithmetic::power2::lemma2_to64();
            lemma_pow2_adds((32 * i) as nat, 32);
            assert(lowest * pow2((32 * i) as nat) * RADIX == lowest * (pow2((32 * i) as nat)
                * RADIX)) by (nonlinear_arith);
        }
        i = i + 1;
    }
    let size: Wide = Wide { places, negative: false };
    proof {
        let p = pow2(rest as nat) as int;
        let q = pow2((32 * count) as nat) as int;
        assert(m * p * q == m * (p * q)) by (nonlinear_arith);
        assert(g == rest + 32 * count);
    }
    if n.negative {
        Wide::make_nothing().minus(&size)
    } else {
        size
    }
}

impl Weight for Wide {
    open spec fn nothing() -> int {
        0
    }

    open spec fn sum(a: int, b: int) -> int {
        a + b
    }

    open spec fn difference(a: int, b: int) -> int {
        a - b
    }

    open spec fn less(a: int, b: int) -> bool {
        a < b
    }

    open spec fn same(a: int, b: int) -> bool {
        a == b
    }

    open spec fn bounded(a: int) -> bool {
        true
    }

    open spec fn regular(a: int) -> bool {
        true
    }

    open spec fn value(a: int) -> int {
        a
    }

    proof fn lemma_order(a: int, b: int) {
    }

    proof fn lemma_bounded(a: int, b: int, c: int) {
    }

    proof fn lemma_nothing() {
    }

    fn make_nothing() -> (r: Wide) {
        Wide { places: Vec::new(), negative: false }
    }

    fn plus(&self, other: &Wide) -> (r: Wide) {
        proof {
            assert(self.places@.take(self.places@.len() as int) =~= self.places@);
            assert(other.places@.take(other.places@.len() as int) =~= other.places@);
        }
        added(self, self.places.len(), other, other.places.len(), false, 0)
    }

    fn minus(&self, other: &Wide) -> (r: Wide) {
        proof {
            assert(self.places@.take(self.places@.len() as int) =~= self.places@);
            assert(other.places@.take(other.places@.len() as int) =~= other.places@);
        }
        added(self, self.places.len(), other, other.places.len(), true, 1)
    }

    fn is_less(&self, other: &Wide) -> (r: bool) {
        let d: Wide = self.minus(other);
        proof {
            lemma_sign(d.places@, d.negative);
        }
        d.negative
    }

    fn is_same(&self, other: &Wide) -> (r: bool) {
        !self.is_less(other) && !other.is_less(self)
    }

    fn is_bounded(&self) -> (r: bool) {
        true
    }

    fn copied(&self) -> (r: Wide) {
        let mut places: Vec<u32> = Vec::with_capacity(self.places.len());
        while places.len() < self.places.len()
            invariant
                places.len() <= self.places.len(),
                places@ == self.places@.take(places.len() as int),
            decreases self.places.len() - places.len(),
        {
            let k: usize = places.len();
            proof {
                assert(self.places@.take(k + 1) =~= self.places@.take(k as int).push(
                    self.places@[k as int],
                ));
            }
            places.push(self.places[k]);
        }
        proof {
            assert(self.places@.take(places.len() as int) =~= self.places@);
        }
        Wide { places, negative: self.negative }
    }
}

} // verus!
