//! The numbers that an assignment search computes with.

use vstd::prelude::*;
use crate::float::arith::law_rank_orders_values;
use crate::float::double::{binary64, lemma_double_format, Double};

verus! {

/// A number that costs can be added up, subtracted and compared in. Its view is what
/// the operations are stated over.
pub trait Weight: View + Sized {
    spec fn nothing() -> Self::V;

    spec fn sum(a: Self::V, b: Self::V) -> Self::V;

    spec fn difference(a: Self::V, b: Self::V) -> Self::V;

    spec fn less(a: Self::V, b: Self::V) -> bool;

    spec fn same(a: Self::V, b: Self::V) -> bool;

    /// Less than infinity.
    spec fn bounded(a: Self::V) -> bool;

    /// A number with an exact value.
    spec fn regular(a: Self::V) -> bool;

    /// That value, in units.
    spec fn value(a: Self::V) -> int;

    /// Comparison is that of the exact values.
    proof fn lemma_order(a: Self::V, b: Self::V)
        ensures
            Self::regular(a) && Self::regular(b) ==> {
                &&& Self::less(a, b) <==> Self::value(a) < Self::value(b)
                &&& Self::same(a, b) <==> Self::value(a) == Self::value(b)
                &&& Self::bounded(a)
            },
    ;

    /// Numbers less than infinity are in order.
    proof fn lemma_bounded(a: Self::V, b: Self::V, c: Self::V)
        ensures
            Self::less(a, b) && Self::bounded(b) ==> Self::bounded(a),
            Self::less(a, b) || Self::same(a, b) ==> !Self::less(b, a),
            Self::bounded(a) && Self::bounded(b) ==> Self::less(a, b) || Self::same(a, b)
                || Self::less(b, a),
            Self::bounded(a) && Self::bounded(b) && Self::bounded(c) && !Self::less(b, a)
                && !Self::less(c, b) ==> !Self::less(c, a),
    ;

    /// The start of every sum is zero.
    proof fn lemma_nothing()
        ensures
            Self::regular(Self::nothing()),
            Self::value(Self::nothing()) == 0,
    ;

    fn make_nothing() -> (r: Self)
        ensures
            r@ == Self::nothing(),
    ;

    fn plus(&self, other: &Self) -> (r: Self)
        ensures
            r@ == Self::sum(self@, other@),
    ;

    fn minus(&self, other: &Self) -> (r: Self)
        ensures
            r@ == Self::difference(self@, other@),
    ;

    fn is_less(&self, other: &Self) -> (r: bool)
        ensures
            r == Self::less(self@, other@),
    ;

    fn is_same(&self, other: &Self) -> (r: bool)
        ensures
            r == Self::same(self@, other@),
    ;

    fn is_bounded(&self) -> (r: bool)
        ensures
            r == Self::bounded(self@),
    ;

    fn copied(&self) -> (r: Self)
        ensures
            r@ == self@,
    ;
}

impl View for Double {
    type V = Double;

    open spec fn view(&self) -> Double {
        *self
    }
}

impl Weight for Double {
    open spec fn nothing() -> Double {
        Double::zero_spec()
    }

    open spec fn sum(a: Double, b: Double) -> Double {
        a.plus(b)
    }

    open spec fn difference(a: Double, b: Double) -> Double {
        a.minus(b)
    }

    open spec fn less(a: Double, b: Double) -> bool {
        a.below(b)
    }

    open spec fn same(a: Double, b: Double) -> bool {
        a.equals(b)
    }

    open spec fn bounded(a: Double) -> bool {
        a.below(Double::infinity_spec())
    }

    open spec fn regular(a: Double) -> bool {
        a.finite()
    }

    open spec fn value(a: Double) -> int {
        a.units()
    }

    proof fn lemma_order(a: Double, b: Double) {
        lemma_double_format();
        law_rank_orders_values(binary64(), a.num(), b.num());
    }

    proof fn lemma_bounded(a: Double, b: Double, c: Double) {
    }

    proof fn lemma_nothing() {
        crate::float::arith::lemma_zero_units(53);
    }

    fn make_nothing() -> (r: Double) {
        Double::zero()
    }

    fn plus(&self, other: &Double) -> (r: Double) {
        self.add(*other)
    }

    fn minus(&self, other: &Double) -> (r: Double) {
        self.sub(*other)
    }

    fn is_less(&self, other: &Double) -> (r: bool) {
        self.lt(*other)
    }

    fn is_same(&self, other: &Double) -> (r: bool) {
        self.same(*other)
    }

    fn is_bounded(&self) -> (r: bool) {
        self.lt(Double::infinity())
    }

    fn copied(&self) -> (r: Double) {
        *self
    }
}

/// What a list of numbers stands for.
pub open spec fn views<W: Weight>(s: Seq<W>) -> Seq<W::V> {
    Seq::new(s.len(), |k: int| s[k]@)
}

/// What a list of distances stands for; `None` is infinity.
pub open spec fn distances<W: Weight>(s: Seq<Option<W>>) -> Seq<Option<W::V>> {
    Seq::new(s.len(), |k: int| distance(s[k]))
}

pub open spec fn distance<W: Weight>(x: Option<W>) -> Option<W::V> {
    match x {
        Some(w) => Some(w@),
        None => None,
    }
}

/// The exact values.
pub open spec fn values<W: Weight>(s: Seq<W::V>) -> Seq<int> {
    Seq::new(s.len(), |k: int| W::value(s[k]))
}

} // verus!
