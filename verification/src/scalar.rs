//! The numeric capabilities that the searches need.
use crate::span::{non_negative, span_product, whole};
use vstd::prelude::*;

verus! {

/// A non-negative quantity with a product and an order.
pub trait Scalar: Sized {
    /// The real number that this quantity stands for.
    spec fn value(&self) -> real;

    /// Whether the type can hold a product of its quantities that stands for
    /// `v`. A product that it cannot hold comes out as some other quantity.
    spec fn fits(v: real) -> bool;

    /// No quantity is negative.
    proof fn lemma_non_negative(&self)
        ensures
            self.value() >= 0real,
    ;

    /// The additive identity.
    fn zero() -> (r: Self)
        ensures
            r.value() == 0real,
    ;

    /// The multiplicative identity.
    fn one() -> (r: Self)
        ensures
            r.value() == 1real,
    ;

    /// The product of two quantities: exact wherever the type can hold it.
    fn times(&self, rhs: &Self) -> (r: Self)
        ensures
            Self::fits(self.value() * rhs.value()) ==> r.value() == self.value() * rhs.value(),
    ;

    /// Whether this quantity is strictly smaller than `rhs`.
    fn less(&self, rhs: &Self) -> (r: bool)
        ensures
            r == (self.value() < rhs.value()),
    ;

    /// A second quantity with the same value.
    fn dup(&self) -> (r: Self)
        ensures
            r.value() == self.value(),
    ;
}

/// A quantity that is a whole number: zero, or at least one.
pub trait Natural: Scalar {
    /// Nothing lies strictly between zero and one.
    proof fn lemma_whole(&self)
        ensures
            self.value() == 0real || self.value() >= 1real,
    ;
}

/// The values of a sequence of quantities, position by position.
pub open spec fn values<T: Scalar>(s: Seq<T>) -> Seq<real> {
    Seq::new(s.len(), |i: int| s[i].value())
}

/// The product of every non-empty range of `v` is one that `T` can hold.
pub open spec fn products_fit<T: Scalar>(v: Seq<real>) -> bool {
    forall|i: int, j: int|
        0 <= i <= j < v.len() ==> T::fits(#[trigger] span_product(v, i, j))
}

/// The values of quantities are non-negative.
pub proof fn lemma_values_non_negative<T: Scalar>(s: Seq<T>)
    ensures
        non_negative(values(s)),
{
    assert forall|k: int| 0 <= k < values(s).len() implies #[trigger] values(s)[k] >= 0real by {
        s[k].lemma_non_negative();
    }
}

/// The values of whole quantities are whole.
pub proof fn lemma_values_whole<T: Natural>(s: Seq<T>)
    ensures
        whole(values(s)),
{
    assert forall|k: int| 0 <= k < values(s).len() implies #[trigger] values(s)[k] == 0real
        || values(s)[k] >= 1real by {
        s[k].lemma_whole();
    }
}

} // verus!
