//! The unsigned machine integers as whole quantities. Their products wrap
//! around where they do not fit.
use crate::scalar::{Natural, Scalar};
use vstd::arithmetic::div_mod::lemma_small_mod;
use vstd::prelude::*;

verus! {

/// The product of two whole numbers, taken as a real number, is the product
/// of the two taken as real numbers.
pub proof fn lemma_product_as_real(a: nat, b: nat)
    ensures
        (a * b) as real == (a as real) * (b as real),
        a as real >= 0real,
{
    assert((a * b) as real == (a as real) * (b as real)) by (nonlinear_arith);
}

/// A bound on a product of real numbers that are whole is a bound on the
/// product of the whole numbers.
pub proof fn lemma_product_bounded(a: nat, b: nat, max: nat)
    requires
        (a as real) * (b as real) <= max as real,
    ensures
        a * b <= max,
{
    lemma_product_as_real(a, b);
}

impl Scalar for u8 {
    open spec fn value(&self) -> real {
        *self as real
    }

    open spec fn fits(v: real) -> bool {
        v <= u8::MAX as real
    }

    proof fn lemma_non_negative(&self) {
    }

    fn zero() -> (r: Self) {
        0
    }

    fn one() -> (r: Self) {
        1
    }

    fn times(&self, rhs: &Self) -> (r: Self)
        ensures
            r == self.wrapping_mul(*rhs),
    {
        proof {
            lemma_product_as_real(*self as nat, *rhs as nat);
            if Self::fits(self.value() * rhs.value()) {
                lemma_product_bounded(*self as nat, *rhs as nat, u8::MAX as nat);
                lemma_small_mod((*self * *rhs) as nat, (u8::MAX + 1) as nat);
            }
        }
        self.wrapping_mul(*rhs)
    }

    fn less(&self, rhs: &Self) -> (r: bool) {
        *self < *rhs
    }

    fn dup(&self) -> (r: Self) {
        *self
    }
}

impl Natural for u8 {
    proof fn lemma_whole(&self) {
    }
}

impl Scalar for u16 {
    open spec fn value(&self) -> real {
        *self as real
    }

    open spec fn fits(v: real) -> bool {
        v <= u16::MAX as real
    }

    proof fn lemma_non_negative(&self) {
    }

    fn zero() -> (r: Self) {
        0
    }

    fn one() -> (r: Self) {
        1
    }

    fn times(&self, rhs: &Self) -> (r: Self)
        ensures
            r == self.wrapping_mul(*rhs),
    {
        proof {
            lemma_product_as_real(*self as nat, *rhs as nat);
            if Self::fits(self.value() * rhs.value()) {
                lemma_product_bounded(*self as nat, *rhs as nat, u16::MAX as nat);
                lemma_small_mod((*self * *rhs) as nat, (u16::MAX + 1) as nat);
            }
        }
        self.wrapping_mul(*rhs)
    }

    fn less(&self, rhs: &Self) -> (r: bool) {
        *self < *rhs
    }

    fn dup(&self) -> (r: Self) {
        *self
    }
}

impl Natural for u16 {
    proof fn lemma_whole(&self) {
    }
}

impl Scalar for u32 {
    open spec fn value(&self) -> real {
        *self as real
    }

    open spec fn fits(v: real) -> bool {
        v <= u32::MAX as real
    }

    proof fn lemma_non_negative(&self) {
    }

    fn zero() -> (r: Self) {
        0
    }

    fn one() -> (r: Self) {
        1
    }

    fn times(&self, rhs: &Self) -> (r: Self)
        ensures
            r == self.wrapping_mul(*rhs),
    {
        proof {
            lemma_product_as_real(*self as nat, *rhs as nat);
            if Self::fits(self.value() * rhs.value()) {
                lemma_product_bounded(*self as nat, *rhs as nat, u32::MAX as nat);
                lemma_small_mod((*self * *rhs) as nat, (u32::MAX + 1) as nat);
            }
        }
        self.wrapping_mul(*rhs)
    }

    fn less(&self, rhs: &Self) -> (r: bool) {
        *self < *rhs
    }

    fn dup(&self) -> (r: Self) {
        *self
    }
}

impl Natural for u32 {
    proof fn lemma_whole(&self) {
    }
}

impl Scalar for u64 {
    open spec fn value(&self) -> real {
        *self as real
    }

    open spec fn fits(v: real) -> bool {
        v <= u64::MAX as real
    }

    proof fn lemma_non_negative(&self) {
    }

    fn zero() -> (r: Self) {
        0
    }

    fn one() -> (r: Self) {
        1
    }

    fn times(&self, rhs: &Self) -> (r: Self)
        ensures
            r == self.wrapping_mul(*rhs),
    {
        proof {
            lemma_product_as_real(*self as nat, *rhs as nat);
            if Self::fits(self.value() * rhs.value()) {
                lemma_product_bounded(*self as nat, *rhs as nat, u64::MAX as nat);
                lemma_small_mod((*self * *rhs) as nat, (u64::MAX + 1) as nat);
            }
        }
        self.wrapping_mul(*rhs)
    }

    fn less(&self, rhs: &Self) -> (r: bool) {
        *self < *rhs
    }

    fn dup(&self) -> (r: Self) {
        *self
    }
}

impl Natural for u64 {
    proof fn lemma_whole(&self) {
    }
}

impl Scalar for u128 {
    open spec fn value(&self) -> real {
        *self as real
    }

    open spec fn fits(v: real) -> bool {
        v <= u128::MAX as real
    }

    proof fn lemma_non_negative(&self) {
    }

    fn zero() -> (r: Self) {
        0
    }

    fn one() -> (r: Self) {
        1
    }

    fn times(&self, rhs: &Self) -> (r: Self)
        ensures
            r == self.wrapping_mul(*rhs),
    {
        proof {
            lemma_product_as_real(*self as nat, *rhs as nat);
            if Self::fits(self.value() * rhs.value()) {
                lemma_product_bounded(*self as nat, *rhs as nat, u128::MAX as nat);
                lemma_small_mod((*self * *rhs) as nat, (u128::MAX + 1) as nat);
            }
        }
        self.wrapping_mul(*rhs)
    }

    fn less(&self, rhs: &Self) -> (r: bool) {
        *self < *rhs
    }

    fn dup(&self) -> (r: Self) {
        *self
    }
}

impl Natural for u128 {
    proof fn lemma_whole(&self) {
    }
}

impl Scalar for usize {
    open spec fn value(&self) -> real {
        *self as real
    }

    open spec fn fits(v: real) -> bool {
        v <= usize::MAX as real
    }

    proof fn lemma_non_negative(&self) {
    }

    fn zero() -> (r: Self) {
        0
    }

    fn one() -> (r: Self) {
        1
    }

    fn times(&self, rhs: &Self) -> (r: Self)
        ensures
            r == self.wrapping_mul(*rhs),
    {
        proof {
            lemma_product_as_real(*self as nat, *rhs as nat);
            if Self::fits(self.value() * rhs.value()) {
                lemma_product_bounded(*self as nat, *rhs as nat, usize::MAX as nat);
                lemma_small_mod((*self * *rhs) as nat, (usize::MAX + 1) as nat);
            }
        }
        self.wrapping_mul(*rhs)
    }

    fn less(&self, rhs: &Self) -> (r: bool) {
        *self < *rhs
    }

    fn dup(&self) -> (r: Self) {
        *self
    }
}

impl Natural for usize {
    proof fn lemma_whole(&self) {
    }
}

} // verus!
