//! Unbounded whole numbers, as the `num` crate provides them.
use num::BigUint;
use vstd::arithmetic::power2::pow2;
use vstd::prelude::*;

verus! {

/// `num::BigUint`, an unsigned whole number of any size. Nothing is known of
/// a value of it but what the functions below say.
#[verifier::external_type_specification]
#[verifier::external_body]
pub struct ExBigUint(BigUint);

/// The digits that a `BigUint` holds, in base 2^32, the least significant
/// first: what `BigUint::to_u32_digits` returns.
pub uninterp spec fn big_digits(n: BigUint) -> Seq<u32>;

/// The number that digits in base 2^32 stand for, the least significant
/// first.
pub open spec fn digits_value(digits: Seq<u32>) -> nat
    decreases digits.len(),
{
    if digits.len() == 0 {
        0
    } else {
        digits[0] as nat + 4294967296 * digits_value(digits.subrange(1, digits.len() as int))
    }
}

/// A single digit stands for itself.
pub proof fn lemma_digits_value_single(digits: Seq<u32>)
    requires
        digits.len() == 1,
    ensures
        digits_value(digits) == digits[0],
{
    assert(digits.subrange(1, 1).len() == 0);
    assert(digits_value(digits.subrange(1, 1)) == 0);
}

/// The number that a `BigUint` holds.
pub open spec fn big_value(n: BigUint) -> nat {
    digits_value(big_digits(n))
}

/// `BigUint::from_slice`: the number whose digits in base 2^32, the least
/// significant first, are `digits`. Leading zero digits do not matter, so
/// only the number is promised, not the digits that are stored.
#[verifier::external_body]
pub(crate) fn big_from_digits(digits: &[u32]) -> (r: BigUint)
    ensures
        big_value(r) == digits_value(digits@),
{
    BigUint::from_slice(digits)
}

/// `BigUint::to_u32_digits`: the digits of the number in base 2^32, the
/// least significant first and the most significant not zero, so that zero
/// has no digit at all.
#[verifier::external_body]
pub(crate) fn big_to_digits(n: &BigUint) -> (r: Vec<u32>)
    ensures
        r@ == big_digits(*n),
        r@.len() > 0 ==> r@.last() != 0,
{
    n.to_u32_digits()
}

/// `Mul` for `&BigUint`: the product of the two numbers, which is exact
/// whatever their size.
#[verifier::external_body]
pub(crate) fn big_mul(a: &BigUint, b: &BigUint) -> (r: BigUint)
    ensures
        big_value(r) == big_value(*a) * big_value(*b),
{
    a * b
}

/// `PartialOrd::lt` for `BigUint`: whether the first number is the smaller
/// one.
#[verifier::external_body]
pub(crate) fn big_less(a: &BigUint, b: &BigUint) -> (r: bool)
    ensures
        r == (big_value(*a) < big_value(*b)),
{
    a < b
}

/// `BigUint::bits`: the fewest bits that can hold the number. That is none
/// for zero, and else the one count `b` with 2^(b-1) <= n < 2^b.
#[verifier::external_body]
pub(crate) fn big_bits(n: &BigUint) -> (r: u64)
    ensures
        big_value(*n) < pow2(r as nat),
        r > 0 ==> pow2((r - 1) as nat) <= big_value(*n),
{
    n.bits()
}

} // verus!
