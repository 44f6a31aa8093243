//! Exact non-negative fractions of unbounded size.
use crate::bignum::{
    big_bits, big_from_digits, big_less, big_mul, big_to_digits, big_value, digits_value,
    lemma_digits_value_single,
};
use crate::scalar::Scalar;
use crate::unsigned::lemma_product_as_real;
use num::BigUint;
use vstd::arithmetic::power2::{
    lemma2_to64, lemma_pow2_adds, lemma_pow2_pos, lemma_pow2_strictly_increases, pow2,
};
use vstd::prelude::*;

verus! {

/// A non-negative fraction: a numerator over a denominator that is not zero.
/// Neither is bounded, and the fraction need not be in lowest terms.
pub struct Ratio {
    num: BigUint,
    den: BigUint,
}

/// The value of the fraction `num / den`, for a `den` above zero.
pub open spec fn fraction(num: nat, den: nat) -> real {
    num as real / den as real
}

/// Fractions multiply numerator by numerator, denominator by denominator.
proof fn lemma_fraction_product(a: nat, b: nat, c: nat, d: nat)
    requires
        b > 0,
        d > 0,
    ensures
        b * d > 0,
        fraction(a * c, b * d) == fraction(a, b) * fraction(c, d),
{
    lemma_product_as_real(a, c);
    lemma_product_as_real(b, d);
    let (ar, br, cr, dr) = (a as real, b as real, c as real, d as real);
    assert(b * d > 0) by (nonlinear_arith)
        requires
            b > 0,
            d > 0,
    ;
    assert((ar * cr) / (br * dr) == (ar / br) * (cr / dr)) by (nonlinear_arith)
        requires
            br > 0real,
            dr > 0real,
    ;
}

/// Fractions compare as their cross products do.
proof fn lemma_fraction_order(a: nat, b: nat, c: nat, d: nat)
    requires
        b > 0,
        d > 0,
    ensures
        (fraction(a, b) < fraction(c, d)) == (a * d < c * b),
{
    lemma_product_as_real(a, d);
    lemma_product_as_real(c, b);
    let (ar, br, cr, dr) = (a as real, b as real, c as real, d as real);
    assert((ar / br < cr / dr) == (ar * dr < cr * br)) by (nonlinear_arith)
        requires
            br > 0real,
            dr > 0real,
    ;
}

/// A fraction over one is its numerator.
proof fn lemma_fraction_over_one(a: nat)
    ensures
        fraction(a, 1) == a as real,
{
    let ar = a as real;
    assert(ar / 1real == ar) by (nonlinear_arith);
}

/// A product of two numbers that fit in `a_bits` and `b_bits` bits is below a
/// product of two numbers that need `c_bits` and `d_bits` bits, where the
/// latter need at least two bits more in all.
proof fn lemma_product_by_bits(
    a: nat,
    b: nat,
    a_bits: nat,
    b_bits: nat,
    c: nat,
    d: nat,
    c_bits: nat,
    d_bits: nat,
)
    requires
        a < pow2(a_bits),
        b < pow2(b_bits),
        c_bits > 0,
        d_bits > 0,
        pow2((c_bits - 1) as nat) <= c,
        pow2((d_bits - 1) as nat) <= d,
        a_bits + b_bits + 2 <= c_bits + d_bits,
    ensures
        a * b < c * d,
{
    let low = ((c_bits - 1) + (d_bits - 1)) as nat;
    lemma_pow2_adds(a_bits, b_bits);
    lemma_pow2_adds((c_bits - 1) as nat, (d_bits - 1) as nat);
    lemma_pow2_pos(a_bits);
    lemma_pow2_pos(b_bits);
    if a_bits + b_bits < low {
        lemma_pow2_strictly_increases(a_bits + b_bits, low);
    }
    assert(a * b < pow2(a_bits) * pow2(b_bits)) by (nonlinear_arith)
        requires
            a < pow2(a_bits),
            b < pow2(b_bits),
    ;
    assert(pow2((c_bits - 1) as nat) * pow2((d_bits - 1) as nat) <= c * d) by (nonlinear_arith)
        requires
            pow2((c_bits - 1) as nat) <= c,
            pow2((d_bits - 1) as nat) <= d,
    ;
}

/// No fraction is negative.
proof fn lemma_fraction_non_negative(a: nat, b: nat)
    requires
        b > 0,
    ensures
        fraction(a, b) >= 0real,
{
    let (ar, br) = (a as real, b as real);
    assert(ar / br >= 0real) by (nonlinear_arith)
        requires
            ar >= 0real,
            br > 0real,
    ;
}

impl Ratio {
    #[verifier::type_invariant]
    spec fn nonzero_denominator(self) -> bool {
        big_value(self.den) > 0
    }

    /// The numerator.
    pub closed spec fn numerator(&self) -> nat {
        big_value(self.num)
    }

    /// The denominator.
    pub closed spec fn denominator(&self) -> nat {
        big_value(self.den)
    }

    /// The fraction whose numerator and denominator have the given digits in
    /// base 2^32, the least significant first; none where the denominator
    /// would be zero.
    pub fn from_digits(num: &[u32], den: &[u32]) -> (r: Option<Ratio>)
        ensures
            r is None <==> digits_value(den@) == 0,
            r matches Some(q) ==> q.numerator() == digits_value(num@) && q.denominator()
                == digits_value(den@),
    {
        let none: [u32; 0] = [];
        let zero = big_from_digits(none.as_slice());
        assert(digits_value(none@) == 0);
        let den = big_from_digits(den);
        if big_less(&zero, &den) {
            Some(Ratio { num: big_from_digits(num), den })
        } else {
            None
        }
    }

    /// The digits of the numerator in base 2^32, the least significant
    /// first and the most significant not zero.
    pub fn numerator_digits(&self) -> (r: Vec<u32>)
        ensures
            digits_value(r@) == self.numerator(),
            r@.len() > 0 ==> r@.last() != 0,
    {
        big_to_digits(&self.num)
    }

    /// The digits of the denominator in base 2^32, the least significant
    /// first and the most significant not zero.
    pub fn denominator_digits(&self) -> (r: Vec<u32>)
        ensures
            digits_value(r@) == self.denominator(),
            r@.len() > 0 && r@.last() != 0,
    {
        proof {
            use_type_invariant(self);
        }
        big_to_digits(&self.den)
    }
}

impl Scalar for Ratio {
    open spec fn value(&self) -> real {
        if self.denominator() > 0 {
            fraction(self.numerator(), self.denominator())
        } else {
            0real
        }
    }

    open spec fn fits(v: real) -> bool {
        true
    }

    proof fn lemma_non_negative(&self) {
        if self.denominator() > 0 {
            lemma_fraction_non_negative(self.numerator(), self.denominator());
        }
    }

    fn zero() -> (r: Self) {
        let none: [u32; 0] = [];
        let unit: [u32; 1] = [1];
        assert(digits_value(none@) == 0);
        proof {
            lemma_digits_value_single(unit@);
        }
        let r = Ratio {
            num: big_from_digits(none.as_slice()),
            den: big_from_digits(unit.as_slice()),
        };
        proof {
            lemma_fraction_over_one(0);
        }
        r
    }

    fn one() -> (r: Self) {
        let unit: [u32; 1] = [1];
        proof {
            lemma_digits_value_single(unit@);
        }
        let r = Ratio {
            num: big_from_digits(unit.as_slice()),
            den: big_from_digits(unit.as_slice()),
        };
        proof {
            lemma_fraction_over_one(1);
        }
        r
    }

    fn times(&self, rhs: &Self) -> (r: Self) {
        proof {
            use_type_invariant(self);
            use_type_invariant(rhs);
            lemma_fraction_product(
                self.numerator(),
                self.denominator(),
                rhs.numerator(),
                rhs.denominator(),
            );
        }
        Ratio { num: big_mul(&self.num, &rhs.num), den: big_mul(&self.den, &rhs.den) }
    }

    fn less(&self, rhs: &Self) -> (r: bool) {
        proof {
            use_type_invariant(self);
            use_type_invariant(rhs);
            lemma_fraction_order(
                self.numerator(),
                self.denominator(),
                rhs.numerator(),
                rhs.denominator(),
            );
        }
        let (a, b) = (big_bits(&self.num), big_bits(&self.den));
        let (c, d) = (big_bits(&rhs.num), big_bits(&rhs.den));
        proof {
            lemma2_to64();
        }
        let left: u128 = a as u128 + d as u128;
        let right: u128 = c as u128 + b as u128;
        if c > 0 && left + 2 <= right {
            proof {
                lemma_product_by_bits(
                    self.numerator(),
                    rhs.denominator(),
                    a as nat,
                    d as nat,
                    rhs.numerator(),
                    self.denominator(),
                    c as nat,
                    b as nat,
                );
            }
            return true;
        }
        if a > 0 && right + 2 <= left {
            proof {
                lemma_product_by_bits(
                    rhs.numerator(),
                    self.denominator(),
                    c as nat,
                    b as nat,
                    self.numerator(),
                    rhs.denominator(),
                    a as nat,
                    d as nat,
                );
            }
            return false;
        }
        big_less(&big_mul(&self.num, &rhs.den), &big_mul(&rhs.num, &self.den))
    }

    fn dup(&self) -> (r: Self) {
        proof {
            use_type_invariant(self);
        }
        let num = big_to_digits(&self.num);
        let den = big_to_digits(&self.den);
        Ratio { num: big_from_digits(num.as_slice()), den: big_from_digits(den.as_slice()) }
    }
}

} // verus!
