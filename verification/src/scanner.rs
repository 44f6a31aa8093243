//! The linear search over whole numbers, which never multiplies across a
//! zero.
use crate::oracle::{first_max_range, is_first_max, lemma_first_max_named, precedes};
use crate::scalar::{
    lemma_values_non_negative, lemma_values_whole, products_fit, values, Natural, Scalar,
};
use crate::span::{
    all_above, is_range, lemma_span_above, lemma_span_non_negative, lemma_span_single,
    lemma_span_split, lemma_span_zero, non_negative, span_product, whole,
};
use vstd::prelude::*;

verus! {

/// Among the ranges that end before `upto`, none has a product above `m`; and
/// where `m` is positive, `(i, j)` is the first of them with product `m`.
/// Where `m` is zero, `(i, j)` is still `(0, 0)`.
spec fn is_first_max_ending_before(
    v: Seq<real>,
    upto: int,
    i: int,
    j: int,
    m: real,
) -> bool {
    &&& forall|p: int, q: int|
        is_range(v, p, q) && q < upto ==> #[trigger] span_product(v, p, q) <= m
    &&& if m > 0real {
        &&& is_range(v, i, j)
        &&& j < upto
        &&& span_product(v, i, j) == m
        &&& forall|p: int, q: int|
            is_range(v, p, q) && q < upto && precedes(p, q, i, j) ==> #[trigger] span_product(
                v,
                p,
                q,
            ) < m
    } else {
        i == 0 && j == 0 && m == 0real
    }
}

/// Of the ranges that end at `end`, those that start inside the zero-free run
/// `start..=end` have at most the product of the whole run, and those that
/// start before it have product zero.
proof fn lemma_ranges_ending_in_run(v: Seq<real>, start: int, end: int)
    requires
        non_negative(v),
        is_range(v, start, end),
        all_above(v, start, end),
        start == 0 || v[start - 1] == 0real,
    ensures
        span_product(v, start, end) >= 1real,
        forall|p: int|
            0 <= p <= end ==> #[trigger] span_product(v, p, end) <= span_product(v, start, end),
        forall|p: int| 0 <= p < start ==> #[trigger] span_product(v, p, end) == 0real,
{
    lemma_span_above(v, start, end);
    assert forall|p: int| 0 <= p <= end implies #[trigger] span_product(v, p, end) <= span_product(
        v,
        start,
        end,
    ) && (p < start ==> span_product(v, p, end) == 0real) by {
        if p < start {
            lemma_span_zero(v, p, start - 1, end);
        } else {
            lemma_span_split(v, start, p - 1, end);
            lemma_span_above(v, start, p - 1);
            lemma_span_non_negative(v, p, end);
            let head = span_product(v, start, p - 1);
            let tail = span_product(v, p, end);
            assert(tail <= head * tail) by (nonlinear_arith)
                requires
                    head >= 1real,
                    tail >= 0real,
            ;
        }
    }
}

/// Finds the first range of maximal product in a sequence of whole numbers,
/// in one pass.
///
/// The pass keeps the product of the zero-free run that it is in, and takes
/// that run up to the current position as the answer whenever its product
/// exceeds the best one so far. Where a product does not fit the type, the
/// range returned is still a range of the sequence, but need not be the one
/// of maximal product.
pub fn max_prod_fast_int<T: Natural>(arr: &[T]) -> (r: (usize, usize))
    requires
        arr.len() > 0,
    ensures
        r.0 <= r.1 < arr.len(),
        products_fit::<T>(values(arr@)) ==> is_first_max(values(arr@), r.0 as int, r.1 as int),
        products_fit::<T>(values(arr@)) ==> (r.0 as int, r.1 as int) == first_max_range(
            values(arr@),
        ),
{
    let n = arr.len();
    let ghost v = values(arr@);
    proof {
        lemma_values_non_negative(arr@);
        lemma_values_whole(arr@);
    }
    let zero = T::zero();
    let mut max_prod = T::zero();
    let mut max: (usize, usize) = (0, 0);
    let mut current: (usize, usize) = (0, 0);
    let mut current_prod = T::zero();

    let mut i: usize = 0;
    while i < n
        invariant
            0 < n == arr.len(),
            v == values(arr@),
            non_negative(v),
            whole(v),
            zero.value() == 0real,
            i <= n,
            max.0 <= max.1 < n,
            current.0 <= current.1,
            i > 0 ==> current.1 == i - 1,
            i == 0 ==> current.1 == 0,
            products_fit::<T>(v) ==> {
                &&& is_first_max_ending_before(
                    v,
                    i as int,
                    max.0 as int,
                    max.1 as int,
                    max_prod.value(),
                )
                &&& current_prod.value() == 0real || current_prod.value() >= 1real
                &&& current_prod.value() == 0real ==> i == 0 || v[i - 1] == 0real
                &&& current_prod.value() > 0real ==> {
                    &&& i > 0
                    &&& current_prod.value() == span_product(
                        v,
                        current.0 as int,
                        current.1 as int,
                    )
                    &&& all_above(v, current.0 as int, current.1 as int)
                    &&& current.0 == 0 || v[current.0 - 1] == 0real
                }
                &&& current_prod.value() > 0real && max_prod.value() > 0real ==> max.0
                    == current.0 || max.1 < current.0
            },
        decreases n - i,
    {
        if zero.less(&arr[i]) {
            if !zero.less(&current_prod) {
                current_prod = T::one();
                current.0 = i;
            }
            assert(span_product(v, current.0 as int, i as int) == span_product(
                v,
                current.0 as int,
                i - 1,
            ) * v[i as int]);
            current_prod = current_prod.times(&arr[i]);
            current.1 = i;
            proof {
                if products_fit::<T>(v) {
                    lemma_ranges_ending_in_run(v, current.0 as int, i as int);
                }
            }
        } else {
            current = (i, i);
            current_prod = T::zero();
            assert forall|p: int| 0 <= p <= i implies #[trigger] span_product(v, p, i as int)
                == 0real by {
                lemma_span_zero(v, p, i as int, i as int);
            }
        }

        if max_prod.less(&current_prod) {
            max = current;
            max_prod = current_prod.dup();
        }
        i += 1;
    }

    proof {
        if products_fit::<T>(v) {
            if max_prod.value() == 0real {
                lemma_span_single(v, 0);
            }
            lemma_first_max_named(v, max.0 as int, max.1 as int);
        }
    }
    max
}

} // verus!
