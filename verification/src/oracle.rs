//! What the searched-for range is, and the two exhaustive searches that find
//! it by trying every range.
use crate::scalar::{lemma_values_non_negative, products_fit, values, Scalar};
use crate::span::{is_range, lemma_span_single, non_negative, span_product};
use vstd::prelude::*;

verus! {

/// Whether range `(p, q)` comes before range `(i, j)` in the order in which an
/// exhaustive search visits them: by start, and for one start by end.
pub open spec fn precedes(p: int, q: int, i: int, j: int) -> bool {
    p < i || (p == i && q < j)
}

/// `(i, j)` is the first range of maximal product: no range has a larger
/// product, and every range visited before it has a smaller one.
pub open spec fn is_first_max(v: Seq<real>, i: int, j: int) -> bool {
    &&& is_range(v, i, j)
    &&& forall|p: int, q: int|
        is_range(v, p, q) ==> #[trigger] span_product(v, p, q) <= span_product(v, i, j)
    &&& forall|p: int, q: int|
        is_range(v, p, q) && precedes(p, q, i, j) ==> #[trigger] span_product(v, p, q)
            < span_product(v, i, j)
}

/// The first range of maximal product of a non-empty `v`.
pub open spec fn first_max_range(v: Seq<real>) -> (int, int) {
    choose|r: (int, int)| is_first_max(v, r.0, r.1)
}

/// At most one range is the first of maximal product: searches that each
/// return such a range return the same one.
pub proof fn lemma_first_max_unique(v: Seq<real>, i: int, j: int, p: int, q: int)
    requires
        is_first_max(v, i, j),
        is_first_max(v, p, q),
    ensures
        i == p,
        j == q,
{
    if precedes(p, q, i, j) {
        assert(span_product(v, p, q) < span_product(v, i, j));
        assert(span_product(v, i, j) <= span_product(v, p, q));
    } else if precedes(i, j, p, q) {
        assert(span_product(v, i, j) < span_product(v, p, q));
        assert(span_product(v, p, q) <= span_product(v, i, j));
    }
}

/// A range that is the first of maximal product is the one that
/// `first_max_range` names.
pub proof fn lemma_first_max_named(v: Seq<real>, i: int, j: int)
    requires
        is_first_max(v, i, j),
    ensures
        first_max_range(v) == (i, j),
{
    let found = (i, j);
    assert(is_first_max(v, found.0, found.1));
    let r = first_max_range(v);
    lemma_first_max_unique(v, i, j, r.0, r.1);
}

/// Among the ranges visited before `(i, j)`, none has a product above `m`;
/// and where `m` is positive, `(a, b)` is the first of them with product `m`.
/// Where `m` is zero, `(a, b)` is still `(0, 0)`.
spec fn is_first_max_before(
    v: Seq<real>,
    i: int,
    j: int,
    a: int,
    b: int,
    m: real,
) -> bool {
    &&& forall|p: int, q: int|
        is_range(v, p, q) && precedes(p, q, i, j) ==> #[trigger] span_product(v, p, q) <= m
    &&& if m > 0real {
        &&& is_range(v, a, b)
        &&& precedes(a, b, i, j)
        &&& span_product(v, a, b) == m
        &&& forall|p: int, q: int|
            is_range(v, p, q) && precedes(p, q, a, b) ==> #[trigger] span_product(v, p, q) < m
    } else {
        a == 0 && b == 0 && m == 0real
    }
}

/// Once every range has been visited, the first of maximal product is known.
proof fn lemma_first_max_after_all(v: Seq<real>, a: int, b: int, m: real)
    requires
        v.len() > 0,
        non_negative(v),
        is_first_max_before(v, v.len() as int, v.len() as int, a, b, m),
    ensures
        is_first_max(v, a, b),
        first_max_range(v) == (a, b),
{
    if m > 0real {
    } else {
        lemma_span_single(v, 0);
    }
    lemma_first_max_named(v, a, b);
}

/// The best range among those visited before `(i, j)`, with its product, as
/// an exhaustive search finds it.
proof fn first_max_before(v: Seq<real>, i: int, j: int) -> (r: (int, int, real))
    requires
        0 <= i <= j <= v.len(),
        i < v.len() || j == v.len(),
    ensures
        is_first_max_before(v, i, j, r.0, r.1, r.2),
    decreases i, j,
{
    if j > i {
        let (a, b, m) = first_max_before(v, i, j - 1);
        if span_product(v, i, j - 1) > m {
            (i, j - 1, span_product(v, i, j - 1))
        } else {
            (a, b, m)
        }
    } else if i > 0 {
        first_max_before(v, i - 1, v.len() as int)
    } else {
        (0, 0, 0real)
    }
}

/// Every non-empty sequence of non-negative numbers has a first range of
/// maximal product, and `first_max_range` names it.
pub proof fn lemma_first_max_exists(v: Seq<real>)
    requires
        v.len() > 0,
        non_negative(v),
    ensures
        is_first_max(v, first_max_range(v).0, first_max_range(v).1),
{
    let (a, b, m) = first_max_before(v, v.len() as int, v.len() as int);
    lemma_first_max_after_all(v, a, b, m);
}

/// Every product `v[start] * .. * v[k]`, for `k` up to `end`, is one that `T`
/// can hold.
pub open spec fn prefixes_fit<T: Scalar>(v: Seq<real>, start: int, end: int) -> bool {
    forall|k: int| start <= k <= end ==> T::fits(#[trigger] span_product(v, start, k))
}

/// The product of `arr[i], .., arr[j]`; one where `i` is above `j`.
///
/// The product is exact where the type can hold it and every product on the
/// way to it.
pub fn prod<T: Scalar>(arr: &[T], i: usize, j: usize) -> (r: T)
    requires
        i <= j ==> j < arr.len(),
    ensures
        prefixes_fit::<T>(values(arr@), i as int, j as int) ==> r.value() == span_product(
            values(arr@),
            i as int,
            j as int,
        ),
{
    let ghost v = values(arr@);
    let mut prod = T::one();
    if i > j {
        return prod;
    }
    let mut k: usize = i;
    while k <= j
        invariant
            v == values(arr@),
            i <= k <= j + 1,
            j < arr.len(),
            prefixes_fit::<T>(v, i as int, j as int) ==> prod.value() == span_product(
                v,
                i as int,
                k - 1,
            ),
        decreases j + 1 - k,
    {
        assert(span_product(v, i as int, k as int) == span_product(v, i as int, k - 1)
            * v[k as int]);
        prod = prod.times(&arr[k]);
        k += 1;
    }
    prod
}

/// Finds the first range of maximal product by trying every range and
/// multiplying out each one from scratch.
///
/// Where a product does not fit the type, the range returned is still a
/// range of the sequence, but need not be the one of maximal product.
pub fn max_prod_brute_force<T: Scalar>(arr: &[T]) -> (r: (usize, usize))
    ensures
        arr.len() == 0 ==> r == (0usize, 0usize),
        arr.len() > 0 ==> r.0 <= r.1 < arr.len(),
        arr.len() > 0 && products_fit::<T>(values(arr@)) ==> is_first_max(
            values(arr@),
            r.0 as int,
            r.1 as int,
        ),
        arr.len() > 0 && products_fit::<T>(values(arr@)) ==> (r.0 as int, r.1 as int)
            == first_max_range(values(arr@)),
{
    let ghost v = values(arr@);
    proof {
        lemma_values_non_negative(arr@);
    }
    let mut max_prod = T::zero();
    let mut max: (usize, usize) = (0, 0);
    let n = arr.len();

    let mut i: usize = 0;
    while i < n
        invariant
            n == arr.len(),
            v == values(arr@),
            i <= n,
            max.0 <= max.1,
            n > 0 ==> max.1 < n,
            n == 0 ==> max == (0usize, 0usize),
            products_fit::<T>(v) ==> is_first_max_before(
                v,
                i as int,
                i as int,
                max.0 as int,
                max.1 as int,
                max_prod.value(),
            ),
        decreases n - i,
    {
        let mut j: usize = i;
        while j < n
            invariant
                n == arr.len(),
                v == values(arr@),
                i <= j <= n,
                i < n,
                max.0 <= max.1 < n,
                products_fit::<T>(v) ==> is_first_max_before(
                    v,
                    i as int,
                    j as int,
                    max.0 as int,
                    max.1 as int,
                    max_prod.value(),
                ),
            decreases n - j,
        {
            let mut prod = T::one();
            let mut k: usize = i;
            while k <= j
                invariant
                    v == values(arr@),
                    i <= k <= j + 1,
                    j < arr.len(),
                    products_fit::<T>(v) ==> prod.value() == span_product(v, i as int, k - 1),
                decreases j + 1 - k,
            {
                assert(span_product(v, i as int, k as int) == span_product(v, i as int, k - 1)
                    * v[k as int]);
                prod = prod.times(&arr[k]);
                k += 1;
            }

            if max_prod.less(&prod) {
                max_prod = prod;
                max = (i, j);
            }
            j += 1;
        }
        i += 1;
    }

    proof {
        if n > 0 && products_fit::<T>(v) {
            lemma_first_max_after_all(v, max.0 as int, max.1 as int, max_prod.value());
        }
    }
    max
}

/// Finds the first range of maximal product by trying every range, carrying
/// the product along while the end of the range moves.
///
/// Where a product does not fit the type, the range returned is still a
/// range of the sequence, but need not be the one of maximal product.
pub fn max_prod_brute_force_improved<T: Scalar>(arr: &[T]) -> (r: (usize, usize))
    ensures
        arr.len() == 0 ==> r == (0usize, 0usize),
        arr.len() > 0 ==> r.0 <= r.1 < arr.len(),
        arr.len() > 0 && products_fit::<T>(values(arr@)) ==> is_first_max(
            values(arr@),
            r.0 as int,
            r.1 as int,
        ),
        arr.len() > 0 && products_fit::<T>(values(arr@)) ==> (r.0 as int, r.1 as int)
            == first_max_range(values(arr@)),
{
    let ghost v = values(arr@);
    proof {
        lemma_values_non_negative(arr@);
    }
    let mut max_prod = T::zero();
    let mut max: (usize, usize) = (0, 0);
    let n = arr.len();

    let mut i: usize = 0;
    while i < n
        invariant
            n == arr.len(),
            v == values(arr@),
            i <= n,
            max.0 <= max.1,
            n > 0 ==> max.1 < n,
            n == 0 ==> max == (0usize, 0usize),
            products_fit::<T>(v) ==> is_first_max_before(
                v,
                i as int,
                i as int,
                max.0 as int,
                max.1 as int,
                max_prod.value(),
            ),
        decreases n - i,
    {
        let mut prod = T::one();
        let mut j: usize = i;
        while j < n
            invariant
                n == arr.len(),
                v == values(arr@),
                i <= j <= n,
                i < n,
                max.0 <= max.1 < n,
                products_fit::<T>(v) ==> prod.value() == span_product(v, i as int, j - 1),
                products_fit::<T>(v) ==> is_first_max_before(
                    v,
                    i as int,
                    j as int,
                    max.0 as int,
                    max.1 as int,
                    max_prod.value(),
                ),
            decreases n - j,
        {
            assert(span_product(v, i as int, j as int) == span_product(v, i as int, j - 1)
                * v[j as int]);
            prod = prod.times(&arr[j]);

            if max_prod.less(&prod) {
                max_prod = prod.dup();
                max = (i, j);
            }
            j += 1;
        }
        i += 1;
    }

    proof {
        if n > 0 && products_fit::<T>(v) {
            lemma_first_max_after_all(v, max.0 as int, max.1 as int, max_prod.value());
        }
    }
    max
}

} // verus!
