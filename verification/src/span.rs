//! Products over inclusive index ranges, and the facts about them that the
//! searches rest on.
use vstd::prelude::*;

verus! {

/// The product of `v[start], .., v[end]`, both ends included; 1 where the
/// range is empty.
pub open spec fn span_product(v: Seq<real>, start: int, end: int) -> real
    decreases end - start + 1,
{
    if end < start {
        1real
    } else {
        span_product(v, start, end - 1) * v[end]
    }
}

/// Every element is at least zero.
pub open spec fn non_negative(v: Seq<real>) -> bool {
    forall|k: int| 0 <= k < v.len() ==> #[trigger] v[k] >= 0real
}

/// Every element is zero or at least one.
pub open spec fn whole(v: Seq<real>) -> bool {
    forall|k: int| 0 <= k < v.len() ==> #[trigger] v[k] == 0real || v[k] >= 1real
}

/// `(start, end)` names a non-empty range of positions of `v`.
pub open spec fn is_range(v: Seq<real>, start: int, end: int) -> bool {
    0 <= start <= end < v.len()
}

/// Every element of `v[start..=end]` is at least one.
pub open spec fn all_above(v: Seq<real>, start: int, end: int) -> bool {
    forall|k: int| start <= k <= end ==> #[trigger] v[k] >= 1real
}

/// Every element of `v[start..=end]` is at least zero and below one.
pub open spec fn all_below(v: Seq<real>, start: int, end: int) -> bool {
    forall|k: int| start <= k <= end ==> 0real <= #[trigger] v[k] < 1real
}

/// The product of a range of one element is that element.
pub proof fn lemma_span_single(v: Seq<real>, i: int)
    ensures
        span_product(v, i, i) == v[i],
{
    assert(span_product(v, i, i - 1) == 1real);
}

/// A range splits into a left part and a right part.
pub proof fn lemma_span_split(v: Seq<real>, start: int, mid: int, end: int)
    requires
        start <= mid + 1,
        mid <= end,
    ensures
        span_product(v, start, end) == span_product(v, start, mid) * span_product(v, mid + 1, end),
    decreases end - mid,
{
    let left = span_product(v, start, mid);
    if end == mid {
        assert(span_product(v, mid + 1, end) == 1real);
    } else {
        lemma_span_split(v, start, mid, end - 1);
        let right = span_product(v, mid + 1, end - 1);
        let x = v[end];
        assert((left * right) * x == left * (right * x)) by (nonlinear_arith);
    }
}

/// A product of elements that are not negative is not negative.
pub proof fn lemma_span_non_negative(v: Seq<real>, start: int, end: int)
    requires
        0 <= start,
        end < v.len(),
        non_negative(v),
    ensures
        span_product(v, start, end) >= 0real,
    decreases end - start + 1,
{
    if end >= start {
        lemma_span_non_negative(v, start, end - 1);
        let p = span_product(v, start, end - 1);
        let x = v[end];
        assert(p * x >= 0real) by (nonlinear_arith)
            requires
                p >= 0real,
                x >= 0real,
        ;
    }
}

/// A product of elements at or above one is at or above one.
pub proof fn lemma_span_above(v: Seq<real>, start: int, end: int)
    requires
        all_above(v, start, end),
    ensures
        span_product(v, start, end) >= 1real,
    decreases end - start + 1,
{
    if end >= start {
        lemma_span_above(v, start, end - 1);
        let p = span_product(v, start, end - 1);
        let x = v[end];
        assert(p * x >= 1real) by (nonlinear_arith)
            requires
                p >= 1real,
                x >= 1real,
        ;
    }
}

/// A product of elements below one, of which there is at least one, is below
/// one.
pub proof fn lemma_span_below(v: Seq<real>, start: int, end: int)
    requires
        start <= end,
        all_below(v, start, end),
    ensures
        0real <= span_product(v, start, end) < 1real,
    decreases end - start + 1,
{
    let x = v[end];
    if end == start {
        lemma_span_single(v, start);
    } else {
        lemma_span_below(v, start, end - 1);
        let p = span_product(v, start, end - 1);
        assert(0real <= p * x < 1real) by (nonlinear_arith)
            requires
                0real <= p < 1real,
                0real <= x < 1real,
        ;
    }
}

/// A range that holds a zero has product zero.
pub proof fn lemma_span_zero(v: Seq<real>, start: int, at: int, end: int)
    requires
        start <= at <= end,
        v[at] == 0real,
    ensures
        span_product(v, start, end) == 0real,
{
    lemma_span_split(v, start, at, end);
    let p = span_product(v, start, at - 1);
    let q = span_product(v, at + 1, end);
    assert(span_product(v, start, at) == p * v[at]);
    assert((p * 0real) * q == 0real) by (nonlinear_arith);
}

/// A product of elements below one, or of none, is at most one.
pub proof fn lemma_span_at_most_one(v: Seq<real>, start: int, end: int)
    requires
        all_below(v, start, end),
    ensures
        0real <= span_product(v, start, end) <= 1real,
{
    if start <= end {
        lemma_span_below(v, start, end);
    }
}

/// Elements at or above one on the right do not lower a product.
pub proof fn lemma_span_grows_right(v: Seq<real>, start: int, mid: int, end: int)
    requires
        non_negative(v),
        0 <= start <= mid + 1,
        mid <= end < v.len(),
        all_above(v, mid + 1, end),
    ensures
        span_product(v, start, mid) <= span_product(v, start, end),
{
    lemma_span_split(v, start, mid, end);
    lemma_span_non_negative(v, start, mid);
    lemma_span_above(v, mid + 1, end);
    let left = span_product(v, start, mid);
    let right = span_product(v, mid + 1, end);
    assert(left <= left * right) by (nonlinear_arith)
        requires
            left >= 0real,
            right >= 1real,
    ;
}

/// Elements below one on the right do not raise a product.
pub proof fn lemma_span_shrinks_right(v: Seq<real>, start: int, mid: int, end: int)
    requires
        non_negative(v),
        0 <= start <= mid + 1,
        mid <= end < v.len(),
        all_below(v, mid + 1, end),
    ensures
        span_product(v, start, end) <= span_product(v, start, mid),
{
    lemma_span_split(v, start, mid, end);
    lemma_span_non_negative(v, start, mid);
    lemma_span_at_most_one(v, mid + 1, end);
    let left = span_product(v, start, mid);
    let right = span_product(v, mid + 1, end);
    assert(left * right <= left) by (nonlinear_arith)
        requires
            left >= 0real,
            0real <= right <= 1real,
    ;
}

/// Elements at or above one on the left do not lower a product.
pub proof fn lemma_span_grows_left(v: Seq<real>, start: int, mid: int, end: int)
    requires
        non_negative(v),
        0 <= start <= mid + 1,
        mid <= end < v.len(),
        all_above(v, start, mid),
    ensures
        span_product(v, mid + 1, end) <= span_product(v, start, end),
{
    lemma_span_split(v, start, mid, end);
    lemma_span_non_negative(v, mid + 1, end);
    lemma_span_above(v, start, mid);
    let left = span_product(v, start, mid);
    let right = span_product(v, mid + 1, end);
    assert(right <= left * right) by (nonlinear_arith)
        requires
            right >= 0real,
            left >= 1real,
    ;
}

/// Elements below one on the left do not raise a product.
pub proof fn lemma_span_shrinks_left(v: Seq<real>, start: int, mid: int, end: int)
    requires
        non_negative(v),
        0 <= start <= mid + 1,
        mid <= end < v.len(),
        all_below(v, start, mid),
    ensures
        span_product(v, start, end) <= span_product(v, mid + 1, end),
{
    lemma_span_split(v, start, mid, end);
    lemma_span_non_negative(v, mid + 1, end);
    lemma_span_at_most_one(v, start, mid);
    let left = span_product(v, start, mid);
    let right = span_product(v, mid + 1, end);
    assert(left * right <= right) by (nonlinear_arith)
        requires
            right >= 0real,
            0real <= left <= 1real,
    ;
}

} // verus!
