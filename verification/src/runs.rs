//! Compression of a sequence into alternating runs of elements below one and
//! elements at or above one.
use crate::scalar::{lemma_values_non_negative, products_fit, values, Scalar};
use crate::span::{
    all_above, is_range, lemma_span_above, lemma_span_single, non_negative, span_product,
};
use vstd::prelude::*;

verus! {

/// Whether an element counts as at or above one.
pub open spec fn above(x: real) -> bool {
    x >= 1real
}

/// The first position at or after `from` whose element is at or above one;
/// the length of `v` where there is none.
pub open spec fn leading_below(v: Seq<real>, from: int) -> int
    decreases v.len() - from,
{
    if 0 <= from < v.len() && !above(v[from]) {
        leading_below(v, from + 1)
    } else {
        from
    }
}

/// The first position at which `v[0..=upto]` takes its largest value.
pub open spec fn first_peak(v: Seq<real>, upto: int) -> int
    decreases upto,
{
    if upto <= 0 {
        0
    } else {
        let before = first_peak(v, upto - 1);
        if v[upto] > v[before] {
            upto
        } else {
            before
        }
    }
}

/// The last position of the maximal run that starts at `at`: the elements
/// from `at` to there lie on one side of one, and the next one, if any, lies
/// on the other.
pub open spec fn run_end(v: Seq<real>, at: int) -> int
    decreases v.len() - at,
{
    if 0 <= at && at + 1 < v.len() && above(v[at + 1]) == above(v[at]) {
        run_end(v, at + 1)
    } else {
        at
    }
}

/// The maximal runs of `v` from position `at` to the end, each as its
/// product, its first position and its last position.
pub open spec fn runs_from(v: Seq<real>, at: int) -> Seq<(real, int, int)>
    decreases v.len() - at,
    via runs_from_decreases
{
    if 0 <= at < v.len() {
        let end = run_end(v, at);
        seq![(span_product(v, at, end), at, end)] + runs_from(v, end + 1)
    } else {
        Seq::empty()
    }
}

#[via_fn]
proof fn runs_from_decreases(v: Seq<real>, at: int) {
    if 0 <= at < v.len() {
        lemma_run_end(v, at);
    }
}

/// The compressed form of a non-empty `v`.
///
/// Where every element is below one, it is the single run made of the first
/// largest element. Otherwise it holds the maximal runs from the first
/// element at or above one onwards, without the last of them unless the
/// product of that one exceeds one.
pub open spec fn compress(v: Seq<real>) -> Seq<(real, int, int)> {
    let lead = leading_below(v, 0);
    if lead >= v.len() {
        let peak = first_peak(v, v.len() - 1);
        seq![(v[peak], peak, peak)]
    } else {
        let all = runs_from(v, lead);
        if all.last().0 > 1real {
            all
        } else {
            all.drop_last()
        }
    }
}

/// From its first element at or above one onwards, `v` holds nothing but
/// ones: the one shape of input that compresses to no run at all.
pub open spec fn ends_in_ones(v: Seq<real>) -> bool {
    &&& leading_below(v, 0) < v.len()
    &&& forall|k: int| leading_below(v, 0) <= k < v.len() ==> #[trigger] v[k] == 1real
}

/// What a list of runs held in memory stands for.
pub open spec fn run_views<T: Scalar>(runs: Seq<(T, usize, usize)>) -> Seq<(real, int, int)> {
    Seq::new(runs.len(), |k: int| (runs[k].0.value(), runs[k].1 as int, runs[k].2 as int))
}

/// A run ends at or after its start, inside `v`; its elements lie on the side
/// of its first one, and the element behind it lies on the other side.
pub proof fn lemma_run_end(v: Seq<real>, at: int)
    requires
        0 <= at < v.len(),
    ensures
        at <= run_end(v, at) < v.len(),
        forall|k: int| at <= k <= run_end(v, at) ==> above(#[trigger] v[k]) == above(v[at]),
        run_end(v, at) + 1 < v.len() ==> above(v[run_end(v, at) + 1]) != above(v[at]),
    decreases v.len() - at,
{
    if at + 1 < v.len() && above(v[at + 1]) == above(v[at]) {
        lemma_run_end(v, at + 1);
    }
}

/// Each run is a range of `v` with its product, and each run but the first
/// starts right behind the one before it.
pub open spec fn is_chain(v: Seq<real>, runs: Seq<(real, int, int)>) -> bool {
    &&& forall|k: int|
        0 <= k < runs.len() ==> is_range(v, (#[trigger] runs[k]).1, runs[k].2) && runs[k].0
            == span_product(v, runs[k].1, runs[k].2)
    &&& forall|k: int| 0 <= k < runs.len() - 1 ==> (#[trigger] runs[k + 1]).1 == runs[k].2 + 1
}

/// The first largest element of `v[0..=upto]` lies in that range.
pub proof fn lemma_first_peak_in_range(v: Seq<real>, upto: int)
    ensures
        0 <= first_peak(v, upto),
        upto >= 0 ==> first_peak(v, upto) <= upto,
    decreases upto,
{
    if upto > 0 {
        lemma_first_peak_in_range(v, upto - 1);
    }
}

/// The maximal runs from a position onwards form a chain that starts there.
pub proof fn lemma_runs_from_chain(v: Seq<real>, at: int)
    requires
        0 <= at <= v.len(),
    ensures
        is_chain(v, runs_from(v, at)),
        at < v.len() ==> runs_from(v, at).len() > 0 && runs_from(v, at)[0].1 == at
            && runs_from(v, at).last().2 == v.len() - 1,
        at == v.len() ==> runs_from(v, at).len() == 0,
    decreases v.len() - at,
{
    if at < v.len() {
        lemma_run_end(v, at);
        let end = run_end(v, at);
        lemma_runs_from_chain(v, end + 1);
        let rest = runs_from(v, end + 1);
        let runs = runs_from(v, at);
        assert(runs =~= seq![(span_product(v, at, end), at, end)] + rest);
        assert forall|k: int| 0 <= k < runs.len() implies is_range(
            v,
            (#[trigger] runs[k]).1,
            runs[k].2,
        ) && runs[k].0 == span_product(v, runs[k].1, runs[k].2) by {
            if k > 0 {
                assert(runs[k] == rest[k - 1]);
            }
        }
        assert forall|k: int| 0 <= k < runs.len() - 1 implies (#[trigger] runs[k + 1]).1
            == runs[k].2 + 1 by {
            assert(runs[k + 1] == rest[k]);
            if k > 0 {
                assert(runs[k] == rest[k - 1]);
                assert(rest[k - 1 + 1].1 == rest[k - 1].2 + 1);
            } else {
                assert(runs[0] == (span_product(v, at, end), at, end));
            }
        }
        if rest.len() > 0 {
            assert(runs.last() == rest.last());
        }
    }
}

/// The compressed form of a sequence is a chain.
pub proof fn lemma_compress_chain(v: Seq<real>)
    requires
        v.len() > 0,
    ensures
        is_chain(v, compress(v)),
{
    let lead = leading_below(v, 0);
    lemma_leading_below_in_range(v, 0);
    if lead >= v.len() {
        let peak = first_peak(v, v.len() - 1);
        lemma_first_peak_in_range(v, v.len() - 1);
        lemma_span_single(v, peak);
    } else {
        lemma_runs_from_chain(v, lead);
    }
}

/// The first element at or above one, looked for from `from` onwards, lies
/// at or behind `from`.
pub proof fn lemma_leading_below_in_range(v: Seq<real>, from: int)
    requires
        0 <= from <= v.len(),
    ensures
        from <= leading_below(v, from) <= v.len(),
    decreases v.len() - from,
{
    if from < v.len() && !above(v[from]) {
        lemma_leading_below_in_range(v, from + 1);
    }
}

/// Elements at or above one whose product does not exceed one are all ones.
pub proof fn lemma_span_of_ones(v: Seq<real>, start: int, end: int)
    requires
        all_above(v, start, end),
        span_product(v, start, end) <= 1real,
    ensures
        forall|k: int| start <= k <= end ==> #[trigger] v[k] == 1real,
    decreases end - start + 1,
{
    if end >= start {
        let p = span_product(v, start, end - 1);
        let x = v[end];
        lemma_span_above(v, start, end - 1);
        assert(p == 1real && x == 1real) by (nonlinear_arith)
            requires
                p >= 1real,
                x >= 1real,
                p * x <= 1real,
        ;
        lemma_span_of_ones(v, start, end - 1);
    }
}

/// Splits a sequence into runs of elements below one and runs of elements at
/// or above one, each reduced to its product and its span.
///
/// The elements below one that come before the first other element are left
/// out, and so is the last run unless its product exceeds one; where every
/// element is below one, the result is the first largest element alone.
pub fn compress_dual<T: Scalar>(arr: &[T]) -> (runs: Vec<(T, usize, usize)>)
    requires
        arr.len() > 0,
        products_fit::<T>(values(arr@)),
        !ends_in_ones(values(arr@)),
    ensures
        run_views(runs@) == compress(values(arr@)),
        runs@.len() > 0,
{
    let n = arr.len();
    let ghost v = values(arr@);
    proof {
        lemma_values_non_negative(arr@);
    }
    let one = T::one();
    let mut compressed: Vec<(T, usize, usize)> = Vec::new();
    let mut tmp_prod = T::one();
    let mut start: usize = 0;
    let mut tmp_max = T::zero();
    let mut tmp_max_idx: usize = 0;

    while start < n && arr[start].less(&one)
        invariant
            n == arr.len(),
            v == values(arr@),
            non_negative(v),
            one.value() == 1real,
            start <= n,
            tmp_max_idx < n,
            leading_below(v, 0) == leading_below(v, start as int),
            tmp_max_idx as int == first_peak(v, start - 1),
            start > 0 ==> tmp_max.value() == v[tmp_max_idx as int],
            start == 0 ==> tmp_max.value() == 0real,
        decreases n - start,
    {
        if tmp_max.less(&arr[start]) {
            tmp_max = arr[start].dup();
            tmp_max_idx = start;
        }
        start += 1;
    }

    if start == n {
        compressed.push((tmp_max, tmp_max_idx, tmp_max_idx));
        assert(run_views(compressed@) =~= compress(v));
        return compressed;
    }
    let ghost lead = start as int;
    assert(leading_below(v, 0) == lead);

    let mut smaller = false;
    let mut i: usize = start;
    while i < n
        invariant
            n == arr.len(),
            v == values(arr@),
            products_fit::<T>(v),
            one.value() == 1real,
            0 <= lead <= start <= i <= n,
            start < n,
            lead == leading_below(v, 0),
            above(v[lead]),
            start < i || (i == lead && compressed@.len() == 0),
            smaller == !above(v[start as int]),
            compressed@.len() == 0 ==> start == lead,
            run_views(compressed@) + runs_from(v, start as int) == runs_from(v, lead),
            tmp_prod.value() == span_product(v, start as int, i - 1),
            forall|k: int| start <= k < i ==> above(#[trigger] v[k]) == above(v[start as int]),
            start < i ==> run_end(v, start as int) == run_end(v, i - 1),
        decreases n - i,
    {
        let below = arr[i].less(&one);
        if below == smaller {
            assert(span_product(v, start as int, i as int) == span_product(v, start as int, i - 1)
                * v[i as int]);
            tmp_prod = tmp_prod.times(&arr[i]);
        } else {
            assert(start < i);
            assert(run_end(v, i - 1) == i - 1);
            let ghost before = run_views(compressed@);
            compressed.push((tmp_prod, start, i - 1));
            assert(run_views(compressed@) =~= before + seq![
                (span_product(v, start as int, i - 1), start as int, i - 1),
            ]);
            assert(run_views(compressed@) + runs_from(v, i as int) =~= runs_from(v, lead));
            smaller = below;
            tmp_prod = arr[i].dup();
            start = i;
            proof {
                lemma_span_single(v, i as int);
            }
        }
        i += 1;
    }

    assert(run_end(v, n - 1) == n - 1);
    assert(runs_from(v, n as int) =~= Seq::empty());
    let ghost last = (span_product(v, start as int, n - 1), start as int, n - 1);
    assert(runs_from(v, lead) =~= run_views(compressed@) + seq![last]);
    assert(runs_from(v, lead).last() == last);
    assert(runs_from(v, lead).drop_last() =~= run_views(compressed@));
    if one.less(&tmp_prod) {
        let ghost before = run_views(compressed@);
        compressed.push((tmp_prod, start, n - 1));
        assert(run_views(compressed@) =~= before + seq![last]);
    } else {
        proof {
            if compressed@.len() == 0 {
                assert(all_above(v, lead, n - 1));
                lemma_span_of_ones(v, lead, n - 1);
                assert(ends_in_ones(v));
            }
        }
    }
    compressed
}

/// Whether a sequence compresses into at least one run: it is not empty,
/// and it holds something other than ones from its first element at or
/// above one onwards.
pub fn is_compressible<T: Scalar>(arr: &[T]) -> (r: bool)
    ensures
        r == (arr.len() > 0 && !ends_in_ones(values(arr@))),
{
    let n = arr.len();
    let ghost v = values(arr@);
    let one = T::one();
    let mut start: usize = 0;
    while start < n && arr[start].less(&one)
        invariant
            n == arr.len(),
            v == values(arr@),
            one.value() == 1real,
            start <= n,
            leading_below(v, 0) == leading_below(v, start as int),
        decreases n - start,
    {
        start += 1;
    }
    if start == n {
        return n > 0;
    }
    let mut i: usize = start;
    while i < n
        invariant
            n == arr.len(),
            v == values(arr@),
            one.value() == 1real,
            start <= i <= n,
            start == leading_below(v, 0),
            forall|k: int| start <= k < i ==> #[trigger] v[k] == 1real,
        decreases n - i,
    {
        if arr[i].less(&one) || one.less(&arr[i]) {
            assert(v[i as int] != 1real);
            return true;
        }
        i += 1;
    }
    false
}

} // verus!
