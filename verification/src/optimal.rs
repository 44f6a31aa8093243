//! Why the fold over runs arrives at a range of maximal product, and when
//! that range is the one an exhaustive search returns.
use crate::oracle::{first_max_range, is_first_max, lemma_first_max_named, precedes};
use crate::reducer::{
    better, fast_real_range, fast_real_run, folded, improved, kept, lemma_fold_keeps_chain, merged,
    reduce,
};
use crate::runs::{
    above, compress, first_peak, is_chain, leading_below, lemma_compress_chain,
    lemma_first_peak_in_range, lemma_leading_below_in_range, lemma_run_end, lemma_runs_from_chain,
    lemma_span_of_ones, run_end, runs_from,
};
use crate::span::{
    all_above, all_below, is_range, lemma_span_above, lemma_span_below, lemma_span_grows_left,
    lemma_span_grows_right, lemma_span_non_negative, lemma_span_shrinks_left,
    lemma_span_shrinks_right, lemma_span_single, lemma_span_split, non_negative, span_product,
};
use vstd::prelude::*;

verus! {

/// No range of `v` has a larger product than `(i, j)`.
pub open spec fn is_max_range(v: Seq<real>, i: int, j: int) -> bool {
    &&& is_range(v, i, j)
    &&& forall|p: int, q: int|
        is_range(v, p, q) ==> #[trigger] span_product(v, p, q) <= span_product(v, i, j)
}

/// The runs at even places hold elements at or above one, those at odd
/// places elements below one.
spec fn alternates(v: Seq<real>, runs: Seq<(real, int, int)>) -> bool {
    forall|k: int|
        0 <= k < runs.len() ==> if k % 2 == 0 {
            all_above(v, (#[trigger] runs[k]).1, runs[k].2)
        } else {
            all_below(v, runs[k].1, runs[k].2)
        }
}

/// The runs start and end with a run of elements at or above one, follow one
/// another with alternating sides, and leave out nothing but elements below
/// one before the first and behind the last of them.
spec fn brackets(v: Seq<real>, runs: Seq<(real, int, int)>) -> bool {
    &&& runs.len() % 2 == 1
    &&& is_chain(v, runs)
    &&& alternates(v, runs)
    &&& all_below(v, 0, runs[0].1 - 1)
    &&& all_below(v, runs.last().2 + 1, v.len() - 1)
}

/// The maximal runs from a position onwards lie on alternating sides of one,
/// the first on the side of the element at that position.
pub proof fn lemma_runs_from_alternate(v: Seq<real>, at: int)
    requires
        non_negative(v),
        0 <= at <= v.len(),
    ensures
        forall|k: int|
            0 <= k < runs_from(v, at).len() ==> if above(v[at]) == (k % 2 == 0) {
                all_above(v, (#[trigger] runs_from(v, at)[k]).1, runs_from(v, at)[k].2)
            } else {
                all_below(v, runs_from(v, at)[k].1, runs_from(v, at)[k].2)
            },
    decreases v.len() - at,
{
    if at < v.len() {
        lemma_run_end(v, at);
        let end = run_end(v, at);
        lemma_runs_from_alternate(v, end + 1);
        let rest = runs_from(v, end + 1);
        let runs = runs_from(v, at);
        assert(runs =~= seq![(span_product(v, at, end), at, end)] + rest);
        assert forall|k: int| 0 <= k < runs.len() implies if above(v[at]) == (k % 2 == 0) {
            all_above(v, (#[trigger] runs[k]).1, runs[k].2)
        } else {
            all_below(v, runs[k].1, runs[k].2)
        } by {
            if k == 0 {
                assert(runs[0] == (span_product(v, at, end), at, end));
            } else {
                assert(runs[k] == rest[k - 1]);
            }
        }
    }
}

/// Before the first element at or above one, every element is below one.
proof fn lemma_leading_below(v: Seq<real>, from: int)
    requires
        non_negative(v),
        0 <= from <= v.len(),
    ensures
        all_below(v, from, leading_below(v, from) - 1),
        leading_below(v, from) < v.len() ==> above(v[leading_below(v, from)]),
    decreases v.len() - from,
{
    if from < v.len() && !above(v[from]) {
        lemma_leading_below(v, from + 1);
    }
}

/// Where the compressed form of `v` holds an odd number of runs of which
/// the first holds elements at or above one, it brackets `v`.
proof fn lemma_compress_brackets(v: Seq<real>)
    requires
        non_negative(v),
        leading_below(v, 0) < v.len(),
        compress(v).len() % 2 == 1,
    ensures
        brackets(v, compress(v)),
{
    let lead = leading_below(v, 0);
    let all = runs_from(v, lead);
    let runs = compress(v);
    lemma_leading_below_in_range(v, 0);
    lemma_leading_below(v, 0);
    lemma_compress_chain(v);
    lemma_runs_from_chain(v, lead);
    lemma_runs_from_alternate(v, lead);
    assert forall|k: int| 0 <= k < runs.len() implies if k % 2 == 0 {
        all_above(v, (#[trigger] runs[k]).1, runs[k].2)
    } else {
        all_below(v, runs[k].1, runs[k].2)
    } by {
        assert(runs[k] == all[k]);
    }
    assert(runs[0] == all[0]);
    if all.last().0 > 1real {
    } else {
        let last = all.len() - 1;
        assert(all[last - 1 + 1].1 == all[last - 1].2 + 1);
        assert(runs.last() == all[last - 1]);
        assert(all_below(v, all[last].1, all[last].2));
    }
}

/// One step of the fold keeps what the fold relies on.
///
/// `a` is the best range among those that start where it starts, and every
/// range that starts there or later is matched by `a` or by `best`. Then the
/// run kept in place of `c`, `b` and `a` is the best range among those that
/// start where `c` starts, and every range that starts there or later is
/// matched by the new best run.
proof fn lemma_fold_step(
    v: Seq<real>,
    a: (real, int, int),
    b: (real, int, int),
    c: (real, int, int),
    best: (real, int, int),
)
    requires
        non_negative(v),
        0 <= c.1 <= c.2,
        b.1 == c.2 + 1,
        b.1 <= b.2,
        a.1 == b.2 + 1,
        a.1 <= a.2 < v.len(),
        a.0 == span_product(v, a.1, a.2),
        b.0 == span_product(v, b.1, b.2),
        c.0 == span_product(v, c.1, c.2),
        all_above(v, c.1, c.2),
        all_below(v, b.1, b.2),
        forall|q: int| a.1 <= q < v.len() ==> #[trigger] span_product(v, a.1, q) <= a.0,
        forall|p: int, q: int|
            a.1 <= p <= q < v.len() ==> #[trigger] span_product(v, p, q) <= best.0 || span_product(
                v,
                p,
                q,
            ) <= a.0,
    ensures
        ({
            let kept = kept(a, b, c);
            let next = better(better(better(best, merged(a, b, c)), a), c);
            &&& merged(a, b, c).0 == span_product(v, c.1, a.2)
            &&& kept.0 == span_product(v, kept.1, kept.2)
            &&& kept.0 <= next.0
            &&& forall|q: int| c.1 <= q < v.len() ==> #[trigger] span_product(v, c.1, q) <= kept.0
            &&& forall|p: int, q: int|
                c.1 <= p <= q < v.len() ==> #[trigger] span_product(v, p, q) <= next.0
        }),
{
    let combined = merged(a, b, c);
    let kept = kept(a, b, c);
    let next = better(better(better(best, combined), a), c);
    lemma_span_split(v, b.1, b.2, a.2);
    lemma_span_split(v, c.1, c.2, a.2);
    assert(combined.0 == span_product(v, c.1, a.2)) by (nonlinear_arith)
        requires
            combined.0 == a.0 * b.0 * c.0,
            span_product(v, b.1, a.2) == b.0 * a.0,
            span_product(v, c.1, a.2) == c.0 * span_product(v, b.1, a.2),
    ;
    lemma_span_above(v, c.1, c.2);
    assert(kept.0 >= c.0);
    assert(next.0 >= best.0 && next.0 >= combined.0 && next.0 >= a.0 && next.0 >= c.0);

    assert forall|q: int| c.1 <= q < v.len() implies #[trigger] span_product(v, c.1, q)
        <= kept.0 by {
        if q <= c.2 {
            lemma_span_grows_right(v, c.1, q, c.2);
        } else if q <= b.2 {
            lemma_span_shrinks_right(v, c.1, c.2, q);
        } else {
            lemma_span_split(v, c.1, b.2, q);
            lemma_span_split(v, c.1, b.2, a.2);
            lemma_span_non_negative(v, c.1, b.2);
            let left = span_product(v, c.1, b.2);
            let right = span_product(v, a.1, q);
            assert(span_product(v, a.1, q) <= a.0);
            assert(left * right <= left * a.0) by (nonlinear_arith)
                requires
                    left >= 0real,
                    right <= a.0,
            ;
        }
    }

    assert forall|p: int, q: int| c.1 <= p <= q < v.len() implies #[trigger] span_product(v, p, q)
        <= next.0 by {
        if p >= a.1 {
            assert(span_product(v, p, q) <= best.0 || span_product(v, p, q) <= a.0);
        } else if p >= b.1 {
            if q <= b.2 {
                lemma_span_below(v, p, q);
            } else {
                lemma_span_shrinks_left(v, p, b.2, q);
                assert(span_product(v, a.1, q) <= a.0);
            }
        } else {
            lemma_span_grows_left(v, c.1, p - 1, q);
            assert(span_product(v, c.1, q) <= kept.0);
        }
    }
}

/// The fold over runs that bracket `v` ends on a range whose product no
/// range that starts at or behind the first run exceeds.
proof fn lemma_reduce_maximal(
    v: Seq<real>,
    runs: Seq<(real, int, int)>,
    stack: Seq<(real, int, int)>,
    best: (real, int, int),
)
    requires
        non_negative(v),
        brackets(v, runs),
        stack.len() % 2 == 1,
        stack.len() <= runs.len(),
        forall|k: int| 0 <= k < stack.len() - 1 ==> #[trigger] stack[k] == runs[k],
        stack.last().1 == runs[stack.len() - 1].1,
        is_range(v, stack.last().1, stack.last().2),
        stack.last().0 == span_product(v, stack.last().1, stack.last().2),
        forall|q: int|
            stack.last().1 <= q < v.len() ==> #[trigger] span_product(v, stack.last().1, q)
                <= stack.last().0,
        is_range(v, best.1, best.2),
        best.0 == span_product(v, best.1, best.2),
        forall|p: int, q: int|
            stack.last().1 <= p <= q < v.len() ==> #[trigger] span_product(v, p, q) <= best.0
                || span_product(v, p, q) <= stack.last().0,
        stack.len() == 1 ==> stack.last().0 <= best.0,
    ensures
        is_range(v, reduce(stack, best).1, reduce(stack, best).2),
        reduce(stack, best).0 == span_product(v, reduce(stack, best).1, reduce(stack, best).2),
        forall|p: int, q: int|
            runs[0].1 <= p <= q < v.len() ==> #[trigger] span_product(v, p, q) <= reduce(
                stack,
                best,
            ).0,
    decreases stack.len(),
{
    let n = stack.len() as int;
    if n < 3 {
        assert(n == 1);
    } else {
        let a = stack[n - 1];
        let b = stack[n - 2];
        let c = stack[n - 3];
        assert(b == runs[n - 2]);
        assert(c == runs[n - 3]);
        assert(runs[n - 2 + 1].1 == runs[n - 2].2 + 1);
        assert(runs[n - 3 + 1].1 == runs[n - 3].2 + 1);
        lemma_fold_step(v, a, b, c, best);
        let rest = folded(stack);
        assert(rest.last() == kept(a, b, c));
        assert forall|k: int| 0 <= k < rest.len() - 1 implies #[trigger] rest[k] == runs[k] by {
            assert(rest[k] == stack[k]);
        }
        lemma_reduce_maximal(v, runs, rest, improved(stack, best));
    }
}

/// Unless the sequence ends with a run of ones, the linear search returns a
/// range of maximal product.
pub proof fn lemma_fast_real_maximal(v: Seq<real>)
    requires
        v.len() > 0,
        non_negative(v),
        !ends_with_ones(v),
    ensures
        is_max_range(v, fast_real_range(v).0, fast_real_range(v).1),
        fast_real_run(v).0 == span_product(v, fast_real_range(v).0, fast_real_range(v).1),
{
    let lead = leading_below(v, 0);
    lemma_leading_below_in_range(v, 0);
    lemma_odd_runs(v);
    if lead >= v.len() {
        lemma_below_one_first_max(v);
    } else {
        let runs = compress(v);
        lemma_compress_brackets(v);
        let top = runs.last();
        let best = runs[0];
        assert(runs[runs.len() - 1] == top);
        lemma_span_above(v, top.1, top.2);
        assert forall|q: int| top.1 <= q < v.len() implies #[trigger] span_product(v, top.1, q)
            <= top.0 by {
            if q <= top.2 {
                lemma_span_grows_right(v, top.1, q, top.2);
            } else {
                lemma_span_shrinks_right(v, top.1, top.2, q);
            }
        }
        assert forall|p: int, q: int| top.1 <= p <= q < v.len() implies #[trigger] span_product(
            v,
            p,
            q,
        ) <= best.0 || span_product(v, p, q) <= top.0 by {
            if p <= top.2 {
                lemma_span_grows_left(v, top.1, p - 1, q);
                assert(span_product(v, top.1, q) <= top.0);
            } else {
                lemma_span_below(v, p, q);
            }
        }
        lemma_reduce_maximal(v, runs, runs, best);
        let found = fast_real_run(v);
        lemma_span_above(v, best.1, best.2);
        assert(span_product(v, best.1, best.2) <= found.0);
        assert forall|p: int, q: int| is_range(v, p, q) implies #[trigger] span_product(v, p, q)
            <= span_product(v, found.1, found.2) by {
            if p >= best.1 {
            } else if q < best.1 {
                lemma_span_below(v, p, q);
            } else {
                lemma_span_shrinks_left(v, p, best.1 - 1, q);
                assert(span_product(v, best.1, q) <= found.0);
            }
        }
    }
}

/// The first largest element of `v[0..=upto]` is at least every element up
/// to there and above every element before it.
proof fn lemma_first_peak(v: Seq<real>, upto: int)
    requires
        0 <= upto < v.len(),
    ensures
        forall|k: int| 0 <= k <= upto ==> #[trigger] v[k] <= v[first_peak(v, upto)],
        forall|k: int| 0 <= k < first_peak(v, upto) ==> #[trigger] v[k] < v[first_peak(v, upto)],
    decreases upto,
{
    if upto > 0 {
        lemma_first_peak(v, upto - 1);
        lemma_first_peak_in_range(v, upto - 1);
    }
}

/// Where every element is below one, the linear search returns the first
/// range of maximal product: the first largest element.
pub proof fn lemma_below_one_first_max(v: Seq<real>)
    requires
        v.len() > 0,
        non_negative(v),
        leading_below(v, 0) >= v.len(),
    ensures
        is_first_max(v, fast_real_range(v).0, fast_real_range(v).1),
        fast_real_range(v) == first_max_range(v),
        fast_real_run(v).0 == span_product(v, fast_real_range(v).0, fast_real_range(v).1),
{
    let peak = first_peak(v, v.len() - 1);
    lemma_leading_below(v, 0);
    lemma_first_peak(v, v.len() - 1);
    lemma_first_peak_in_range(v, v.len() - 1);
    lemma_span_single(v, peak);
    assert(compress(v) =~= seq![(v[peak], peak, peak)]);
    assert(fast_real_run(v) == (v[peak], peak, peak));
    assert forall|p: int, q: int| is_range(v, p, q) implies #[trigger] span_product(v, p, q)
        <= span_product(v, peak, peak) && (p < peak ==> span_product(v, p, q) < span_product(
        v,
        peak,
        peak,
    )) by {
        lemma_span_shrinks_right(v, p, p, q);
        lemma_span_single(v, p);
    }
    lemma_first_max_named(v, peak, peak);
}

/// No range visited before `(i, j)` has the same product as `(i, j)`.
pub open spec fn no_earlier_tie(v: Seq<real>, i: int, j: int) -> bool {
    forall|p: int, q: int|
        is_range(v, p, q) && precedes(p, q, i, j) ==> #[trigger] span_product(v, p, q)
            != span_product(v, i, j)
}

/// Unless the sequence ends with a run of ones, or a range visited before the
/// one that the linear search returns has the same product, the linear
/// search and the exhaustive searches return the same range. They do so in
/// particular where only one range has the maximal product.
pub proof fn lemma_fast_real_agrees(v: Seq<real>)
    requires
        v.len() > 0,
        non_negative(v),
        !ends_with_ones(v),
        no_earlier_tie(v, fast_real_range(v).0, fast_real_range(v).1),
    ensures
        is_first_max(v, fast_real_range(v).0, fast_real_range(v).1),
        fast_real_range(v) == first_max_range(v),
{
    lemma_fast_real_maximal(v);
    let found = fast_real_range(v);
    assert forall|p: int, q: int|
        is_range(v, p, q) && precedes(p, q, found.0, found.1) implies #[trigger] span_product(
        v,
        p,
        q,
    ) < span_product(v, found.0, found.1) by {
        assert(span_product(v, p, q) <= span_product(v, found.0, found.1));
    }
    lemma_first_max_named(v, found.0, found.1);
}

/// The fold over a chain of runs ends on a range of `v` together with the
/// product of that range.
pub proof fn lemma_reduce_spans(v: Seq<real>, runs: Seq<(real, int, int)>, best: (real, int, int))
    requires
        is_chain(v, runs),
        is_range(v, best.1, best.2),
        best.0 == span_product(v, best.1, best.2),
    ensures
        is_range(v, reduce(runs, best).1, reduce(runs, best).2),
        reduce(runs, best).0 == span_product(v, reduce(runs, best).1, reduce(runs, best).2),
    decreases runs.len(),
{
    if runs.len() >= 3 {
        lemma_fold_keeps_chain(v, runs);
        lemma_reduce_spans(v, folded(runs), improved(runs, best));
    }
}

/// The product that the linear search has kept for the range it returns is
/// the product of the elements of that range.
pub proof fn lemma_fast_real_product(v: Seq<real>)
    requires
        v.len() > 0,
        compress(v).len() > 0,
    ensures
        is_range(v, fast_real_range(v).0, fast_real_range(v).1),
        fast_real_run(v).0 == span_product(v, fast_real_range(v).0, fast_real_range(v).1),
{
    lemma_compress_chain(v);
    lemma_reduce_spans(v, compress(v), compress(v)[0]);
}

/// The sequence ends with a maximal run of elements at or above one that
/// holds nothing but ones: its last element is one, and so is every element
/// from which on none is below one.
pub open spec fn ends_with_ones(v: Seq<real>) -> bool {
    &&& v.len() > 0
    &&& v.last() == 1real
    &&& forall|k: int| 0 <= k < v.len() && all_above(v, k, v.len() - 1) ==> #[trigger] v[k] == 1real
}

/// The compressed form holds an even number of runs where the sequence ends
/// with a run of ones, and an odd number where it does not.
pub proof fn lemma_odd_runs(v: Seq<real>)
    requires
        v.len() > 0,
        non_negative(v),
    ensures
        compress(v).len() % 2 == 1 <==> !ends_with_ones(v),
{
    let n = v.len() as int;
    let lead = leading_below(v, 0);
    lemma_leading_below_in_range(v, 0);
    lemma_leading_below(v, 0);
    if lead < n {
        lemma_runs_from_chain(v, lead);
        lemma_runs_from_alternate(v, lead);
        let all = runs_from(v, lead);
        let at = all.len() - 1;
        let last = all[at];
        assert(last == all.last());
        if at % 2 == 0 {
            // The last run holds elements at or above one, and the element
            // before it, if any, is below one.
            if at > 0 {
                assert(all[at - 1 + 1].1 == all[at - 1].2 + 1);
                assert(all_below(v, all[at - 1].1, all[at - 1].2));
                assert(v[last.1 - 1] < 1real);
            }
            assert forall|k: int| 0 <= k < last.1 implies !#[trigger] all_above(v, k, n - 1) by {
                assert(v[last.1 - 1] < 1real);
            }
            if last.0 <= 1real {
                lemma_span_of_ones(v, last.1, last.2);
                assert(ends_with_ones(v));
            } else {
                if ends_with_ones(v) {
                    assert forall|k: int| last.1 <= k <= n - 1 implies #[trigger] v[k] == 1real by {
                        assert(all_above(v, k, n - 1));
                    }
                    lemma_span_all_ones(v, last.1, last.2);
                }
            }
        } else {
            lemma_span_below(v, last.1, last.2);
            assert(v[n - 1] < 1real);
        }
    } else {
        assert(v[n - 1] < 1real);
    }
}

/// A product of ones is one.
proof fn lemma_span_all_ones(v: Seq<real>, start: int, end: int)
    requires
        forall|k: int| start <= k <= end ==> #[trigger] v[k] == 1real,
    ensures
        span_product(v, start, end) == 1real,
    decreases end - start + 1,
{
    if end >= start {
        lemma_span_all_ones(v, start, end - 1);
    }
}

/// Where no element is one, the sequence does not end with a run of ones.
pub proof fn lemma_no_ones(v: Seq<real>)
    requires
        v.len() > 0,
        forall|k: int| 0 <= k < v.len() ==> #[trigger] v[k] != 1real,
    ensures
        !ends_with_ones(v),
{
    assert(v[v.len() - 1] != 1real);
}

/// A sequence of one element has one range, which every search returns; the
/// linear search over quantities in general does so unless the element is
/// one.
pub proof fn lemma_single_element(v: Seq<real>)
    requires
        v.len() == 1,
        non_negative(v),
    ensures
        is_first_max(v, 0, 0),
        first_max_range(v) == (0int, 0int),
        v[0] != 1real ==> fast_real_range(v) == (0int, 0int),
{
    assert(is_first_max(v, 0, 0));
    lemma_first_max_named(v, 0, 0);
    if v[0] != 1real {
        if v[0] < 1real {
            assert(leading_below(v, 1) == 1);
            lemma_below_one_first_max(v);
        } else {
            lemma_runs_from_chain(v, 0);
            lemma_runs_from_chain(v, 1);
            lemma_span_single(v, 0);
            assert(run_end(v, 0) == 0);
            assert(runs_from(v, 0) =~= seq![(v[0], 0int, 0int)]);
            assert(compress(v) =~= seq![(v[0], 0int, 0int)]);
        }
    }
}

} // verus!
