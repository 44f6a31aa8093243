//! The linear search over quantities in general: compression into runs,
//! then a fold of the runs from the right.
use crate::optimal::{
    ends_with_ones, is_max_range, lemma_fast_real_agrees, lemma_fast_real_maximal,
    lemma_fast_real_product, no_earlier_tie,
};
use crate::oracle::{first_max_range, is_first_max};
use crate::runs::{
    compress, compress_dual, ends_in_ones, is_chain, lemma_compress_chain, run_views,
};
use crate::scalar::{lemma_values_non_negative, products_fit, values, Scalar};
use crate::span::{is_range, lemma_span_split, span_product};
use vstd::prelude::*;

verus! {

/// The three rightmost runs `c`, `b`, `a` taken as one: their product, from
/// the start of `c` to the end of `a`.
pub open spec fn merged(a: (real, int, int), b: (real, int, int), c: (real, int, int)) -> (
    real,
    int,
    int,
) {
    (a.0 * b.0 * c.0, c.1, a.2)
}

/// What takes the place of the three rightmost runs `c`, `b`, `a`: their
/// merger where its product exceeds that of `c`, else `c` alone.
pub open spec fn kept(a: (real, int, int), b: (real, int, int), c: (real, int, int)) -> (
    real,
    int,
    int,
) {
    if merged(a, b, c).0 > c.0 {
        merged(a, b, c)
    } else {
        c
    }
}

/// The candidate, where its product exceeds that of the best run so far;
/// else the best run so far.
pub open spec fn better(best: (real, int, int), candidate: (real, int, int)) -> (real, int, int) {
    if candidate.0 > best.0 {
        candidate
    } else {
        best
    }
}

/// The list of at least three runs after one step of the fold: the last
/// three have given way to what is kept of them.
pub open spec fn folded(runs: Seq<(real, int, int)>) -> Seq<(real, int, int)> {
    let n = runs.len() as int;
    runs.subrange(0, n - 3).push(kept(runs[n - 1], runs[n - 2], runs[n - 3]))
}

/// The best run after one step of the fold on at least three runs: the
/// merger of the last three, the rightmost and the leftmost of them each
/// replace the best run so far where they exceed it, in that order.
pub open spec fn improved(runs: Seq<(real, int, int)>, best: (real, int, int)) -> (
    real,
    int,
    int,
) {
    let n = runs.len() as int;
    let (a, b, c) = (runs[n - 1], runs[n - 2], runs[n - 3]);
    better(better(better(best, merged(a, b, c)), a), c)
}

/// The best run that the fold arrives at, from a list of runs and the best
/// run so far: it takes one step after another while three runs are left.
pub open spec fn reduce(runs: Seq<(real, int, int)>, best: (real, int, int)) -> (real, int, int)
    decreases runs.len(),
{
    if runs.len() < 3 {
        best
    } else {
        reduce(folded(runs), improved(runs, best))
    }
}

/// The run that the linear search settles on for a non-empty `v`.
pub open spec fn fast_real_run(v: Seq<real>) -> (real, int, int) {
    reduce(compress(v), compress(v)[0])
}

/// The range that the linear search returns for a non-empty `v`.
pub open spec fn fast_real_range(v: Seq<real>) -> (int, int) {
    (fast_real_run(v).1, fast_real_run(v).2)
}

/// What one run held in memory stands for.
pub open spec fn run_view<T: Scalar>(run: (T, usize, usize)) -> (real, int, int) {
    (run.0.value(), run.1 as int, run.2 as int)
}

/// One step of the fold turns a chain into a chain: the merger of the last
/// three runs is the range from the start of the leftmost to the end of the
/// rightmost, with its product.
pub proof fn lemma_fold_keeps_chain(v: Seq<real>, runs: Seq<(real, int, int)>)
    requires
        is_chain(v, runs),
        runs.len() >= 3,
    ensures
        is_chain(v, folded(runs)),
        ({
            let n = runs.len() as int;
            let (a, b, c) = (runs[n - 1], runs[n - 2], runs[n - 3]);
            &&& is_range(v, c.1, a.2)
            &&& is_range(v, b.1, a.2)
            &&& b.0 * a.0 == span_product(v, b.1, a.2)
            &&& merged(a, b, c).0 == span_product(v, c.1, a.2)
        }),
{
    let n = runs.len() as int;
    let (a, b, c) = (runs[n - 1], runs[n - 2], runs[n - 3]);
    assert(runs[n - 2 + 1].1 == runs[n - 2].2 + 1);
    assert(runs[n - 3 + 1].1 == runs[n - 3].2 + 1);
    lemma_span_split(v, b.1, b.2, a.2);
    lemma_span_split(v, c.1, c.2, a.2);
    assert(merged(a, b, c).0 == span_product(v, c.1, a.2)) by (nonlinear_arith)
        requires
            merged(a, b, c).0 == a.0 * b.0 * c.0,
            span_product(v, b.1, a.2) == b.0 * a.0,
            span_product(v, c.1, a.2) == c.0 * span_product(v, b.1, a.2),
    ;
    let rest = folded(runs);
    assert forall|k: int| 0 <= k < rest.len() implies is_range(
        v,
        (#[trigger] rest[k]).1,
        rest[k].2,
    ) && rest[k].0 == span_product(v, rest[k].1, rest[k].2) by {
        if k < n - 3 {
            assert(rest[k] == runs[k]);
        }
    }
    assert forall|k: int| 0 <= k < rest.len() - 1 implies (#[trigger] rest[k + 1]).1 == rest[k].2
        + 1 by {
        assert(rest[k] == runs[k]);
        assert(runs[k + 1].1 == runs[k].2 + 1);
        if k + 1 < n - 3 {
            assert(rest[k + 1] == runs[k + 1]);
        }
    }
}

/// Finds a range of maximal product in a sequence of non-negative
/// quantities, in time linear in its length.
///
/// The sequence is compressed into runs, and the runs are folded from the
/// right, three at a time. The range that comes out has the largest product
/// of all unless the sequence ends with a run of ones; among several ranges
/// of that product it need not be the first, which the exhaustive searches
/// return.
pub fn max_prod_fast_real<T: Scalar>(arr: &[T]) -> (r: (usize, usize))
    requires
        arr.len() > 0,
        products_fit::<T>(values(arr@)),
        !ends_in_ones(values(arr@)),
    ensures
        (r.0 as int, r.1 as int) == fast_real_range(values(arr@)),
        is_range(values(arr@), r.0 as int, r.1 as int),
        !ends_with_ones(values(arr@)) ==> is_max_range(values(arr@), r.0 as int, r.1 as int),
        !ends_with_ones(values(arr@)) && no_earlier_tie(values(arr@), r.0 as int, r.1 as int)
            ==> is_first_max(values(arr@), r.0 as int, r.1 as int) && (r.0 as int, r.1 as int)
            == first_max_range(values(arr@)),
{
    let ghost v = values(arr@);
    let mut compressed = compress_dual(arr);
    proof {
        lemma_compress_chain(v);
    }
    let mut current_max = (compressed[0].0.dup(), compressed[0].1, compressed[0].2);
    assert(run_view(current_max) == compress(v)[0]);

    while compressed.len() >= 3
        invariant
            v == values(arr@),
            products_fit::<T>(v),
            compressed@.len() > 0,
            is_chain(v, run_views(compressed@)),
            reduce(run_views(compressed@), run_view(current_max)) == fast_real_run(v),
        decreases compressed@.len(),
    {
        let ghost before = run_views(compressed@);
        let a = compressed.pop().unwrap();
        let b = compressed.pop().unwrap();
        let c = compressed.pop().unwrap();
        proof {
            let len = before.len() as int;
            assert(run_view(a) == before[len - 1]);
            assert(run_view(b) == before[len - 2]);
            assert(run_view(c) == before[len - 3]);
            lemma_fold_keeps_chain(v, before);
            let (x, y) = (a.0.value(), b.0.value());
            assert(x * y == y * x) by (nonlinear_arith);
        }

        let combined = (a.0.times(&b.0).times(&c.0), c.1, a.2);
        assert(run_view(combined) == merged(run_view(a), run_view(b), run_view(c)));

        if c.0.less(&combined.0) {
            compressed.push((combined.0.dup(), combined.1, combined.2));
        } else {
            compressed.push((c.0.dup(), c.1, c.2));
        }
        assert(run_views(compressed@) =~= folded(before));

        if current_max.0.less(&combined.0) {
            current_max = combined;
        }
        if current_max.0.less(&a.0) {
            current_max = a;
        }
        if current_max.0.less(&c.0) {
            current_max = c;
        }
    }

    proof {
        lemma_fast_real_product(v);
        if !ends_with_ones(v) {
            lemma_values_non_negative(arr@);
            lemma_fast_real_maximal(v);
            if no_earlier_tie(v, current_max.1 as int, current_max.2 as int) {
                lemma_fast_real_agrees(v);
            }
        }
    }
    (current_max.1, current_max.2)
}

} // verus!
