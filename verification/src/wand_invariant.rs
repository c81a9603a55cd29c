//! What holds between two steps of the Block-Max WAND loop.
use vstd::prelude::*;
use vstd::seq_lib::lemma_multiset_commutative;

use crate::block_wand::after_block;
use crate::pruning::{
    ascending_calls, calls_exceed, in_gap, lemma_peak_bounds, lemma_peak_prefix, peak, pruned_run,
    threshold_before, Call,
};
use crate::scorer_set::{
    all_skipped_below, all_wf, bound_at, lemma_bound_is_prefix, lemma_max_score_sum_prefix,
    lemma_permutation_member, lemma_postings_left_nonneg, lemma_total_bounded, max_score_sum,
    met_by, moved_on, postings_left, score_fn, sorted_docs, started_by, total_at,
    TermScorerWithMaxScore,
};
use crate::sums::{
    lemma_sum_append, lemma_sum_le, lemma_sum_permutation, lemma_sum_split, lemma_sum_zero, sum_by,
};
use crate::types::{clamped_difference, DocId, Score, TERMINATED};

verus! {

/// `doc` comes after all calls.
pub open spec fn after_calls(calls: Seq<Call>, doc: DocId) -> bool {
    calls.len() > 0 ==> calls.last().doc < doc
}

/// As `pruned_run` and `calls_exceed`, but for the documents after the last call.
pub open spec fn settled_calls(docs: Map<DocId, int>, start: Score, calls: Seq<Call>) -> bool {
    &&& ascending_calls(calls)
    &&& calls_exceed(start, calls)
    &&& forall|i: int|
        0 <= i < calls.len() ==> {
            let c = #[trigger] calls[i];
            &&& docs.contains_key(c.doc)
            &&& c.score <= docs[c.doc]
            &&& docs[c.doc] > peak(start, calls, i) ==> c.score == docs[c.doc]
        }
    &&& forall|i: int, d: DocId| #[trigger]
        in_gap(calls, i, d) && i < calls.len() && docs.contains_key(d) ==> docs[d] <= peak(
            start,
            calls,
            i,
        )
}

/// No scorer has lost anything of `doc`.
pub open spec fn is_live(
    docs: Map<DocId, int>,
    e: Seq<TermScorerWithMaxScore>,
    n: Seq<TermScorerWithMaxScore>,
    doc: DocId,
) -> bool {
    &&& total_at(e, doc) + total_at(n, doc) == docs[doc]
    &&& met_by(e, doc) || met_by(n, doc)
}

/// The state of the loop over essential scorers `e` and non-essential scorers `n`.
///
/// Every document after the last call is either out of reach of the highest threshold so far, or
/// still untouched. Below `floor` the maximum scores alone rule every document out, so that the
/// blocks may be looked at from `floor` on.
#[verifier::opaque]
pub open spec fn wand_inv(
    docs: Map<DocId, int>,
    start: Score,
    calls: Seq<Call>,
    threshold: Score,
    e: Seq<TermScorerWithMaxScore>,
    n: Seq<TermScorerWithMaxScore>,
    floor: DocId,
) -> bool {
    &&& all_wf(e)
    &&& all_wf(n)
    &&& sorted_docs(e)
    &&& max_score_sum(e) + max_score_sum(n) <= Score::MAX
    &&& threshold == threshold_before(start, calls, calls.len() as int)
    &&& settled_calls(docs, start, calls)
    &&& calls.len() > 0 ==> !started_by(e, calls.last().doc)
    &&& n.len() > 0 ==> max_score_sum(n) <= peak(start, calls, calls.len() as int)
    &&& forall|d: DocId| #[trigger] met_by(e, d) ==> docs.contains_key(d)
    &&& forall|d: DocId| #[trigger] met_by(n, d) ==> docs.contains_key(d)
    &&& forall|d: DocId| #[trigger]
        docs.contains_key(d) ==> total_at(e, d) + total_at(n, d) <= docs[d]
    &&& forall|d: DocId| #[trigger]
        docs.contains_key(d) && after_calls(calls, d) ==> docs[d] <= peak(
            start,
            calls,
            calls.len() as int,
        ) || is_live(docs, e, n, d)
    &&& all_skipped_below(e, floor)
    &&& ruled_out_below(e, n, threshold, floor)
}

/// What the loop itself needs of its state.
pub proof fn lemma_wand_facts(
    docs: Map<DocId, int>,
    start: Score,
    calls: Seq<Call>,
    threshold: Score,
    e: Seq<TermScorerWithMaxScore>,
    n: Seq<TermScorerWithMaxScore>,
    floor: DocId,
)
    requires
        wand_inv(docs, start, calls, threshold, e, n, floor),
    ensures
        all_wf(e),
        all_wf(n),
        sorted_docs(e),
        0 <= max_score_sum(e),
        0 <= max_score_sum(n),
        max_score_sum(e) + max_score_sum(n) <= Score::MAX,
        all_skipped_below(e, floor),
        ruled_out_below(e, n, threshold, floor),
        calls.len() > 0 ==> !started_by(e, calls.last().doc),
        0 <= postings_left(e),
{
    reveal(wand_inv);
    lemma_max_score_sum_prefix(e, 0, 0);
    lemma_max_score_sum_prefix(n, 0, 0);
    lemma_postings_left_nonneg(e);
}

/// The maximum scores rule out every document below `floor` that an essential scorer could meet.
pub open spec fn ruled_out_below(
    e: Seq<TermScorerWithMaxScore>,
    n: Seq<TermScorerWithMaxScore>,
    threshold: Score,
    floor: DocId,
) -> bool {
    forall|d: DocId|
        d < floor && #[trigger] started_by(e, d) ==> bound_at(e, d) + max_score_sum(n) <= threshold
}

/// All documents after the calls and below `floor` are out of reach.
pub open spec fn out_of_reach_below(
    docs: Map<DocId, int>,
    start: Score,
    calls: Seq<Call>,
    floor: DocId,
) -> bool {
    forall|d: DocId| #[trigger]
        docs.contains_key(d) && after_calls(calls, d) && d < floor ==> docs[d] <= peak(
            start,
            calls,
            calls.len() as int,
        )
}

/// Lowering a threshold by the non-essential sum, within the range of a score, gives the same
/// comparisons as adding that sum to the other side.
pub proof fn lemma_lowered_threshold(bound: int, threshold: Score, sum: Score)
    requires
        0 <= bound,
        0 <= sum,
    ensures
        bound > clamped_difference(threshold, sum) <==> bound + sum > threshold,
{
}

/// From the documents of the scorers to all documents: below the pivot, the maximum scores do not
/// reach the threshold.
pub proof fn lemma_pivot_rules_out(
    e: Seq<TermScorerWithMaxScore>,
    n: Seq<TermScorerWithMaxScore>,
    threshold: Score,
    pivot_doc: DocId,
)
    requires
        all_wf(e),
        all_wf(n),
        max_score_sum(n) <= Score::MAX,
        sorted_docs(e),
        forall|i: int|
            0 <= i < e.len() && (#[trigger] e[i]).scorer.doc() < pivot_doc ==> bound_at(
                e,
                e[i].scorer.doc(),
            ) <= clamped_difference(threshold, max_score_sum(n) as Score),
    ensures
        ruled_out_below(e, n, threshold, pivot_doc),
{
    lemma_max_score_sum_prefix(n, 0, 0);
    assert forall|d: DocId| d < pivot_doc && #[trigger] started_by(e, d) implies bound_at(e, d)
        + max_score_sum(n) <= threshold by {
        let i = choose|i: int| 0 <= i < e.len() && (#[trigger] e[i]).scorer.doc() <= d;
        let k = lemma_last_started(e, d, i);
        let doc = e[k].scorer.doc();
        assert forall|j: int| 0 <= j < k + 1 implies (#[trigger] e[j]).scorer.doc() <= d
            && e[j].scorer.doc() <= doc by {}
        assert forall|j: int| k + 1 <= j < e.len() implies (#[trigger] e[j]).scorer.doc() > d
            && e[j].scorer.doc() > doc by {
            assert(e[k + 1].scorer.doc() <= e[j].scorer.doc());
        }
        lemma_bound_is_prefix(e, k + 1, d);
        lemma_bound_is_prefix(e, k + 1, doc);
        lemma_total_bounded(e, doc);
        lemma_lowered_threshold(bound_at(e, doc), threshold, max_score_sum(n) as Score);
    }
}

/// The last of the sorted scorers that is not past `d`.
proof fn lemma_last_started(e: Seq<TermScorerWithMaxScore>, d: DocId, i: int) -> (k: int)
    requires
        sorted_docs(e),
        0 <= i < e.len(),
        e[i].scorer.doc() <= d,
    ensures
        0 <= k < e.len(),
        e[k].scorer.doc() <= d,
        k + 1 < e.len() ==> e[k + 1].scorer.doc() > d,
    decreases e.len() - i,
{
    if i + 1 < e.len() && e[i + 1].scorer.doc() <= d {
        lemma_last_started(e, d, i + 1)
    } else {
        i
    }
}

/// Where the maximum scores rule documents out, they are out of reach.
pub proof fn lemma_ruled_out(
    docs: Map<DocId, int>,
    start: Score,
    calls: Seq<Call>,
    threshold: Score,
    e: Seq<TermScorerWithMaxScore>,
    n: Seq<TermScorerWithMaxScore>,
    floor: DocId,
    below: DocId,
)
    requires
        wand_inv(docs, start, calls, threshold, e, n, floor),
        ruled_out_below(e, n, threshold, below),
    ensures
        out_of_reach_below(docs, start, calls, below),
{
    reveal(wand_inv);
    let top = peak(start, calls, calls.len() as int);
    lemma_peak_bounds(start, calls, calls.len() as int);
    assert forall|d: DocId| #[trigger]
        docs.contains_key(d) && after_calls(calls, d) && d < below implies docs[d] <= top by {
        if docs[d] > top {
            assert(is_live(docs, e, n, d));
            lemma_total_bounded(e, d);
            lemma_total_bounded(n, d);
            if met_by(e, d) {
                let i = choose|i: int| 0 <= i < e.len() && (#[trigger] e[i]).scorer.matches(d);
                e[i].scorer.lemma_matches();
                assert(e[i].scorer.doc() <= d);
                assert(started_by(e, d));
            } else {
                lemma_unmet(e, d);
            }
        }
    }
}

/// A document that no scorer meets gets nothing.
pub proof fn lemma_unmet(s: Seq<TermScorerWithMaxScore>, d: DocId)
    requires
        !met_by(s, d),
    ensures
        total_at(s, d) == 0,
{
    assert forall|i: int| 0 <= i < s.len() implies score_fn(d)(#[trigger] s[i]) == 0 by {
        assert(!s[i].scorer.matches(d));
    }
    lemma_sum_zero(s, score_fn(d));
}

/// A step that moves scorers past documents that are out of reach.
pub proof fn lemma_step(
    docs: Map<DocId, int>,
    start: Score,
    calls: Seq<Call>,
    threshold: Score,
    e: Seq<TermScorerWithMaxScore>,
    n: Seq<TermScorerWithMaxScore>,
    floor: DocId,
    e2: Seq<TermScorerWithMaxScore>,
    from: DocId,
    floor2: DocId,
)
    requires
        wand_inv(docs, start, calls, threshold, e, n, floor),
        moved_on(e, e2, from),
        sorted_docs(e2),
        out_of_reach_below(docs, start, calls, from),
        all_skipped_below(e2, floor2),
        ruled_out_below(e2, n, threshold, floor2),
    ensures
        wand_inv(docs, start, calls, threshold, e2, n, floor2),
{
    reveal(wand_inv);
    assert forall|d: DocId| #[trigger] met_by(e2, d) implies docs.contains_key(d) by {
        assert(met_by(e, d));
    }
    assert forall|d: DocId| #[trigger] docs.contains_key(d) implies total_at(e2, d) + total_at(n, d)
        <= docs[d] by {
        assert(total_at(e2, d) <= total_at(e, d));
    }
    assert forall|d: DocId| #[trigger]
        docs.contains_key(d) && after_calls(calls, d) implies docs[d] <= peak(
        start,
        calls,
        calls.len() as int,
    ) || is_live(docs, e2, n, d) by {
        if d >= from {
            assert(total_at(e2, d) == total_at(e, d));
            assert(met_by(e2, d) == met_by(e, d));
        }
    }
    if calls.len() > 0 {
        assert(started_by(e2, calls.last().doc) ==> started_by(e, calls.last().doc));
    }
}

/// What the essential scorers give to a document, when the blocks of the first `pivot_len` reach
/// that far and the others are past it.
pub proof fn lemma_blocks_bound(
    e: Seq<TermScorerWithMaxScore>,
    pivot_len: int,
    pivot_doc: DocId,
    doc: DocId,
)
    requires
        all_wf(e),
        0 <= pivot_len <= e.len(),
        all_skipped_below(e, pivot_doc),
        pivot_doc <= doc,
        forall|i: int|
            0 <= i < pivot_len ==> doc <= (#[trigger] e[i]).scorer.last_doc_in_block(),
        forall|i: int| pivot_len <= i < e.len() ==> doc < (#[trigger] e[i]).scorer.doc(),
    ensures
        total_at(e, doc) <= sum_by(e.take(pivot_len), block_max_fn()),
{
    lemma_sum_split(e, pivot_len, score_fn(doc));
    let l = e.take(pivot_len);
    let r = e.skip(pivot_len);
    assert forall|i: int| 0 <= i < l.len() implies score_fn(doc)(#[trigger] l[i])
        <= block_max_fn()(l[i]) by {
        assert(e[i].scorer.skipped_below(pivot_doc));
        assert(doc <= e[i].scorer.last_doc_in_block());
        e[i].scorer.lemma_block_bound(pivot_doc, doc);
    }
    lemma_sum_le(l, l, score_fn(doc), block_max_fn());
    assert forall|i: int| 0 <= i < r.len() implies score_fn(doc)(#[trigger] r[i]) == 0 by {
        assert(doc < e[pivot_len + i].scorer.doc());
        e[pivot_len + i].scorer.lemma_matches();
        assert(!e[pivot_len + i].scorer.matches(doc));
    }
    lemma_sum_zero(r, score_fn(doc));
}

pub open spec fn block_max_fn<'a>() -> spec_fn(TermScorerWithMaxScore<'a>) -> int {
    |w: TermScorerWithMaxScore<'a>| w.scorer.block_max_score() as int
}

/// If the blocks of the scorers on the pivot are too low, so are the documents up to the end of
/// the first of these blocks.
pub proof fn lemma_blocks_too_low(
    docs: Map<DocId, int>,
    start: Score,
    calls: Seq<Call>,
    threshold: Score,
    e: Seq<TermScorerWithMaxScore>,
    n: Seq<TermScorerWithMaxScore>,
    pivot_len: int,
    pivot_doc: DocId,
    target: DocId,
)
    requires
        wand_inv(docs, start, calls, threshold, e, n, pivot_doc),
        0 <= pivot_len <= e.len(),
        sum_by(e.take(pivot_len), block_max_fn()) + max_score_sum(n) <= threshold,
        forall|i: int|
            0 <= i < pivot_len ==> target <= after_block(#[trigger] e[i]),
        forall|i: int| pivot_len <= i < e.len() ==> target <= (#[trigger] e[i]).scorer.doc(),
        target <= TERMINATED,
    ensures
        out_of_reach_below(docs, start, calls, target),
{
    reveal(wand_inv);
    let top = peak(start, calls, calls.len() as int);
    lemma_peak_bounds(start, calls, calls.len() as int);
    lemma_ruled_out(docs, start, calls, threshold, e, n, pivot_doc, pivot_doc);
    assert forall|d: DocId| #[trigger]
        docs.contains_key(d) && after_calls(calls, d) && d < target implies docs[d] <= top by {
        if d >= pivot_doc && docs[d] > top {
            assert(is_live(docs, e, n, d));
            assert forall|i: int| 0 <= i < pivot_len implies d <= (
            #[trigger] e[i]).scorer.last_doc_in_block() by {
                assert(target <= after_block(e[i]));
            }
            lemma_blocks_bound(e, pivot_len, pivot_doc, d);
            lemma_total_bounded(n, d);
        }
    }
}

/// The score of the pivot, when the scorers on it are aligned.
pub proof fn lemma_pivot_score(
    e: Seq<TermScorerWithMaxScore>,
    pivot_len: int,
    pivot_doc: DocId,
)
    requires
        all_wf(e),
        0 <= pivot_len <= e.len(),
        forall|i: int| pivot_len <= i < e.len() ==> pivot_doc < (#[trigger] e[i]).scorer.doc(),
    ensures
        total_at(e, pivot_doc) == sum_by(e.take(pivot_len), score_fn(pivot_doc)),
{
    lemma_sum_split(e, pivot_len, score_fn(pivot_doc));
    let r = e.skip(pivot_len);
    assert forall|i: int| 0 <= i < r.len() implies score_fn(pivot_doc)(#[trigger] r[i]) == 0 by {
        e[pivot_len + i].scorer.lemma_matches();
        assert(pivot_doc < e[pivot_len + i].scorer.doc());
        assert(!e[pivot_len + i].scorer.matches(pivot_doc));
    }
    lemma_sum_zero(r, score_fn(pivot_doc));
}

/// Visiting the pivot: it is scored, handed over if it exceeds the threshold, and left behind.
pub proof fn lemma_visit(
    docs: Map<DocId, int>,
    start: Score,
    calls: Seq<Call>,
    threshold: Score,
    e: Seq<TermScorerWithMaxScore>,
    n: Seq<TermScorerWithMaxScore>,
    pivot_doc: DocId,
    non_essential_score: Score,
    e2: Seq<TermScorerWithMaxScore>,
    n2: Seq<TermScorerWithMaxScore>,
    calls2: Seq<Call>,
    threshold2: Score,
)
    requires
        wand_inv(docs, start, calls, threshold, e, n, pivot_doc),
        pivot_doc < TERMINATED,
        met_by(e, pivot_doc),
        after_calls(calls, pivot_doc),
        0 <= non_essential_score <= total_at(n, pivot_doc),
        total_at(e, pivot_doc) + total_at(n, pivot_doc) > threshold ==> non_essential_score
            == total_at(n, pivot_doc),
        moved_on(e, e2, (pivot_doc + 1) as DocId),
        moved_on(n, n2, pivot_doc),
        n2.len() == n.len(),
        max_score_sum(n2) == max_score_sum(n),
        sorted_docs(e2),
        !started_by(e2, pivot_doc),
        all_skipped_below(e2, 0),
        ({
            let total = total_at(e, pivot_doc) + non_essential_score;
            if total > threshold {
                calls2 == calls.push(
                    (Call { doc: pivot_doc, score: total as Score, threshold: threshold2 }),
                )
            } else {
                calls2 == calls && threshold2 == threshold
            }
        }),
    ensures
        wand_inv(docs, start, calls2, threshold2, e2, n2, 0),
{
    reveal(wand_inv);
    let len = calls.len() as int;
    let top = peak(start, calls, len);
    let total = total_at(e, pivot_doc) + non_essential_score;
    lemma_peak_bounds(start, calls, len);
    lemma_ruled_out(docs, start, calls, threshold, e, n, pivot_doc, pivot_doc);
    lemma_total_bounded(e, pivot_doc);
    lemma_total_bounded(n, pivot_doc);
    assert(docs.contains_key(pivot_doc));
    assert(total <= docs[pivot_doc]);
    if docs[pivot_doc] > top {
        assert(is_live(docs, e, n, pivot_doc));
    }
    let len2 = calls2.len() as int;
    let top2 = peak(start, calls2, len2);
    if total > threshold {
        let c = Call { doc: pivot_doc, score: total as Score, threshold: threshold2 };
        assert forall|i: int| 0 <= i <= len implies #[trigger] peak(start, calls2, i) == peak(
            start,
            calls,
            i,
        ) by {
            lemma_peak_prefix(start, calls, calls2, i);
        }
        lemma_peak_bounds(start, calls2, len2);
        assert(top2 >= peak(start, calls2, len));
        assert forall|i: int| 0 <= i < calls2.len() implies {
            let c = #[trigger] calls2[i];
            &&& docs.contains_key(c.doc)
            &&& c.score <= docs[c.doc]
            &&& docs[c.doc] > peak(start, calls2, i) ==> c.score == docs[c.doc]
            &&& c.score > threshold_before(start, calls2, i)
        } by {
            assert(peak(start, calls2, i) == peak(start, calls, i));
            if i < len {
                assert(calls2[i] == calls[i]);
                if i > 0 {
                    assert(calls2[i - 1] == calls[i - 1]);
                }
            } else if i > 0 {
                assert(calls2[i - 1] == calls[i - 1]);
            }
        }
        assert forall|i: int, j: int| 0 <= i < j < calls2.len() implies (#[trigger] calls2[i]).doc
            < (#[trigger] calls2[j]).doc by {
            if j == len {
                if i < len - 1 {
                    assert(calls[i].doc < calls[len - 1].doc);
                }
            } else {
                assert(calls2[i] == calls[i] && calls2[j] == calls[j]);
            }
        }
        assert forall|i: int, d: DocId| #[trigger]
            in_gap(calls2, i, d) && i < calls2.len() && docs.contains_key(d) implies docs[d]
            <= peak(start, calls2, i) by {
            assert(peak(start, calls2, i) == peak(start, calls, i));
            if i > 0 {
                assert(calls2[i - 1] == calls[i - 1]);
            }
            if i < len {
                assert(calls2[i] == calls[i]);
                assert(in_gap(calls, i, d));
            } else {
                assert(after_calls(calls, d));
            }
        }
        assert(settled_calls(docs, start, calls2));
    }
    assert(top2 >= top);
    assert forall|d: DocId| #[trigger] met_by(e2, d) implies docs.contains_key(d) by {
        assert(met_by(e, d));
    }
    assert forall|d: DocId| #[trigger] met_by(n2, d) implies docs.contains_key(d) by {
        assert(met_by(n, d));
    }
    assert forall|d: DocId| #[trigger] docs.contains_key(d) implies total_at(e2, d) + total_at(
        n2,
        d,
    ) <= docs[d] by {
        assert(total_at(e2, d) <= total_at(e, d));
        assert(total_at(n2, d) <= total_at(n, d));
    }
    assert forall|d: DocId| #[trigger]
        docs.contains_key(d) && after_calls(calls2, d) implies docs[d] <= top2 || is_live(
        docs,
        e2,
        n2,
        d,
    ) by {
        assert(after_calls(calls, d));
        if d > pivot_doc {
            assert(total_at(e2, d) == total_at(e, d));
            assert(met_by(e2, d) == met_by(e, d));
            assert(total_at(n2, d) == total_at(n, d));
            assert(met_by(n2, d) == met_by(n, d));
            assert(docs[d] <= top || is_live(docs, e, n, d));
        } else if d == pivot_doc {
            assert(docs[d] <= top);
        } else {
            assert(docs[d] <= top);
        }
    }
    if calls2.len() > 0 {
        if calls2 == calls {
            assert(started_by(e2, calls.last().doc) ==> started_by(e, calls.last().doc));
        }
    }
}

/// Sums over a split collection.
pub proof fn lemma_split_sums(
    part: Seq<TermScorerWithMaxScore>,
    rest: Seq<TermScorerWithMaxScore>,
    all: Seq<TermScorerWithMaxScore>,
)
    requires
        part.to_multiset().add(rest.to_multiset()) == all.to_multiset(),
    ensures
        forall|f: spec_fn(TermScorerWithMaxScore) -> int| #[trigger]
            sum_by(all, f) == sum_by(part, f) + sum_by(rest, f),
        forall|d: DocId| #[trigger] met_by(all, d) == (met_by(part, d) || met_by(rest, d)),
        forall|i: int| 0 <= i < part.len() ==> all.contains(#[trigger] part[i]),
        forall|i: int| 0 <= i < rest.len() ==> all.contains(#[trigger] rest[i]),
{
    let both = part + rest;
    lemma_multiset_commutative(part, rest);
    assert forall|f: spec_fn(TermScorerWithMaxScore) -> int| #[trigger]
        sum_by(all, f) == sum_by(part, f) + sum_by(rest, f) by {
        lemma_sum_permutation(all, both, f);
        lemma_sum_append(part, rest, f);
    }
    assert forall|i: int| 0 <= i < part.len() implies all.contains(#[trigger] part[i]) by {
        assert(both[i] == part[i]);
        let j = lemma_permutation_member(all, both, i);
    }
    assert forall|i: int| 0 <= i < rest.len() implies all.contains(#[trigger] rest[i]) by {
        assert(both[part.len() + i] == rest[i]);
        let j = lemma_permutation_member(all, both, part.len() + i);
    }
    assert forall|d: DocId| #[trigger] met_by(all, d) == (met_by(part, d) || met_by(rest, d)) by {
        if met_by(all, d) {
            let i = choose|i: int| 0 <= i < all.len() && (#[trigger] all[i]).scorer.matches(d);
            let j = lemma_permutation_member(both, all, i);
            if j < part.len() {
                assert(part[j].scorer.matches(d));
            } else {
                assert(rest[j - part.len()].scorer.matches(d));
            }
        }
        if met_by(part, d) {
            let i = choose|i: int| 0 <= i < part.len() && (#[trigger] part[i]).scorer.matches(d);
            assert(all.contains(part[i]));
            let j = choose|j: int| 0 <= j < all.len() && all[j] == part[i];
            assert(all[j].scorer.matches(d));
        }
        if met_by(rest, d) {
            let i = choose|i: int| 0 <= i < rest.len() && (#[trigger] rest[i]).scorer.matches(d);
            assert(all.contains(rest[i]));
            let j = choose|j: int| 0 <= j < all.len() && all[j] == rest[i];
            assert(all[j].scorer.matches(d));
        }
    }
}

/// Demoting scorers keeps the state.
pub proof fn lemma_repartition(
    docs: Map<DocId, int>,
    start: Score,
    calls: Seq<Call>,
    threshold: Score,
    e: Seq<TermScorerWithMaxScore>,
    n: Seq<TermScorerWithMaxScore>,
    e2: Seq<TermScorerWithMaxScore>,
    n2: Seq<TermScorerWithMaxScore>,
    demoted: Seq<TermScorerWithMaxScore>,
)
    requires
        wand_inv(docs, start, calls, threshold, e, n, 0),
        e2.to_multiset().add(demoted.to_multiset()) == e.to_multiset(),
        n.to_multiset().add(demoted.to_multiset()) == n2.to_multiset(),
        sorted_docs(e2),
        max_score_sum(n2) <= threshold,
    ensures
        wand_inv(docs, start, calls, threshold, e2, n2, 0),
        postings_left(e2) <= postings_left(e),
{
    reveal(wand_inv);
    lemma_peak_bounds(start, calls, calls.len() as int);
    lemma_split_sums(e2, demoted, e);
    lemma_split_sums(n, demoted, n2);
    assert(postings_left(e) == postings_left(e2) + postings_left(demoted));
    assert(max_score_sum(e) == max_score_sum(e2) + max_score_sum(demoted));
    assert(max_score_sum(n2) == max_score_sum(n) + max_score_sum(demoted));
    assert(all_wf(e2)) by {
        assert forall|i: int| 0 <= i < e2.len() implies (#[trigger] e2[i]).wf() by {
            assert(e.contains(e2[i]));
        }
    }
    assert(all_wf(demoted)) by {
        assert forall|i: int| 0 <= i < demoted.len() implies (#[trigger] demoted[i]).wf() by {
            assert(e.contains(demoted[i]));
        }
    }
    lemma_postings_left_nonneg(demoted);
    assert(all_wf(n2)) by {
        assert forall|i: int| 0 <= i < n2.len() implies (#[trigger] n2[i]).wf() by {
            lemma_multiset_commutative(n, demoted);
            let j = lemma_permutation_member(n + demoted, n2, i);
            assert((n + demoted)[j] == if j < n.len() { n[j] } else { demoted[j - n.len()] });
        }
    }
    assert forall|d: DocId| total_at(e2, d) + total_at(n2, d) == #[trigger] total_at(e, d)
        + total_at(n, d) by {
        assert(sum_by(e, score_fn(d)) == sum_by(e2, score_fn(d)) + sum_by(demoted, score_fn(d)));
        assert(sum_by(n2, score_fn(d)) == sum_by(n, score_fn(d)) + sum_by(demoted, score_fn(d)));
    }
    assert forall|d: DocId| #[trigger] met_by(n2, d) implies docs.contains_key(d) by {
        if met_by(demoted, d) {
            assert(met_by(e, d));
        } else {
            assert(met_by(n, d));
        }
    }
    assert forall|d: DocId| #[trigger] met_by(e2, d) implies docs.contains_key(d) by {
        assert(met_by(e, d));
    }
    assert forall|d: DocId| #[trigger] docs.contains_key(d) implies total_at(e2, d) + total_at(
        n2,
        d,
    ) <= docs[d] by {
        assert(total_at(e2, d) + total_at(n2, d) == total_at(e, d) + total_at(n, d));
    }
    assert forall|d: DocId| #[trigger]
        docs.contains_key(d) && after_calls(calls, d) implies docs[d] <= peak(
        start,
        calls,
        calls.len() as int,
    ) || is_live(docs, e2, n2, d) by {
        assert(total_at(e2, d) + total_at(n2, d) == total_at(e, d) + total_at(n, d));
        assert(met_by(e, d) == (met_by(e2, d) || met_by(demoted, d)));
        assert(met_by(n2, d) == (met_by(n, d) || met_by(demoted, d)));
    }
    assert(all_skipped_below(e2, 0)) by {
        assert forall|i: int| 0 <= i < e2.len() implies (#[trigger] e2[i]).scorer.skipped_below(
            0,
        ) by {
            assert(e.contains(e2[i]));
            let j = choose|j: int| 0 <= j < e.len() && e[j] == e2[i];
            assert(e[j].scorer.skipped_below(0));
        }
    }
    if calls.len() > 0 && started_by(e2, calls.last().doc) {
        let i = choose|i: int|
            0 <= i < e2.len() && (#[trigger] e2[i]).scorer.doc() <= calls.last().doc;
        assert(e.contains(e2[i]));
        let j = choose|j: int| 0 <= j < e.len() && e[j] == e2[i];
        assert(e[j].scorer.doc() <= calls.last().doc);
        assert(started_by(e, calls.last().doc));
    }
}

/// When the loop ends, the calls are those of a pruned run.
pub proof fn lemma_loop_ends(
    docs: Map<DocId, int>,
    start: Score,
    calls: Seq<Call>,
    threshold: Score,
    e: Seq<TermScorerWithMaxScore>,
    n: Seq<TermScorerWithMaxScore>,
    floor: DocId,
)
    requires
        wand_inv(docs, start, calls, threshold, e, n, floor),
        ruled_out_below(e, n, threshold, TERMINATED),
        forall|d: DocId| #[trigger] docs.contains_key(d) ==> d < TERMINATED,
    ensures
        pruned_run(docs, start, calls),
        calls_exceed(start, calls),
{
    reveal(wand_inv);
    lemma_ruled_out(docs, start, calls, threshold, e, n, floor, TERMINATED);
    assert forall|i: int, d: DocId| #[trigger]
        in_gap(calls, i, d) && docs.contains_key(d) implies docs[d] <= peak(start, calls, i) by {
        if i == calls.len() {
            assert(after_calls(calls, d));
        }
    }
}

} // verus!
