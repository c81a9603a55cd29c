//! Block-Max WAND with MaxScore partitioning.
use vstd::prelude::*;
use vstd::seq_lib::lemma_multiset_commutative;

use crate::demotion::{
    is_lightest, item_fn, placed_key_fn, places_by_key, swap_out, take_first_places,
};
use crate::pruning::{
    all_ready, any_matches, calls_exceed, continues, new_calls, pruned_run, scored_docs,
    term_max_score, term_score, Call, ScoreCallback,
};
use crate::scorer_set::{
    all_skipped_below, all_wf, bound_at, doc_fn, left_fn, lemma_bound_is_prefix,
    lemma_exhausted_dropped, lemma_max_score_sum_prefix, lemma_moved_in_place, lemma_moved_on_chain,
    lemma_permutation_member, lemma_permuted, lemma_total_bounded, lemma_wrapped, max_score_fn,
    max_score_sum, met_by, moved, moved_on, postings_left, score_fn, sorted_docs, started_by,
    total_at, TermScorerWithMaxScore,
};
use crate::sorting::{lemma_move_permutes, same_ties, sort_by_key, sorted_by_key};
use crate::sums::{
    lemma_sum_append, lemma_sum_eq, lemma_sum_le, lemma_sum_permutation, lemma_sum_push,
    lemma_sum_split, lemma_sum_take, lemma_sum_update, lemma_swap_removed, lemma_swap_removed_same,
    sum_by,
};
use crate::term_scorer::{BLOCK_LEN, TermScorer};
use crate::types::{saturating_difference, DocId, Score, TERMINATED};
use crate::wand_invariant::{
    block_max_fn, is_live, lemma_blocks_too_low, lemma_loop_ends, lemma_lowered_threshold,
    lemma_pivot_rules_out, lemma_pivot_score, lemma_repartition, lemma_ruled_out, lemma_split_sums,
    lemma_step, lemma_visit, lemma_wand_facts, out_of_reach_below, ruled_out_below, wand_inv,
};

verus! {

/// The current document, as a sort key.
fn doc_key(w: &TermScorerWithMaxScore) -> (key: i128)
    ensures
        key == doc_fn()(*w),
{
    w.scorer.doc() as i128
}

/// The maximum score, as a sort key.
fn max_score_key(w: &TermScorerWithMaxScore) -> (key: i128)
    ensures
        key == max_score_fn()(*w),
{
    w.max_score as i128
}

/// `pivot` is what [`find_pivot_doc`] says of `scorers`. The bound of a document is the sum of the
/// maximum scores of the scorers that are not past it.
pub open spec fn finds_pivot(
    scorers: Seq<TermScorerWithMaxScore>,
    threshold: Score,
    pivot: Option<(usize, usize, DocId)>,
) -> bool {
    match pivot {
        None => forall|i: int|
            0 <= i < scorers.len() && scorers[i].scorer.doc() != TERMINATED
                ==> bound_at(scorers, (#[trigger] scorers[i]).scorer.doc())
                <= threshold,
        Some((before_pivot_len, pivot_len, pivot_doc)) => {
            &&& pivot_doc != TERMINATED
            &&& before_pivot_len < pivot_len <= scorers.len()
            &&& forall|i: int|
                0 <= i < before_pivot_len ==> (#[trigger] scorers[i]).scorer.doc()
                    < pivot_doc
            &&& forall|i: int|
                before_pivot_len <= i < pivot_len ==> (
                #[trigger] scorers[i]).scorer.doc() == pivot_doc
            &&& forall|i: int|
                pivot_len <= i < scorers.len() ==> (
                #[trigger] scorers[i]).scorer.doc() > pivot_doc
            &&& bound_at(scorers, pivot_doc) > threshold
            &&& forall|i: int|
                0 <= i < before_pivot_len ==> bound_at(
                    scorers,
                    (#[trigger] scorers[i]).scorer.doc(),
                ) <= threshold
        },
    }
}

/// Finds the pivot of scorers that are sorted by their current document.
///
/// Returns `(before_pivot_len, pivot_len, pivot_doc)`:
/// - `pivot_doc` is the lowest document that has a chance of exceeding the threshold, going by
///   the maximum scores of the scorers that are not past it;
/// - `before_pivot_len` is the number of scorers on a document before the pivot;
/// - `pivot_len` is the number of scorers on the pivot or before it.
///
/// Returns `None` if no document can exceed the threshold.
pub fn find_pivot_doc(
    term_scorers: &Vec<TermScorerWithMaxScore>,
    threshold: Score,
) -> (pivot: Option<(usize, usize, DocId)>)
    requires
        all_wf(term_scorers@),
        sorted_docs(term_scorers@),
        max_score_sum(term_scorers@) <= Score::MAX,
    ensures
        finds_pivot(term_scorers@, threshold, pivot),
{
    let ghost s = term_scorers@;
    let len: usize = term_scorers.len();
    let mut max_score: Score = 0;
    let mut ord: usize = 0;
    let mut pivot_doc: DocId = TERMINATED;
    while ord < len
        invariant_except_break
            max_score == max_score_sum(s.take(ord as int)),
            pivot_doc == TERMINATED,
            ord > 0 ==> max_score <= threshold,
        invariant
            s == term_scorers@,
            len == s.len(),
            all_wf(s),
            max_score_sum(s) <= Score::MAX,
            ord <= len,
        ensures
            ord <= len,
            ord > 0 ==> max_score_sum(s.take(ord as int)) <= threshold,
            ord == len ==> pivot_doc == TERMINATED,
            ord < len ==> pivot_doc == s[ord as int].scorer.doc() && max_score_sum(
                s.take(ord + 1),
            ) > threshold,
        decreases len - ord,
    {
        proof {
            lemma_sum_take(s, ord as int, max_score_fn());
            lemma_max_score_sum_prefix(s, ord as int, ord + 1);
        }
        max_score = max_score + term_scorers[ord].max_score;
        if max_score > threshold {
            pivot_doc = term_scorers[ord].scorer.doc();
            break;
        }
        ord = ord + 1;
    }
    proof {
        assert forall|i: int| 0 <= i < ord && (ord == len || s[i].scorer.doc() < pivot_doc) implies bound_at(
            s,
            (#[trigger] s[i]).scorer.doc(),
        ) <= threshold by {
            lemma_bound_within(s, i, ord as int);
        }
        assert forall|i: int| 0 <= i < len implies (#[trigger] s[i]).scorer.doc() <= TERMINATED by {
            s[i].scorer.lemma_matches();
        }
    }
    if pivot_doc == TERMINATED {
        return None;
    }
    let mut before_pivot_len: usize = ord;
    while before_pivot_len > 0 && term_scorers[before_pivot_len - 1].scorer.doc() == pivot_doc
        invariant
            s == term_scorers@,
            before_pivot_len <= ord < s.len(),
            forall|i: int|
                before_pivot_len <= i <= ord ==> (#[trigger] s[i]).scorer.doc() == pivot_doc,
        decreases before_pivot_len,
    {
        before_pivot_len = before_pivot_len - 1;
    }
    let mut pivot_len: usize = ord + 1;
    while pivot_len < len && term_scorers[pivot_len].scorer.doc() == pivot_doc
        invariant
            s == term_scorers@,
            len == s.len(),
            ord < pivot_len <= len,
            forall|i: int| ord <= i < pivot_len ==> (#[trigger] s[i]).scorer.doc() == pivot_doc,
        decreases len - pivot_len,
    {
        pivot_len = pivot_len + 1;
    }
    proof {
        assert forall|i: int| 0 <= i < before_pivot_len implies (#[trigger] s[i]).scorer.doc()
            < pivot_doc by {
            assert(s[i].scorer.doc() <= s[before_pivot_len - 1].scorer.doc());
            assert(s[before_pivot_len - 1].scorer.doc() <= s[ord as int].scorer.doc());
        }
        assert forall|i: int| pivot_len <= i < s.len() implies (#[trigger] s[i]).scorer.doc()
            > pivot_doc by {
            assert(s[pivot_len as int].scorer.doc() <= s[i].scorer.doc());
            assert(s[ord as int].scorer.doc() <= s[pivot_len as int].scorer.doc());
        }
        lemma_bound_is_prefix(s, pivot_len as int, pivot_doc);
        lemma_max_score_sum_prefix(s, ord + 1, pivot_len as int);
    }
    Some((before_pivot_len, pivot_len, pivot_doc))
}

/// The bound at the document of scorer `i` takes in no scorer from `n` on, if that one is past
/// the document.
proof fn lemma_bound_within(s: Seq<TermScorerWithMaxScore>, i: int, n: int)
    requires
        all_wf(s),
        sorted_docs(s),
        0 <= i < n <= s.len(),
        n < s.len() ==> s[i].scorer.doc() < s[n].scorer.doc(),
    ensures
        bound_at(s, s[i].scorer.doc()) <= max_score_sum(s.take(n)),
    decreases n - i,
{
    let doc = s[i].scorer.doc();
    if n > i + 1 && s[n - 1].scorer.doc() > doc {
        lemma_bound_within(s, i, n - 1);
        lemma_max_score_sum_prefix(s, n - 1, n);
    } else {
        assert forall|j: int| 0 <= j < n implies (#[trigger] s[j]).scorer.doc() <= doc by {
            assert(s[j].scorer.doc() <= s[n - 1].scorer.doc());
        }
        assert forall|j: int| n <= j < s.len() implies (#[trigger] s[j]).scorer.doc() > doc by {
            assert(s[n].scorer.doc() <= s[j].scorer.doc());
        }
        lemma_bound_is_prefix(s, n, doc);
    }
}

/// Restores the order of scorers that are sorted by document, but for the scorer at `ord`, which
/// may be too far ahead for its rank.
fn restore_ordering(term_scorers: &mut Vec<TermScorerWithMaxScore>, ord: usize)
    requires
        all_wf(old(term_scorers)@),
        ord < old(term_scorers)@.len(),
        sorted_docs(old(term_scorers)@.remove(ord as int)),
        forall|i: int|
            0 <= i < ord ==> (#[trigger] old(term_scorers)@[i]).scorer.doc() <= old(term_scorers)@[ord as int].scorer.doc(),
    ensures
        sorted_docs(final(term_scorers)@),
        final(term_scorers)@.to_multiset() == old(term_scorers)@.to_multiset(),
        exists|rank: int|
            {
                &&& ord <= rank < old(term_scorers)@.len()
                &&& final(term_scorers)@ == #[trigger] old(term_scorers)@.remove(ord as int).insert(rank, old(term_scorers)@[ord as int])
                &&& forall|i: int|
                    ord < i <= rank ==> (#[trigger] old(term_scorers)@[i]).scorer.doc() < old(term_scorers)@[ord as int].scorer.doc()
            },
{
    let ghost s = term_scorers@;
    let doc: DocId = term_scorers[ord].scorer.doc();
    let mut rank: usize = ord;
    while rank < term_scorers.len() - 1 && term_scorers[rank + 1].scorer.doc() < doc
        invariant
            s == term_scorers@,
            ord <= rank < s.len(),
            doc == s[ord as int].scorer.doc(),
            forall|i: int| ord < i <= rank ==> (#[trigger] s[i]).scorer.doc() < doc,
        decreases s.len() - rank,
    {
        rank = rank + 1;
    }
    let scorer = term_scorers.remove(ord);
    term_scorers.insert(rank, scorer);
    proof {
        let r = s.remove(ord as int);
        lemma_move_permutes(s, ord as int, rank as int);
        let t = r.insert(rank as int, s[ord as int]);
        assert(term_scorers@ == t);
        assert forall|i: int, j: int| 0 <= i <= j < t.len() implies (#[trigger] t[i]).scorer.doc()
            <= (#[trigger] t[j]).scorer.doc() by {
            if i < rank {
                assert(t[i] == r[i]);
                if j < rank {
                    assert(t[j] == r[j]);
                } else if j == rank {
                    if i >= ord {
                        assert(r[i] == s[i + 1]);
                    } else {
                        assert(r[i] == s[i]);
                    }
                } else {
                    assert(t[j] == r[j - 1]);
                }
            } else if i == rank {
                if j > rank {
                    assert(t[j] == r[j - 1]);
                    assert(r[rank as int] == s[rank + 1]);
                    assert(r[rank as int].scorer.doc() <= r[j - 1].scorer.doc());
                }
            } else {
                assert(t[i] == r[i - 1] && t[j] == r[j - 1]);
            }
        }
    }
}

/// The first document after the current block of a scorer.
pub open spec fn after_block(w: TermScorerWithMaxScore) -> DocId {
    if w.scorer.last_doc_in_block() == TERMINATED {
        TERMINATED
    } else {
        (w.scorer.last_doc_in_block() + 1) as DocId
    }
}

/// `target` is the first document that could be worth a look once the current blocks of the first
/// `pivot_len` scorers are not: the lowest of what follows those blocks and of the documents of
/// the other scorers.
pub open spec fn is_next_candidate(
    s: Seq<TermScorerWithMaxScore>,
    pivot_len: int,
    target: DocId,
) -> bool {
    &&& forall|i: int| 0 <= i < pivot_len ==> target <= after_block(#[trigger] s[i])
    &&& forall|i: int| pivot_len <= i < s.len() ==> target <= (#[trigger] s[i]).scorer.doc()
    &&& {
        ||| exists|i: int| 0 <= i < pivot_len && target == after_block(#[trigger] s[i])
        ||| exists|i: int| pivot_len <= i < s.len() && target == (#[trigger] s[i]).scorer.doc()
    }
}

/// Scorer `best` has the highest maximum score of the first `pivot_len`, and is the last of them
/// to have it.
pub open spec fn is_best_scorer(
    s: Seq<TermScorerWithMaxScore>,
    pivot_len: int,
    best: int,
) -> bool {
    &&& 0 <= best < pivot_len
    &&& forall|i: int| 0 <= i < pivot_len ==> (#[trigger] s[i]).max_score <= s[best].max_score
    &&& forall|i: int| best < i < pivot_len ==> (#[trigger] s[i]).max_score < s[best].max_score
}

/// `b` is `a` with the best of the first `pivot_len` scorers moved to `target`.
pub open spec fn advanced_one(
    a: Seq<TermScorerWithMaxScore>,
    b: Seq<TermScorerWithMaxScore>,
    pivot_len: int,
    best: int,
    target: DocId,
) -> bool {
    &&& is_next_candidate(a, pivot_len, target)
    &&& is_best_scorer(a, pivot_len, best)
    &&& exists|w: TermScorerWithMaxScore|
        {
            &&& #[trigger] moved(a[best], w, target)
            &&& w.scorer.doc() >= target
            &&& w.scorer.is_loaded()
            &&& b.to_multiset() == a.update(best, w).to_multiset()
        }
    &&& moved_on(a, b, target)
    &&& a[best].scorer.doc() < target ==> postings_left(b) < postings_left(a)
}

/// Moves the scorer with the best maximum score among the first `pivot_len` to the next candidate.
///
/// The scorers are sorted by document before and after.
fn block_max_was_too_low_advance_one_scorer(
    scorers: &mut Vec<TermScorerWithMaxScore>,
    pivot_len: usize,
)
    requires
        all_wf(old(scorers)@),
        sorted_docs(old(scorers)@),
        0 < pivot_len <= old(scorers)@.len(),
    ensures
        sorted_docs(final(scorers)@),
        forall|f: DocId| #[trigger]
            all_skipped_below(old(scorers)@, f) ==> all_skipped_below(final(scorers)@, f),
        exists|best: int, target: DocId| #[trigger]
            advanced_one(old(scorers)@, final(scorers)@, pivot_len as int, best, target),
{
    let ghost s = scorers@;
    let len: usize = scorers.len();
    let mut scorer_to_seek: usize = pivot_len - 1;
    let mut global_max_score: Score = scorers[scorer_to_seek].max_score;
    let mut doc_to_seek_after: DocId = scorers[scorer_to_seek].scorer.last_doc_in_block();
    let mut scorer_ord: usize = pivot_len - 1;
    proof {
        assert forall|i: int| 0 <= i < len implies (#[trigger] s[i]).scorer.last_doc_in_block()
            <= TERMINATED by {
            assert(s[i].wf());
        }
    }
    while scorer_ord > 0
        invariant
            s == scorers@,
            all_wf(s),
            len == s.len(),
            scorer_ord < pivot_len <= len,
            scorer_ord <= scorer_to_seek < pivot_len,
            global_max_score == s[scorer_to_seek as int].max_score,
            forall|i: int|
                scorer_ord <= i < pivot_len ==> (#[trigger] s[i]).max_score <= global_max_score,
            forall|i: int|
                scorer_to_seek < i < pivot_len ==> (#[trigger] s[i]).max_score < global_max_score,
            forall|i: int|
                scorer_ord <= i < pivot_len ==> doc_to_seek_after <= (
                #[trigger] s[i]).scorer.last_doc_in_block(),
            exists|i: int|
                scorer_ord <= i < pivot_len && doc_to_seek_after == (
                #[trigger] s[i]).scorer.last_doc_in_block(),
        decreases scorer_ord,
    {
        scorer_ord = scorer_ord - 1;
        let last_doc: DocId = scorers[scorer_ord].scorer.last_doc_in_block();
        if last_doc <= doc_to_seek_after {
            doc_to_seek_after = last_doc;
            assert(doc_to_seek_after == s[scorer_ord as int].scorer.last_doc_in_block());
        }
        if scorers[scorer_ord].max_score > global_max_score {
            global_max_score = scorers[scorer_ord].max_score;
            scorer_to_seek = scorer_ord;
        }
    }
    // The next block starts one document further, unless this is the end already.
    if doc_to_seek_after != TERMINATED {
        proof {
            let i = choose|i: int|
                0 <= i < pivot_len && doc_to_seek_after == (
                #[trigger] s[i]).scorer.last_doc_in_block();
            assert(s[i].scorer.last_doc_in_block() <= TERMINATED);
        }
        doc_to_seek_after = doc_to_seek_after + 1;
    }
    proof {
        let i = choose|i: int|
            0 <= i < pivot_len && (doc_to_seek_after == TERMINATED || doc_to_seek_after == (
            #[trigger] s[i]).scorer.last_doc_in_block() + 1);
        assert forall|i: int| 0 <= i < pivot_len implies doc_to_seek_after <= after_block(
            #[trigger] s[i],
        ) by {
            assert(s[i].scorer.last_doc_in_block() <= TERMINATED);
        }
        assert(exists|i: int| 0 <= i < pivot_len && doc_to_seek_after == after_block(
            #[trigger] s[i],
        ));
    }
    let mut rest: usize = pivot_len;
    while rest < len
        invariant
            s == scorers@,
            all_wf(s),
            len == s.len(),
            0 < pivot_len <= rest <= len,
            doc_to_seek_after <= TERMINATED,
            forall|i: int| 0 <= i < pivot_len ==> doc_to_seek_after <= after_block(#[trigger] s[i]),
            forall|i: int|
                pivot_len <= i < rest ==> doc_to_seek_after <= (#[trigger] s[i]).scorer.doc(),
            ({
                ||| exists|i: int|
                    0 <= i < pivot_len && doc_to_seek_after == after_block(#[trigger] s[i])
                ||| exists|i: int|
                    pivot_len <= i < rest && doc_to_seek_after == (#[trigger] s[i]).scorer.doc()
            }),
        decreases len - rest,
    {
        let doc: DocId = scorers[rest].scorer.doc();
        if doc <= doc_to_seek_after {
            doc_to_seek_after = doc;
            assert(doc_to_seek_after == s[rest as int].scorer.doc());
        }
        rest = rest + 1;
    }
    let mut moving = scorers[scorer_to_seek];
    moving.scorer.seek(doc_to_seek_after);
    scorers[scorer_to_seek] = moving;
    let ghost t = scorers@;
    proof {
        let best = scorer_to_seek as int;
        assert(t == s.update(best, moving));
        assert(moved(s[best], moving, doc_to_seek_after));
        assert forall|i: int| 0 <= i < s.len() implies moved(
            s[i],
            #[trigger] t[i],
            doc_to_seek_after,
        ) by {}
        lemma_moved_in_place(s, t, doc_to_seek_after);
        lemma_sum_update(s, best, moving, left_fn());
        assert(t.remove(best) =~= s.remove(best));
        assert(sorted_docs(t.remove(best))) by {
            let r = s.remove(best);
            assert forall|i: int, j: int| 0 <= i <= j < r.len() implies (
            #[trigger] r[i]).scorer.doc() <= (#[trigger] r[j]).scorer.doc() by {
                let a = if i < best { i } else { i + 1 };
                let b = if j < best { j } else { j + 1 };
                assert(r[i] == s[a] && r[j] == s[b]);
            }
        }
        assert forall|i: int| 0 <= i < best implies (#[trigger] t[i]).scorer.doc()
            <= t[best].scorer.doc() by {
            assert(s[i].scorer.doc() <= s[best].scorer.doc());
        }
    }
    restore_ordering(scorers, scorer_to_seek);
    proof {
        let best = scorer_to_seek as int;
        lemma_permuted(t, scorers@);
        lemma_moved_on_chain(s, t, scorers@, doc_to_seek_after, doc_to_seek_after);
        assert forall|f: DocId| #[trigger] all_skipped_below(s, f) implies all_skipped_below(
            scorers@,
            f,
        ) by {
            assert forall|i: int| 0 <= i < t.len() implies (#[trigger] t[i]).scorer.skipped_below(
                f,
            ) by {
                assert(s[i].scorer.skipped_below(f));
            }
            assert(all_skipped_below(t, f));
        }
        assert(advanced_one(s, scorers@, pivot_len as int, best, doc_to_seek_after));
    }
}

/// `t` is `s` when scorer `i` was moved past the pivot: those between it and `before_pivot_len`
/// stand on the pivot, and no other scorer has moved. No scorer has passed a pivot that it contains.
pub open spec fn went_past(
    s: Seq<TermScorerWithMaxScore>,
    t: Seq<TermScorerWithMaxScore>,
    pivot_doc: DocId,
    before_pivot_len: int,
    i: int,
) -> bool {
    &&& t.len() == s.len()
    &&& 0 <= i < before_pivot_len <= s.len()
    &&& forall|j: int| 0 <= j < s.len() ==> moved(s[j], #[trigger] t[j], pivot_doc)
    &&& forall|j: int|
        0 <= j < s.len() && (j < i || before_pivot_len <= j) ==> #[trigger] t[j] == s[j]
    &&& forall|j: int| i < j < before_pivot_len ==> (#[trigger] t[j]).scorer.doc() == pivot_doc
    &&& t[i].scorer.doc() > pivot_doc
    &&& forall|j: int|
        0 <= j < s.len() && s[j].scorer.matches(pivot_doc) ==> (#[trigger] t[j]).scorer.doc()
            <= pivot_doc
}

/// Moves the first `before_pivot_len` scorers, none of which is past the pivot, to the pivot.
///
/// Returns `true` if they all contain it. As soon as one of them goes past it, that one is put
/// back in order, or dropped if it is exhausted, and `false` is returned.
fn align_scorers(
    term_scorers: &mut Vec<TermScorerWithMaxScore>,
    pivot_doc: DocId,
    before_pivot_len: usize,
) -> (aligned: bool)
    requires
        all_wf(old(term_scorers)@),
        sorted_docs(old(term_scorers)@),
        pivot_doc < TERMINATED,
        before_pivot_len < old(term_scorers)@.len(),
        forall|i: int|
            0 <= i < before_pivot_len ==> (#[trigger] old(term_scorers)@[i]).scorer.doc()
                <= pivot_doc,
        old(term_scorers)@[before_pivot_len as int].scorer.doc() == pivot_doc,
    ensures
        moved_on(old(term_scorers)@, final(term_scorers)@, pivot_doc),
        sorted_docs(final(term_scorers)@),
        forall|f: DocId| #[trigger]
            all_skipped_below(old(term_scorers)@, f) ==> all_skipped_below(final(term_scorers)@, f),
        aligned <==> forall|i: int|
            0 <= i < before_pivot_len ==> (#[trigger] old(term_scorers)@[i]).scorer.matches(
                pivot_doc,
            ),
        aligned ==> {
            &&& final(term_scorers)@.len() == old(term_scorers)@.len()
            &&& forall|i: int|
                0 <= i < before_pivot_len ==> {
                    &&& (#[trigger] final(term_scorers)@[i]).scorer.doc() == pivot_doc
                    &&& final(term_scorers)@[i].scorer.is_loaded()
                }
            &&& forall|i: int|
                before_pivot_len <= i < old(term_scorers)@.len() ==> (
                #[trigger] final(term_scorers)@[i]) == old(term_scorers)@[i]
            &&& forall|i: int|
                0 <= i < old(term_scorers)@.len() ==> moved(
                    old(term_scorers)@[i],
                    #[trigger] final(term_scorers)@[i],
                    pivot_doc,
                )
        },
        !aligned ==> {
            &&& postings_left(final(term_scorers)@) < postings_left(old(term_scorers)@)
            &&& exists|t: Seq<TermScorerWithMaxScore>, i: int|
                {
                    &&& #[trigger] went_past(
                        old(term_scorers)@,
                        t,
                        pivot_doc,
                        before_pivot_len as int,
                        i,
                    )
                    &&& final(term_scorers)@.to_multiset() == (if t[i].scorer.doc() == TERMINATED {
                        t.remove(i)
                    } else {
                        t
                    }).to_multiset()
                }
        },
{
    let ghost s = term_scorers@;
    let mut i: usize = before_pivot_len;
    while i > 0
        invariant
            all_wf(s),
            sorted_docs(s),
            s == old(term_scorers)@,
            pivot_doc < TERMINATED,
            i <= before_pivot_len < s.len(),
            term_scorers@.len() == s.len(),
            forall|j: int| 0 <= j < before_pivot_len ==> (#[trigger] s[j]).scorer.doc() <= pivot_doc,
            s[before_pivot_len as int].scorer.doc() == pivot_doc,
            forall|j: int| 0 <= j < i ==> (#[trigger] term_scorers@[j]) == s[j],
            forall|j: int|
                before_pivot_len <= j < s.len() ==> (#[trigger] term_scorers@[j]) == s[j],
            forall|j: int|
                i <= j < before_pivot_len ==> {
                    &&& moved(s[j], #[trigger] term_scorers@[j], pivot_doc)
                    &&& s[j].scorer.matches(pivot_doc)
                    &&& term_scorers@[j].scorer.doc() == pivot_doc
                    &&& term_scorers@[j].scorer.is_loaded()
                },
        decreases i,
    {
        i = i - 1;
        let ghost t0 = term_scorers@;
        let mut moving = term_scorers[i];
        let new_doc: DocId = moving.scorer.seek(pivot_doc);
        term_scorers[i] = moving;
        let ghost t = term_scorers@;
        proof {
            assert(moved(s[i as int], moving, pivot_doc));
            moving.scorer.lemma_matches();
            assert(moving.scorer.matches(pivot_doc) <==> s[i as int].scorer.matches(pivot_doc));
            assert forall|j: int| i < j < before_pivot_len implies (#[trigger] t[j]) == t0[j] by {}
        }
        if new_doc != pivot_doc {
            proof {
                lemma_seeks_moved(s, t, pivot_doc, i as int);
            }
            if new_doc == TERMINATED {
                term_scorers.swap_remove(i);
                let ghost u = term_scorers@;
                proof {
                    lemma_exhausted_dropped(t, i as int);
                    lemma_swap_removed_same(t, i as int);
                    lemma_moved_on_chain(s, t, u, pivot_doc, pivot_doc);
                    assert(u.remove(i as int) =~= t.remove(i as int).drop_last());
                    lemma_remaining_sorted(s, t, pivot_doc, i as int);
                    assert(sorted_docs(u.remove(i as int))) by {
                        let r = t.remove(i as int);
                        assert forall|a: int, b: int| 0 <= a <= b < r.drop_last().len() implies (
                        #[trigger] r.drop_last()[a]).scorer.doc() <= (
                        #[trigger] r.drop_last()[b]).scorer.doc() by {
                            assert(r[a].scorer.doc() <= r[b].scorer.doc());
                        }
                    }
                    assert(u[i as int] == t.last());
                    assert forall|a: int| 0 <= a < i implies (#[trigger] u[a]).scorer.doc()
                        <= u[i as int].scorer.doc() by {
                        assert(u[a] == s[a]);
                        assert(t.last() == s[s.len() - 1]);
                    }
                }
            } else {
                proof {
                    lemma_remaining_sorted(s, t, pivot_doc, i as int);
                    assert forall|a: int| 0 <= a < i implies (#[trigger] t[a]).scorer.doc()
                        <= t[i as int].scorer.doc() by {
                        assert(t[a] == s[a]);
                    }
                }
            }
            let ghost u = term_scorers@;
            proof {
                assert(moved_on(s, u, pivot_doc));
                assert(postings_left(u) < postings_left(s));
                assert(forall|f: DocId| #[trigger]
                    all_skipped_below(s, f) ==> all_skipped_below(u, f));
            }
            restore_ordering(term_scorers, i);
            proof {
                lemma_permuted(u, term_scorers@);
                lemma_moved_on_chain(s, u, term_scorers@, pivot_doc, pivot_doc);
                assert forall|j: int| 0 <= j < s.len() implies moved(
                    s[j],
                    #[trigger] t[j],
                    pivot_doc,
                ) by {
                    assert(s[j].wf());
                }
                assert forall|j: int|
                    0 <= j < s.len() && s[j].scorer.matches(pivot_doc) implies (
                #[trigger] t[j]).scorer.doc() <= pivot_doc by {
                    assert(moved(s[j], t[j], pivot_doc));
                    t[j].scorer.lemma_matches();
                }
                assert(went_past(s, t, pivot_doc, before_pivot_len as int, i as int));
            }
            return false;
        }
        assert forall|j: int| i <= j < before_pivot_len implies {
            &&& moved(s[j], #[trigger] term_scorers@[j], pivot_doc)
            &&& s[j].scorer.matches(pivot_doc)
            &&& term_scorers@[j].scorer.doc() == pivot_doc
            &&& term_scorers@[j].scorer.is_loaded()
        } by {
            if j > i {
                assert(t[j] == t0[j]);
            }
        }
    }
    proof {
        let t = term_scorers@;
        assert forall|j: int| 0 <= j < s.len() implies moved(
            s[j],
            #[trigger] t[j],
            pivot_doc,
        ) by {}
        lemma_moved_in_place(s, t, pivot_doc);
        assert forall|j: int| 0 <= j < before_pivot_len implies (#[trigger] s[j]).scorer.matches(
            pivot_doc,
        ) by {
            assert(moved(s[j], t[j], pivot_doc));
        }
        assert forall|f: DocId| #[trigger] all_skipped_below(s, f) implies all_skipped_below(
            t,
            f,
        ) by {
            assert forall|j: int| 0 <= j < t.len() implies (#[trigger] t[j]).scorer.skipped_below(
                f,
            ) by {
                assert(s[j].scorer.skipped_below(f));
            }
        }
        assert forall|a: int, b: int| 0 <= a <= b < t.len() implies (#[trigger] t[a]).scorer.doc()
            <= (#[trigger] t[b]).scorer.doc() by {
            if b >= before_pivot_len {
                assert(t[b] == s[b]);
                assert(s[before_pivot_len as int].scorer.doc() <= s[b].scorer.doc());
            }
        }
    }
    true
}

/// Scorers of which those from `i` on may have moved to the pivot, scorer `i` past it.
proof fn lemma_seeks_moved(
    s: Seq<TermScorerWithMaxScore>,
    t: Seq<TermScorerWithMaxScore>,
    pivot_doc: DocId,
    i: int,
)
    requires
        all_wf(s),
        s.len() == t.len(),
        0 <= i < s.len(),
        forall|j: int|
            0 <= j < s.len() ==> (#[trigger] t[j]) == s[j] || (moved(s[j], t[j], pivot_doc)
                && t[j].scorer.is_loaded()),
        s[i].scorer.cursor < t[i].scorer.cursor,
    ensures
        moved_on(s, t, pivot_doc),
        postings_left(t) < postings_left(s),
        forall|f: DocId| #[trigger] all_skipped_below(s, f) ==> all_skipped_below(t, f),
{
    assert forall|j: int| 0 <= j < s.len() implies moved(s[j], #[trigger] t[j], pivot_doc) by {
        assert(s[j].wf());
    }
    lemma_moved_in_place(s, t, pivot_doc);
    let r = s.update(i, t[i]);
    lemma_sum_update(s, i, t[i], left_fn());
    assert forall|j: int| 0 <= j < s.len() implies left_fn()(#[trigger] t[j]) <= left_fn()(
        r[j],
    ) by {
        assert(moved(s[j], t[j], pivot_doc));
    }
    lemma_sum_le(t, r, left_fn(), left_fn());
    assert forall|f: DocId| #[trigger] all_skipped_below(s, f) implies all_skipped_below(t, f) by {
        assert forall|j: int| 0 <= j < t.len() implies (#[trigger] t[j]).scorer.skipped_below(
            f,
        ) by {
            assert(s[j].scorer.skipped_below(f));
        }
    }
}

/// All scorers but the one that went past the pivot are still in order.
proof fn lemma_remaining_sorted(
    s: Seq<TermScorerWithMaxScore>,
    t: Seq<TermScorerWithMaxScore>,
    pivot_doc: DocId,
    i: int,
)
    requires
        sorted_docs(s),
        s.len() == t.len(),
        0 <= i < s.len(),
        forall|j: int|
            0 <= j < s.len() && j != i ==> (#[trigger] t[j]) == s[j] || (s[j].scorer.doc()
                <= pivot_doc && t[j].scorer.doc() == pivot_doc && j > i),
        forall|j: int| 0 <= j < i ==> (#[trigger] s[j]).scorer.doc() <= pivot_doc,
        forall|j: int, k: int|
            i < j < k < s.len() && t[j] != s[j] ==> (#[trigger] t[j]).scorer.doc() <= (
            #[trigger] t[k]).scorer.doc(),
    ensures
        sorted_docs(t.remove(i)),
{
    let r = t.remove(i);
    assert forall|a: int, b: int| 0 <= a <= b < r.len() implies (#[trigger] r[a]).scorer.doc() <= (
    #[trigger] r[b]).scorer.doc() by {
        let x = if a < i { a } else { a + 1 };
        let y = if b < i { b } else { b + 1 };
        assert(r[a] == t[x] && r[b] == t[y]);
        assert(s[x].scorer.doc() <= s[y].scorer.doc());
    }
}

/// The scorers with the first `pivot_len` of them one document further.
pub open spec fn advanced_prefix<'a>(
    s: Seq<TermScorerWithMaxScore<'a>>,
    pivot_len: int,
) -> Seq<TermScorerWithMaxScore<'a>> {
    Seq::new(
        s.len(),
        |i: int|
            if i < pivot_len {
                s[i].next()
            } else {
                s[i]
            },
    )
}

/// The first `n` scorers stand on `doc`.
pub open spec fn stand_on(s: Seq<TermScorerWithMaxScore>, n: int, doc: DocId) -> bool {
    forall|i: int| 0 <= i < n ==> (#[trigger] s[i]).scorer.doc() == doc
}

/// Advances the first `pivot_len` scorers, drops the exhausted scorers and restores the order.
///
/// The advanced scorers are meant to stand on the same document: nothing is lost after it.
fn advance_all_scorers_on_pivot(
    term_scorers: &mut Vec<TermScorerWithMaxScore>,
    pivot_len: usize,
)
    requires
        all_wf(old(term_scorers)@),
        pivot_len <= old(term_scorers)@.len(),
        forall|i: int|
            0 <= i < pivot_len ==> (#[trigger] old(term_scorers)@[i]).scorer.is_loaded(),
    ensures
        sorted_docs(final(term_scorers)@),
        forall|i: int|
            0 <= i < final(term_scorers)@.len() ==> (
            #[trigger] final(term_scorers)@[i]).scorer.doc() != TERMINATED,
        exists|dropped: Seq<TermScorerWithMaxScore>|
            {
                &&& #[trigger] dropped.to_multiset().add(final(term_scorers)@.to_multiset())
                    == advanced_prefix(old(term_scorers)@, pivot_len as int).to_multiset()
                &&& forall|i: int|
                    0 <= i < dropped.len() ==> (#[trigger] dropped[i]).scorer.doc() == TERMINATED
            },
        forall|p: DocId|
            0 < pivot_len && p < TERMINATED && #[trigger] stand_on(
                old(term_scorers)@,
                pivot_len as int,
                p,
            ) ==> {
                &&& moved_on(old(term_scorers)@, final(term_scorers)@, (p + 1) as DocId)
                &&& postings_left(final(term_scorers)@) < postings_left(old(term_scorers)@)
                &&& (forall|i: int|
                    pivot_len <= i < old(term_scorers)@.len() ==> (
                    #[trigger] old(term_scorers)@[i]).scorer.doc() > p) ==> forall|i: int|
                    0 <= i < final(term_scorers)@.len() ==> (
                    #[trigger] final(term_scorers)@[i]).scorer.doc() > p
            },
        forall|f: DocId| #[trigger]
            all_skipped_below(old(term_scorers)@, f) ==> all_skipped_below(final(term_scorers)@, f),
{
    let ghost s = term_scorers@;
    let ghost target = advanced_prefix(s, pivot_len as int);
    let mut ord: usize = 0;
    while ord < pivot_len
        invariant
            ord <= pivot_len <= s.len(),
            all_wf(s),
            target == advanced_prefix(s, pivot_len as int),
            term_scorers@.len() == s.len(),
            forall|i: int| 0 <= i < pivot_len ==> (#[trigger] s[i]).scorer.is_loaded(),
            forall|i: int| ord <= i < s.len() ==> (#[trigger] term_scorers@[i]) == s[i],
            forall|i: int| 0 <= i < ord ==> (#[trigger] term_scorers@[i]) == target[i],
        decreases pivot_len - ord,
    {
        let mut moving = term_scorers[ord];
        assert(moving == s[ord as int]);
        proof {
            moving.scorer.lemma_matches();
        }
        moving.scorer.advance();
        term_scorers[ord] = moving;
        assert(moving == s[ord as int].next());
        ord = ord + 1;
    }
    let ghost t = term_scorers@;
    proof {
        assert(t =~= target);
        assert forall|i: int| 0 <= i < t.len() implies (#[trigger] t[i]).wf() by {
            if i < pivot_len {
                lemma_next_scorer(s[i]);
            } else {
                assert(t[i] == s[i]);
            }
        }
    }
    let ghost mut dropped: Seq<TermScorerWithMaxScore> = Seq::empty();
    let mut i: usize = 0;
    proof {
        broadcast use vstd::multiset::group_multiset_axioms;
        broadcast use vstd::seq_lib::group_to_multiset_ensures;

        assert forall|w: TermScorerWithMaxScore| dropped.to_multiset().count(w) == 0 by {
            assert(!dropped.contains(w));
        }
        assert(dropped.to_multiset().add(t.to_multiset()) =~= t.to_multiset());
        lemma_moved_in_place(t, t, 0);
    }
    while i != term_scorers.len()
        invariant
            i <= term_scorers@.len(),
            all_wf(t),
            moved_on(t, term_scorers@, 0),
            forall|f: DocId| #[trigger]
                all_skipped_below(t, f) ==> all_skipped_below(term_scorers@, f),
            dropped.to_multiset().add(term_scorers@.to_multiset()) == t.to_multiset(),
            forall|j: int|
                0 <= j < dropped.len() ==> (#[trigger] dropped[j]).scorer.doc() == TERMINATED,
            forall|j: int| 0 <= j < i ==> (#[trigger] term_scorers@[j]).scorer.doc() != TERMINATED,
        decreases term_scorers@.len() - i,
    {
        if term_scorers[i].scorer.doc() == TERMINATED {
            let ghost u = term_scorers@;
            let ghost d = dropped;
            term_scorers.swap_remove(i);
            proof {
                dropped = d.push(u[i as int]);
                lemma_exhausted_dropped(u, i as int);
                lemma_moved_on_chain(t, u, term_scorers@, 0, 0);
                lemma_swap_removed(d, u, i as int);
                assert forall|f: DocId| #[trigger]
                    all_skipped_below(t, f) implies all_skipped_below(term_scorers@, f) by {
                    assert(all_skipped_below(u, f));
                }
            }
        } else {
            i = i + 1;
        }
    }
    let ghost u = term_scorers@;
    sort_by_key(term_scorers, doc_key, Ghost(doc_fn()));
    proof {
        let v = term_scorers@;
        lemma_permuted(u, v);
        lemma_moved_on_chain(t, u, v, 0, 0);
        assert forall|j: int| 0 <= j < v.len() implies (#[trigger] v[j]).scorer.doc()
            != TERMINATED by {
            let k = lemma_permutation_member(u, v, j);
        }
        assert forall|a: int, b: int| 0 <= a <= b < v.len() implies (#[trigger] v[a]).scorer.doc()
            <= (#[trigger] v[b]).scorer.doc() by {
            assert(doc_fn()(v[a]) <= doc_fn()(v[b]));
        }
        assert(dropped.to_multiset().add(v.to_multiset()) == target.to_multiset());
        assert forall|f: DocId| #[trigger] all_skipped_below(s, f) implies all_skipped_below(
            v,
            f,
        ) by {
            assert forall|j: int| 0 <= j < t.len() implies (#[trigger] t[j]).scorer.skipped_below(
                f,
            ) by {
                assert(s[j].scorer.skipped_below(f));
                if j < pivot_len {
                    lemma_next_scorer(s[j]);
                }
            }
            assert(all_skipped_below(t, f));
            assert(all_skipped_below(u, f));
        }
        assert forall|p: DocId|
            0 < pivot_len && p < TERMINATED && #[trigger] stand_on(
                s,
                pivot_len as int,
                p,
            ) implies {
            &&& moved_on(s, v, (p + 1) as DocId)
            &&& postings_left(v) < postings_left(s)
            &&& (forall|i: int|
                pivot_len <= i < s.len() ==> (#[trigger] s[i]).scorer.doc() > p) ==> forall|i: int|
                0 <= i < v.len() ==> (#[trigger] v[i]).scorer.doc() > p
        } by {
            lemma_advanced(s, pivot_len as int, p);
            lemma_moved_on_zero(s, t, v, (p + 1) as DocId);
            if forall|i: int| pivot_len <= i < s.len() ==> (#[trigger] s[i]).scorer.doc() > p {
                assert forall|j: int| 0 <= j < v.len() implies (#[trigger] v[j]).scorer.doc()
                    > p by {
                    lemma_multiset_commutative(dropped, v);
                    assert((dropped + v)[dropped.len() + j] == v[j]);
                    let k = lemma_permutation_member(t, dropped + v, dropped.len() + j);
                    assert(t[k] == v[j]);
                    if k < pivot_len {
                        assert(s[k].scorer.doc() == p);
                        lemma_next_scorer(s[k]);
                    } else {
                        assert(t[k] == s[k]);
                    }
                }
            }
        }
    }
}

/// One document further.
proof fn lemma_next_scorer(w: TermScorerWithMaxScore)
    requires
        w.wf(),
        w.scorer.is_loaded(),
    ensures
        w.next().wf(),
        w.next().scorer.is_loaded(),
        forall|f: DocId| #[trigger] w.next().scorer.skipped_below(f),
        w.scorer.doc() < TERMINATED ==> {
            &&& moved(w, w.next(), (w.scorer.doc() + 1) as DocId)
            &&& w.next().scorer.doc() > w.scorer.doc()
            &&& w.next().scorer.cursor > w.scorer.cursor
        },
{
    w.scorer.lemma_matches();
    let list = w.scorer.list;
    let next = w.next();
    assert(list.docs@.len() == list.docs.len());
    if w.scorer.cursor < list.docs@.len() {
        assert(w.scorer.cursor + 1 <= usize::MAX);
        assert(next.scorer.cursor == w.scorer.cursor + 1);
        if w.scorer.cursor + 1 < list.docs@.len() {
            assert(list.docs@[w.scorer.cursor as int] < list.docs@[w.scorer.cursor + 1]);
        }
    }
    assert forall|d: DocId| w.scorer.doc() < TERMINATED && d > w.scorer.doc() implies (
    #[trigger] next.scorer.matches(d) <==> w.scorer.matches(d)) by {
        if list.contains(d) {
            let j = list.position(d);
            assert(list.docs@[j] == d);
            assert(w.scorer.doc() == list.docs@[w.scorer.cursor as int]);
        }
    }
}

/// Advancing the scorers on `p` loses nothing after it.
proof fn lemma_advanced(s: Seq<TermScorerWithMaxScore>, n: int, p: DocId)
    requires
        all_wf(s),
        0 < n <= s.len(),
        forall|i: int| 0 <= i < n ==> (#[trigger] s[i]).scorer.is_loaded(),
        p < TERMINATED,
        stand_on(s, n, p),
    ensures
        moved_on(s, advanced_prefix(s, n), (p + 1) as DocId),
        postings_left(advanced_prefix(s, n)) < postings_left(s),
{
    let t = advanced_prefix(s, n);
    let from = (p + 1) as DocId;
    assert forall|j: int| 0 <= j < s.len() implies (#[trigger] t[j]) == s[j] || (moved(
        s[j],
        t[j],
        from,
    ) && t[j].scorer.is_loaded()) by {
        if j < n {
            assert(s[j].scorer.doc() == p);
            lemma_next_scorer(s[j]);
        }
    }
    assert(s[0].scorer.doc() == p);
    lemma_next_scorer(s[0]);
    lemma_seeks_moved(s, t, from, 0);
}

/// Moves on, then drops and reorders.
proof fn lemma_moved_on_zero(
    a: Seq<TermScorerWithMaxScore>,
    b: Seq<TermScorerWithMaxScore>,
    c: Seq<TermScorerWithMaxScore>,
    from: DocId,
)
    requires
        moved_on(a, b, from),
        moved_on(b, c, 0),
    ensures
        moved_on(a, c, from),
{
    assert(moved_on(b, c, from));
    lemma_moved_on_chain(a, b, c, from, from);
}

/// The first `count` scorers are non-essential: the maximum scores up to each of them, and with
/// it, add up to the threshold at most. With one more they exceed it.
pub open spec fn is_non_essential_count(
    scorers: Seq<TermScorerWithMaxScore>,
    threshold: Score,
    count: int,
) -> bool {
    &&& 0 <= count <= scorers.len()
    &&& forall|i: int| 0 < i <= count ==> max_score_sum(#[trigger] scorers.take(i)) <= threshold
    &&& count < scorers.len() ==> max_score_sum(scorers.take(count + 1)) > threshold
}

/// As the threshold rises, more terms become non-essential.
pub proof fn law_non_essential_terms_grow(
    scorers: Seq<TermScorerWithMaxScore>,
    threshold: Score,
    count: int,
    higher: Score,
    higher_count: int,
)
    requires
        is_non_essential_count(scorers, threshold, count),
        is_non_essential_count(scorers, higher, higher_count),
        threshold <= higher,
    ensures
        count <= higher_count,
{
    if higher_count < count {
        assert(max_score_sum(scorers.take(higher_count + 1)) <= threshold);
    }
}

/// Returns the number of non-essential terms of scorers that are sorted by maximum score.
///
/// A term is non-essential if the maximum scores up to it and with it add up to the threshold at
/// most: such terms alone cannot lift a document above the threshold.
pub fn compute_non_essential_count(
    scorers: &Vec<TermScorerWithMaxScore>,
    threshold: Score,
) -> (count: usize)
    requires
        all_wf(scorers@),
        max_score_sum(scorers@) <= Score::MAX,
    ensures
        is_non_essential_count(scorers@, threshold, count as int),
{
    let ghost s = scorers@;
    let len: usize = scorers.len();
    let mut sum: Score = 0;
    let mut i: usize = 0;
    while i < len
        invariant
            s == scorers@,
            len == s.len(),
            all_wf(s),
            max_score_sum(s) <= Score::MAX,
            i <= len,
            sum == max_score_sum(s.take(i as int)),
            forall|j: int| 0 < j <= i ==> max_score_sum(#[trigger] s.take(j)) <= threshold,
        decreases len - i,
    {
        proof {
            lemma_sum_take(s, i as int, max_score_fn());
            lemma_max_score_sum_prefix(s, i as int, i + 1);
        }
        sum = sum + scorers[i].max_score;
        if sum > threshold {
            return i;
        }
        i = i + 1;
    }
    len
}

/// Scores the non-essential terms for a candidate document.
///
/// The scorers are sorted by maximum score and taken from the highest to the lowest. As soon as
/// what is left cannot lift the total above the threshold, the rest is not looked at: the result
/// is exact if the total exceeds the threshold.
fn score_non_essential_terms(
    non_essential: &mut Vec<TermScorerWithMaxScore>,
    non_essential_max_score_sum: Score,
    pivot_doc: DocId,
    threshold: Score,
    essential_score: Score,
) -> (score: Score)
    requires
        all_wf(old(non_essential)@),
        non_essential_max_score_sum == max_score_sum(old(non_essential)@),
        0 <= essential_score,
        essential_score + non_essential_max_score_sum <= Score::MAX,
        pivot_doc < TERMINATED,
    ensures
        essential_score + non_essential_max_score_sum <= threshold ==> score == 0
            && *final(non_essential) == *old(non_essential),
        0 <= score <= total_at(old(non_essential)@, pivot_doc),
        essential_score + total_at(old(non_essential)@, pivot_doc) > threshold ==> score
            == total_at(old(non_essential)@, pivot_doc),
        final(non_essential)@.len() == old(non_essential)@.len(),
        forall|i: int|
            0 <= i < final(non_essential)@.len() ==> moved(
                old(non_essential)@[i],
                #[trigger] final(non_essential)@[i],
                pivot_doc,
            ),
        moved_on(old(non_essential)@, final(non_essential)@, pivot_doc),
        max_score_sum(final(non_essential)@) == max_score_sum(old(non_essential)@),
{
    let ghost s = non_essential@;
    proof {
        lemma_total_bounded(s, pivot_doc);
        lemma_moved_in_place(s, s, pivot_doc);
    }
    if essential_score + non_essential_max_score_sum <= threshold {
        return 0;
    }
    let mut score: Score = 0;
    let mut remaining_max: Score = non_essential_max_score_sum;
    let mut i: usize = non_essential.len();
    proof {
        assert(s.take(i as int) =~= s);
        assert(s.skip(i as int) =~= Seq::empty());
        lemma_scored_suffix(s, i as int, pivot_doc);
    }
    while i > 0
        invariant
            all_wf(s),
            0 <= essential_score,
            pivot_doc < TERMINATED,
            essential_score + max_score_sum(s) <= Score::MAX,
            i <= s.len() == non_essential@.len(),
            remaining_max == max_score_sum(s.take(i as int)),
            0 <= score <= total_at(s, pivot_doc),
            score == total_at(s.skip(i as int), pivot_doc),
            i == 0 ==> score == total_at(s, pivot_doc),
            forall|j: int|
                0 <= j < s.len() ==> moved(s[j], #[trigger] non_essential@[j], pivot_doc),
            forall|j: int| 0 <= j < i ==> (#[trigger] non_essential@[j]) == s[j],
        ensures
            0 <= score <= total_at(s, pivot_doc),
            score == total_at(s, pivot_doc) || essential_score + total_at(s, pivot_doc)
                <= threshold,
            s.len() == non_essential@.len(),
            forall|j: int|
                0 <= j < s.len() ==> moved(s[j], #[trigger] non_essential@[j], pivot_doc),
        decreases i,
    {
        proof {
            lemma_scored_suffix(s, i as int, pivot_doc);
        }
        if essential_score + score + remaining_max <= threshold {
            break;
        }
        i = i - 1;
        proof {
            lemma_scored_suffix(s, i as int, pivot_doc);
            lemma_sum_take(s, i as int, max_score_fn());
            assert(s.skip(i as int) =~= seq![s[i as int]] + s.skip(i + 1));
            lemma_sum_append(seq![s[i as int]], s.skip(i + 1), score_fn(pivot_doc));
            lemma_sum_push(Seq::empty(), s[i as int], score_fn(pivot_doc));
            assert(Seq::empty().push(s[i as int]) =~= seq![s[i as int]]);
            s[i as int].scorer.lemma_matches();
        }
        remaining_max = remaining_max - non_essential[i].max_score;
        if non_essential[i].scorer.doc() > pivot_doc {
            assert(!s[i as int].scorer.matches(pivot_doc));
            continue;
        }
        let ghost before = non_essential@;
        let mut moving = non_essential[i];
        let doc: DocId = moving.scorer.seek(pivot_doc);
        non_essential[i] = moving;
        proof {
            moving.scorer.lemma_matches();
            assert(moving.scorer.matches(pivot_doc) <==> s[i as int].scorer.matches(pivot_doc));
            assert(moving.scorer.score_at(pivot_doc) == s[i as int].scorer.score_at(pivot_doc));
            assert(moved(s[i as int], moving, pivot_doc));
            assert forall|j: int| 0 <= j < s.len() implies moved(
                s[j],
                #[trigger] non_essential@[j],
                pivot_doc,
            ) by {
                if j != i {
                    assert(non_essential@[j] == before[j]);
                }
            }
        }
        if doc == pivot_doc {
            score = score + moving.scorer.score();
        }
    }
    proof {
        lemma_moved_in_place(s, non_essential@, pivot_doc);
        lemma_sum_eq(non_essential@, s, max_score_fn(), max_score_fn());
    }
    score
}

/// A total cut at `i`: the part before is bounded by its maximum scores.
proof fn lemma_scored_suffix(s: Seq<TermScorerWithMaxScore>, i: int, doc: DocId)
    requires
        all_wf(s),
        0 <= i <= s.len(),
    ensures
        total_at(s, doc) == total_at(s.take(i), doc) + total_at(s.skip(i), doc),
        0 <= total_at(s.take(i), doc) <= max_score_sum(s.take(i)),
        0 <= total_at(s.skip(i), doc) <= max_score_sum(s.skip(i)),
        max_score_sum(s) == max_score_sum(s.take(i)) + max_score_sum(s.skip(i)),
        i == 0 ==> total_at(s.take(i), doc) == 0,
{
    lemma_sum_split(s, i, score_fn(doc));
    lemma_sum_split(s, i, max_score_fn());
    lemma_total_bounded(s.take(i), doc);
    lemma_total_bounded(s.skip(i), doc);
}

/// No scorer of `demoted` has a higher maximum score than one of `kept`.
pub open spec fn no_heavier(
    demoted: Seq<TermScorerWithMaxScore>,
    kept: Seq<TermScorerWithMaxScore>,
) -> bool {
    forall|i: int, j: int|
        0 <= i < demoted.len() && 0 <= j < kept.len() ==> (#[trigger] demoted[i]).max_score <= (
        #[trigger] kept[j]).max_score
}

fn placed_max_score_key(placed: &(usize, TermScorerWithMaxScore)) -> (key: i128)
    ensures
        key == placed_key_fn(max_score_fn())(*placed),
{
    placed.1.max_score as i128
}

/// Moves essential scorers to the non-essential ones after the threshold has risen.
///
/// Scorers are demoted in the order of their maximum scores, as long as all maximum scores of
/// non-essential scorers add up to the threshold at most.
fn rebalance_partition<'a>(
    essential: &mut Vec<TermScorerWithMaxScore<'a>>,
    non_essential: &mut Vec<TermScorerWithMaxScore<'a>>,
    non_essential_max_score_sum: &mut Score,
    threshold: Score,
)
    requires
        all_wf(old(essential)@),
        all_wf(old(non_essential)@),
    ensures
        exists|demoted: Seq<TermScorerWithMaxScore>|
            {
                &&& #[trigger] final(essential)@.to_multiset().add(demoted.to_multiset()) == old(essential)@.to_multiset()
                &&& old(non_essential)@.to_multiset().add(demoted.to_multiset()) == final(non_essential)@.to_multiset()
                &&& no_heavier(demoted, final(essential)@)
            },
        exists|places: Seq<usize>| #[trigger]
            is_lightest(old(essential)@, places, max_score_fn()) && places.len() == old(essential)@.len() - final(essential)@.len() && same_ties(
                swap_out(old(essential)@, places).0,
                final(essential)@,
                doc_fn(),
            ) && same_ties(
                old(non_essential)@ + swap_out(old(essential)@, places).1,
                final(non_essential)@,
                max_score_fn(),
            ),
        *final(non_essential_max_score_sum) - *old(non_essential_max_score_sum) == max_score_sum(
            old(essential)@,
        ) - max_score_sum(final(essential)@),
        max_score_sum(final(essential)@) + max_score_sum(final(non_essential)@) == max_score_sum(
            old(essential)@,
        ) + max_score_sum(old(non_essential)@),
        final(essential)@.len() == old(essential)@.len() ==> {
            &&& final(essential)@ == old(essential)@
            &&& final(non_essential)@ == old(non_essential)@
        },
        final(essential)@.len() != old(essential)@.len() ==> {
            &&& final(essential)@.len() < old(essential)@.len()
            &&& sorted_docs(final(essential)@)
            &&& sorted_by_key(final(non_essential)@, max_score_fn())
            &&& *final(non_essential_max_score_sum) <= threshold
        },
        forall|i: int|
            0 <= i < final(essential)@.len() ==> *final(non_essential_max_score_sum) + (
            #[trigger] final(essential)@[i]).max_score > threshold,
{
    let ghost e = essential@;
    let ghost n = non_essential@;
    let order: Vec<(usize, TermScorerWithMaxScore<'a>)> = places_by_key(
        essential,
        placed_max_score_key,
        Ghost(max_score_fn()),
    );
    let ghost b = order@.map_values(item_fn());
    let ghost base = *non_essential_max_score_sum as int;
    proof {
        lemma_permuted(e, b);
        assert(b.take(0) =~= Seq::empty());
    }
    let mut running_sum: Score = *non_essential_max_score_sum;
    let mut to_demote: usize = 0;
    while to_demote < order.len()
        invariant
            b == order@.map_values(item_fn()),
            all_wf(b),
            to_demote <= b.len(),
            Score::MIN <= base <= running_sum,
            running_sum == base + max_score_sum(b.take(to_demote as int)),
            to_demote > 0 ==> running_sum <= threshold,
        ensures
            to_demote <= b.len(),
            running_sum == base + max_score_sum(b.take(to_demote as int)),
            to_demote > 0 ==> running_sum <= threshold,
            to_demote < b.len() ==> running_sum + b[to_demote as int].max_score > threshold,
        decreases order@.len() - to_demote,
    {
        proof {
            lemma_sum_take(b, to_demote as int, max_score_fn());
            lemma_max_score_sum_prefix(b, to_demote as int, to_demote + 1);
            assert(b[to_demote as int] == order@[to_demote as int].1);
        }
        let max_score: Score = order[to_demote].1.max_score;
        if running_sum as i128 + max_score as i128 <= threshold as i128 {
            running_sum = running_sum + max_score;
            to_demote = to_demote + 1;
        } else {
            break;
        }
    }
    proof {
        assert forall|j: int| to_demote <= j < b.len() implies running_sum + (
        #[trigger] b[j]).max_score > threshold by {
            assert(max_score_fn()(b[to_demote as int]) <= max_score_fn()(b[j]));
        }
    }
    if to_demote == 0 {
        proof {
            assert forall|j: int| 0 <= j < e.len() implies base + (
            #[trigger] e[j]).max_score > threshold by {
                let k = lemma_permutation_member(b, e, j);
                assert(running_sum + b[k].max_score > threshold);
            }
            assert(b.skip(0) =~= b);
            assert(n + b.take(0) =~= n);
            lemma_partition_moved(e, n, b, 0, e, n);
            assert(e.to_multiset().add(b.take(0).to_multiset()) == e.to_multiset());
            assert(no_heavier(b.take(0), e));
            let nowhere: Seq<usize> = Seq::empty();
            assert(is_lightest(e, nowhere, max_score_fn()));
            assert(n + swap_out(e, nowhere).1 =~= n);
        }
        return ;
    }
    let mut demoted: Vec<TermScorerWithMaxScore<'a>> = take_first_places(
        essential,
        &order,
        to_demote,
        Ghost(max_score_fn()),
    );
    let ghost moved_over = demoted@;
    let ghost unsorted = essential@;
    non_essential.append(&mut demoted);
    let ghost joined = non_essential@;
    sort_by_key(essential, doc_key, Ghost(doc_fn()));
    sort_by_key(non_essential, max_score_key, Ghost(max_score_fn()));
    *non_essential_max_score_sum = running_sum;
    proof {
        let rest = b.skip(to_demote as int);
        let first = b.take(to_demote as int);
        let kept = essential@;
        assert(joined =~= n + moved_over);
        lemma_multiset_commutative(n, moved_over);
        lemma_multiset_commutative(n, first);
        assert(non_essential@.to_multiset() == (n + first).to_multiset());
        lemma_partition_moved(e, n, b, to_demote as int, kept, non_essential@);
        assert forall|j: int| 0 <= j < kept.len() implies running_sum + (
        #[trigger] kept[j]).max_score > threshold by {
            let k = lemma_permutation_member(rest, kept, j);
            assert(rest[k] == b[to_demote + k]);
        }
        assert forall|x: int, y: int| 0 <= x <= y < kept.len() implies (
        #[trigger] kept[x]).scorer.doc() <= (#[trigger] kept[y]).scorer.doc() by {
            assert(doc_fn()(kept[x]) <= doc_fn()(kept[y]));
        }
        assert(no_heavier(moved_over, kept)) by {
            assert forall|x: int, y: int|
                0 <= x < moved_over.len() && 0 <= y < kept.len() implies (
            #[trigger] moved_over[x]).max_score <= (#[trigger] kept[y]).max_score by {
                let k = lemma_permutation_member(unsorted, kept, y);
                assert(max_score_fn()(moved_over[x]) <= max_score_fn()(unsorted[k]));
            }
        }
        assert(kept.to_multiset().add(moved_over.to_multiset()) == e.to_multiset());
        lemma_sum_permutation(b, e, max_score_fn());
        lemma_sum_permutation(rest, kept, max_score_fn());
        lemma_sum_split(b, to_demote as int, max_score_fn());
        let places = choose|places: Seq<usize>| #[trigger]
            is_lightest(e, places, max_score_fn()) && places.len() == to_demote && (
                unsorted,
                moved_over,
            ) == swap_out(e, places);
        assert(swap_out(e, places).0 == unsorted);
        assert(swap_out(e, places).1 == moved_over);
    }
}

/// Moving the first `k` of a permutation `b` of `e` over to `n`.
proof fn lemma_partition_moved(
    e: Seq<TermScorerWithMaxScore>,
    n: Seq<TermScorerWithMaxScore>,
    b: Seq<TermScorerWithMaxScore>,
    k: int,
    e2: Seq<TermScorerWithMaxScore>,
    n2: Seq<TermScorerWithMaxScore>,
)
    requires
        b.to_multiset() == e.to_multiset(),
        0 <= k <= b.len(),
        e2.to_multiset() == b.skip(k).to_multiset(),
        n2.to_multiset() == (n + b.take(k)).to_multiset(),
    ensures
        e2.to_multiset().add(b.take(k).to_multiset()) == e.to_multiset(),
        n.to_multiset().add(b.take(k).to_multiset()) == n2.to_multiset(),
        max_score_sum(n2) == max_score_sum(n) + max_score_sum(b.take(k)),
        e2.len() == e.len() - k,
{
    broadcast use vstd::multiset::group_multiset_axioms;
    broadcast use vstd::seq_lib::group_to_multiset_ensures;

    let demoted = b.take(k);
    let rest = b.skip(k);
    assert(b =~= demoted + rest);
    lemma_multiset_commutative(demoted, rest);
    lemma_multiset_commutative(n, demoted);
    assert(e2.to_multiset().add(demoted.to_multiset()) =~= e.to_multiset());
    assert(n.to_multiset().add(demoted.to_multiset()) =~= n2.to_multiset());
    lemma_sum_permutation(n2, n + demoted, max_score_fn());
    lemma_sum_append(n, demoted, max_score_fn());
    assert(e2.len() == e2.to_multiset().len() && rest.len() == rest.to_multiset().len());
    assert(e.len() == e.to_multiset().len() && b.len() == b.to_multiset().len());
}

/// Moves the blocks of the first `pivot_len` scorers up to the pivot, and adds up their bounds.
fn seek_blocks(
    essential: &mut Vec<TermScorerWithMaxScore>,
    pivot_len: usize,
    pivot_doc: DocId,
    Ghost(floor): Ghost<DocId>,
) -> (essential_block_max: Score)
    requires
        all_wf(old(essential)@),
        all_skipped_below(old(essential)@, floor),
        floor <= pivot_doc < TERMINATED,
        pivot_len <= old(essential)@.len(),
        max_score_sum(old(essential)@) <= Score::MAX,
    ensures
        final(essential)@.len() == old(essential)@.len(),
        forall|j: int|
            0 <= j < old(essential)@.len() ==> block_moved(
                old(essential)@[j],
                #[trigger] final(essential)@[j],
                pivot_doc,
            ),
        forall|j: int|
            pivot_len <= j < old(essential)@.len() ==> (#[trigger] final(essential)@[j]) == old(essential)@[j],
        forall|j: int|
            0 <= j < pivot_len ==> (#[trigger] final(essential)@[j]).scorer.last_doc_in_block()
                >= pivot_doc,
        essential_block_max == sum_by(final(essential)@.take(pivot_len as int), block_max_fn()),
        0 <= essential_block_max <= max_score_sum(old(essential)@),
{
    let ghost e0 = essential@;
    let mut essential_block_max: Score = 0;
    let mut ord: usize = 0;
    proof {
        assert(e0.take(0) =~= Seq::empty());
    }
    while ord < pivot_len
        invariant
            ord <= pivot_len <= e0.len() == essential@.len(),
            all_wf(e0),
            all_skipped_below(e0, floor),
            floor <= pivot_doc < TERMINATED,
            max_score_sum(e0) <= Score::MAX,
            forall|j: int|
                0 <= j < e0.len() ==> block_moved(e0[j], #[trigger] essential@[j], pivot_doc),
            forall|j: int| ord <= j < e0.len() ==> (#[trigger] essential@[j]) == e0[j],
            forall|j: int|
                0 <= j < ord ==> (#[trigger] essential@[j]).scorer.last_doc_in_block()
                    >= pivot_doc,
            essential_block_max == sum_by(essential@.take(ord as int), block_max_fn()),
            0 <= essential_block_max <= max_score_sum(e0.take(ord as int)),
        decreases pivot_len - ord,
    {
        let ghost before = essential@;
        let mut moving = essential[ord];
        moving.scorer.seek_block(pivot_doc);
        essential[ord] = moving;
        proof {
            assert(e0[ord as int].scorer.skipped_below(floor));
            assert(block_moved(e0[ord as int], moving, pivot_doc));
            assert(essential@.take(ord as int) =~= before.take(ord as int));
            lemma_sum_take(essential@, ord as int, block_max_fn());
            lemma_sum_take(e0, ord as int, max_score_fn());
            lemma_max_score_sum_prefix(e0, ord as int, ord + 1);
            assert forall|j: int| 0 <= j < e0.len() implies block_moved(
                e0[j],
                #[trigger] essential@[j],
                pivot_doc,
            ) by {
                if j != ord {
                    assert(essential@[j] == before[j]);
                }
            }
        }
        essential_block_max = essential_block_max + moving.scorer.block_max_score();
        ord = ord + 1;
    }
    proof {
        lemma_max_score_sum_prefix(e0, pivot_len as int, pivot_len as int);
    }
    essential_block_max
}

/// Adds up the scores of the first `pivot_len` scorers, which stand on the pivot.
fn score_pivot(
    essential: &Vec<TermScorerWithMaxScore>,
    pivot_len: usize,
    pivot_doc: DocId,
) -> (essential_score: Score)
    requires
        all_wf(essential@),
        pivot_doc < TERMINATED,
        pivot_len <= essential@.len(),
        max_score_sum(essential@) <= Score::MAX,
        forall|j: int|
            0 <= j < pivot_len ==> {
                &&& (#[trigger] essential@[j]).scorer.doc() == pivot_doc
                &&& essential@[j].scorer.is_loaded()
            },
        forall|j: int|
            pivot_len <= j < essential@.len() ==> (#[trigger] essential@[j]).scorer.doc()
                > pivot_doc,
    ensures
        essential_score == total_at(essential@, pivot_doc),
        0 <= essential_score <= max_score_sum(essential@),
{
    let ghost e = essential@;
    let mut essential_score: Score = 0;
    let mut scored: usize = 0;
    proof {
        assert(e.take(0) =~= Seq::empty());
    }
    while scored < pivot_len
        invariant
            scored <= pivot_len <= e.len(),
            essential@ == e,
            all_wf(e),
            pivot_doc < TERMINATED,
            max_score_sum(e) <= Score::MAX,
            forall|j: int|
                0 <= j < pivot_len ==> {
                    &&& (#[trigger] e[j]).scorer.doc() == pivot_doc
                    &&& e[j].scorer.is_loaded()
                },
            essential_score == sum_by(e.take(scored as int), score_fn(pivot_doc)),
            0 <= essential_score <= max_score_sum(e.take(scored as int)),
        decreases pivot_len - scored,
    {
        proof {
            lemma_sum_take(e, scored as int, score_fn(pivot_doc));
            lemma_sum_take(e, scored as int, max_score_fn());
            lemma_max_score_sum_prefix(e, scored as int, scored + 1);
        }
        essential_score = essential_score + essential[scored].scorer.score();
        scored = scored + 1;
    }
    proof {
        lemma_max_score_sum_prefix(e, pivot_len as int, pivot_len as int);
        lemma_pivot_score(e, pivot_len as int, pivot_doc);
    }
    essential_score
}

/// Visits the documents that can exceed the threshold, with Block-Max WAND on essential terms.
///
/// Terms are split into essential ones, which are walked, and non-essential ones, whose maximum
/// scores together do not reach above the threshold and which are only looked up for candidates.
/// As the threshold rises, more terms become non-essential.
///
/// `callback` is called for documents in ascending order, each with a score above the threshold
/// in force, and answers with the threshold to use from there on. A document is only left out if
/// it does not score more than the highest threshold that was in force before it.
pub fn block_wand<C: ScoreCallback>(
    scorers: Vec<TermScorer>,
    threshold: Score,
    callback: &mut C,
)
    requires
        all_ready(scorers@),
        sum_by(scorers@, term_max_score()) <= Score::MAX,
        old(callback).inv(),
    ensures
        final(callback).inv(),
        final(callback).setup() == old(callback).setup(),
        continues(old(callback).calls(), final(callback).calls()),
        pruned_run(
            scored_docs(scorers@),
            threshold,
            new_calls(old(callback).calls(), final(callback).calls()),
        ),
        calls_exceed(threshold, new_calls(old(callback).calls(), final(callback).calls())),
{
    let ghost docs = scored_docs(scorers@);
    let ghost start = threshold;
    let ghost history = callback.calls();
    let ghost mut calls: Seq<Call> = Seq::empty();

    let mut by_max_score: Vec<TermScorerWithMaxScore> = Vec::new();
    let mut i: usize = 0;
    while i < scorers.len()
        invariant
            i <= scorers@.len(),
            all_ready(scorers@),
            by_max_score@.len() == i,
            forall|j: int|
                0 <= j < i ==> (#[trigger] by_max_score@[j]).scorer == scorers@[j]
                    && by_max_score@[j].max_score == scorers@[j].list.max_score,
        decreases scorers@.len() - i,
    {
        by_max_score.push(TermScorerWithMaxScore::from(scorers[i]));
        i = i + 1;
    }
    let ghost wrapped = by_max_score@;
    proof {
        lemma_wrapped(scorers@, wrapped);
        assert(all_wf(wrapped)) by {
            assert forall|j: int| 0 <= j < wrapped.len() implies (#[trigger] wrapped[j]).wf() by {
                assert(scorers@[j].wf());
            }
        }
        assert(all_skipped_below(wrapped, 0)) by {
            assert forall|j: int| 0 <= j < wrapped.len() implies (
            #[trigger] wrapped[j]).scorer.skipped_below(0) by {
                assert(scorers@[j].is_loaded());
            }
        }
    }
    sort_by_key(&mut by_max_score, max_score_key, Ghost(max_score_fn()));
    proof {
        lemma_permuted(wrapped, by_max_score@);
    }

    let split: usize = compute_non_essential_count(&by_max_score, threshold);
    let ghost sorted = by_max_score@;
    let mut essential = by_max_score.split_off(split);
    let mut non_essential = by_max_score;
    sort_by_key(&mut essential, doc_key, Ghost(doc_fn()));
    proof {
        lemma_initial_state(
            docs,
            start,
            scorers@,
            wrapped,
            sorted,
            split as int,
            essential@,
            non_essential@,
        );
        lemma_wand_facts(docs, start, calls, threshold, essential@, non_essential@, 0);
    }

    let mut non_essential_max_score_sum: Score = 0;
    let mut k: usize = 0;
    proof {
        assert(non_essential@.take(0) =~= Seq::empty());
    }
    while k < non_essential.len()
        invariant
            k <= non_essential@.len(),
            all_wf(non_essential@),
            max_score_sum(non_essential@) <= Score::MAX,
            non_essential_max_score_sum == max_score_sum(non_essential@.take(k as int)),
        decreases non_essential@.len() - k,
    {
        proof {
            lemma_sum_take(non_essential@, k as int, max_score_fn());
            lemma_max_score_sum_prefix(non_essential@, k as int, k + 1);
        }
        non_essential_max_score_sum = non_essential_max_score_sum + non_essential[k].max_score;
        k = k + 1;
    }
    proof {
        assert(non_essential@.take(k as int) =~= non_essential@);
    }

    let mut threshold: Score = threshold;
    let ghost mut floor: DocId = 0;
    loop
        invariant
            callback.inv(),
            callback.setup() == old(callback).setup(),
            callback.calls() == history + calls,
            history == old(callback).calls(),
            docs == scored_docs(scorers@),
            forall|d: DocId| #[trigger] docs.contains_key(d) ==> d < TERMINATED,
            wand_inv(docs, start, calls, threshold, essential@, non_essential@, floor),
            non_essential_max_score_sum == max_score_sum(non_essential@),
        ensures
            callback.inv(),
            callback.setup() == old(callback).setup(),
            callback.calls() == history + calls,
            pruned_run(docs, start, calls),
            calls_exceed(start, calls),
        decreases postings_left(essential@),
    {
        proof {
            lemma_wand_facts(docs, start, calls, threshold, essential@, non_essential@, floor);
        }
        let lowered: Score = saturating_difference(threshold, non_essential_max_score_sum);
        let (before_pivot_len, pivot_len, pivot_doc) = match find_pivot_doc(&essential, lowered) {
            Some(pivot) => pivot,
            None => {
                proof {
                    lemma_pivot_rules_out(essential@, non_essential@, threshold, TERMINATED);
                    lemma_loop_ends(
                        docs,
                        start,
                        calls,
                        threshold,
                        essential@,
                        non_essential@,
                        floor,
                    );
                }
                break;
            },
        };
        let ghost e0 = essential@;
        proof {
            lemma_pivot_rules_out(e0, non_essential@, threshold, pivot_doc);
            lemma_total_bounded(e0, pivot_doc);
            lemma_lowered_threshold(
                bound_at(e0, pivot_doc),
                threshold,
                non_essential_max_score_sum,
            );
            assert(e0[before_pivot_len as int].scorer.doc() <= pivot_doc);
            assert(started_by(e0, pivot_doc));
            assert(floor <= pivot_doc);
        }

        let essential_block_max: Score = seek_blocks(
            &mut essential,
            pivot_len,
            pivot_doc,
            Ghost(floor),
        );
        let ghost e1 = essential@;
        let ghost n1 = non_essential@;
        proof {
            lemma_blocks_moved(e0, e1, n1, threshold, pivot_doc);
            assert(out_of_reach_below(docs, start, calls, 0));
            lemma_step(docs, start, calls, threshold, e0, n1, floor, e1, 0, pivot_doc);
            floor = pivot_doc;
            lemma_wand_facts(docs, start, calls, threshold, e1, n1, floor);
            assert forall|j: int| 0 <= j < e1.len() implies (#[trigger] e1[j]).scorer.doc()
                == e0[j].scorer.doc() by {
                assert(block_moved(e0[j], e1[j], pivot_doc));
            }
        }

        if essential_block_max + non_essential_max_score_sum <= threshold {
            block_max_was_too_low_advance_one_scorer(&mut essential, pivot_len);
            proof {
                let (best, target) = choose|best: int, target: DocId| #[trigger]
                    advanced_one(e1, essential@, pivot_len as int, best, target);
                lemma_next_candidate_after(e1, pivot_len as int, pivot_doc, target);
                lemma_blocks_too_low(
                    docs,
                    start,
                    calls,
                    threshold,
                    e1,
                    n1,
                    pivot_len as int,
                    pivot_doc,
                    target,
                );
                lemma_ruled_out_moved(e1, essential@, n1, threshold, target, pivot_doc);
                lemma_step(
                    docs,
                    start,
                    calls,
                    threshold,
                    e1,
                    n1,
                    pivot_doc,
                    essential@,
                    target,
                    pivot_doc,
                );
                assert(e1[best].scorer.doc() <= pivot_doc);
                lemma_wand_facts(docs, start, calls, threshold, essential@, n1, pivot_doc);
            }
            continue;
        }

        proof {
            lemma_ruled_out(docs, start, calls, threshold, e1, n1, pivot_doc, pivot_doc);
        }
        if !align_scorers(&mut essential, pivot_doc, before_pivot_len) {
            proof {
                lemma_ruled_out_moved(e1, essential@, n1, threshold, pivot_doc, pivot_doc);
                lemma_step(
                    docs,
                    start,
                    calls,
                    threshold,
                    e1,
                    n1,
                    pivot_doc,
                    essential@,
                    pivot_doc,
                    pivot_doc,
                );
                lemma_wand_facts(docs, start, calls, threshold, essential@, n1, pivot_doc);
            }
            continue;
        }
        let ghost e2 = essential@;
        proof {
            lemma_ruled_out_moved(e1, e2, n1, threshold, pivot_doc, pivot_doc);
            lemma_step(
                docs,
                start,
                calls,
                threshold,
                e1,
                n1,
                pivot_doc,
                e2,
                pivot_doc,
                pivot_doc,
            );
            assert forall|j: int| 0 <= j < pivot_len implies {
                &&& (#[trigger] e2[j]).scorer.doc() == pivot_doc
                &&& e2[j].scorer.is_loaded()
            } by {
                if j >= before_pivot_len {
                    assert(e2[j] == e1[j]);
                    assert(e1[j].scorer.skipped_below(pivot_doc));
                    lemma_on_floor_is_loaded(e2[j], pivot_doc);
                }
            }
            assert forall|j: int| pivot_len <= j < e2.len() implies (#[trigger] e2[j]).scorer.doc()
                > pivot_doc by {
                assert(e2[j] == e1[j]);
            }
            lemma_wand_facts(docs, start, calls, threshold, e2, n1, pivot_doc);
        }

        let essential_score: Score = score_pivot(&essential, pivot_len, pivot_doc);

        let non_essential_score: Score = score_non_essential_terms(
            &mut non_essential,
            non_essential_max_score_sum,
            pivot_doc,
            threshold,
            essential_score,
        );
        proof {
            lemma_total_bounded(n1, pivot_doc);
            e2[0].scorer.lemma_matches();
            assert(e2[0].scorer.matches(pivot_doc));
            assert(met_by(e2, pivot_doc));
            if calls.len() > 0 && calls.last().doc >= pivot_doc {
                assert(e2[0].scorer.doc() <= calls.last().doc);
                assert(started_by(e2, calls.last().doc));
            }
        }
        let total_score: Score = essential_score + non_essential_score;
        let old_threshold: Score = threshold;
        let ghost calls1 = calls;
        if total_score > threshold {
            threshold = callback.call(pivot_doc, total_score);
            proof {
                let c = Call { doc: pivot_doc, score: total_score, threshold };
                calls = calls1.push(c);
                assert(history + calls =~= (history + calls1).push(c));
            }
        }

        advance_all_scorers_on_pivot(&mut essential, pivot_len);
        let ghost e3 = essential@;
        let ghost n3 = non_essential@;
        proof {
            assert(stand_on(e2, pivot_len as int, pivot_doc));
            assert(!started_by(e3, pivot_doc));
            assert(all_skipped_below(e3, pivot_doc));
            lemma_past_floor_skipped(e3, pivot_doc);
            lemma_visit(
                docs,
                start,
                calls1,
                old_threshold,
                e2,
                n1,
                pivot_doc,
                non_essential_score,
                e3,
                n3,
                calls,
                threshold,
            );
            floor = 0;
            lemma_wand_facts(docs, start, calls, threshold, e3, n3, floor);
        }

        if threshold > old_threshold {
            rebalance_partition(
                &mut essential,
                &mut non_essential,
                &mut non_essential_max_score_sum,
                threshold,
            );
            proof {
                let demoted = choose|demoted: Seq<TermScorerWithMaxScore>|
                    {
                        &&& #[trigger] essential@.to_multiset().add(demoted.to_multiset())
                            == e3.to_multiset()
                        &&& n3.to_multiset().add(demoted.to_multiset())
                            == non_essential@.to_multiset()
                        &&& no_heavier(demoted, essential@)
                    };
                if essential@.len() != e3.len() {
                    lemma_repartition(
                        docs,
                        start,
                        calls,
                        threshold,
                        e3,
                        n3,
                        essential@,
                        non_essential@,
                        demoted,
                    );
                }
            }
        }
        proof {
            lemma_wand_facts(docs, start, calls, threshold, essential@, non_essential@, floor);
        }
    }
    proof {
        assert(callback.calls().skip(history.len() as int) =~= calls);
    }
}

/// A scorer whose block may have moved ahead, up to the block of `pivot_doc`.
spec fn block_moved(
    a: TermScorerWithMaxScore,
    b: TermScorerWithMaxScore,
    pivot_doc: DocId,
) -> bool {
    &&& b.wf()
    &&& b.scorer.list == a.scorer.list
    &&& b.scorer.cursor == a.scorer.cursor
    &&& b.max_score == a.max_score
    &&& b == a || b.scorer.skipped_below(pivot_doc)
}

/// Moving blocks ahead changes nothing but where the bounds are read.
proof fn lemma_blocks_moved(
    a: Seq<TermScorerWithMaxScore>,
    b: Seq<TermScorerWithMaxScore>,
    n: Seq<TermScorerWithMaxScore>,
    threshold: Score,
    pivot_doc: DocId,
)
    requires
        all_wf(a),
        sorted_docs(a),
        a.len() == b.len(),
        exists|floor: DocId| floor <= pivot_doc && all_skipped_below(a, floor),
        ruled_out_below(a, n, threshold, pivot_doc),
        forall|i: int| 0 <= i < a.len() ==> block_moved(a[i], #[trigger] b[i], pivot_doc),
    ensures
        moved_on(a, b, 0),
        sorted_docs(b),
        all_skipped_below(b, pivot_doc),
        ruled_out_below(b, n, threshold, pivot_doc),
        postings_left(b) == postings_left(a),
{
    let floor = choose|floor: DocId| floor <= pivot_doc && all_skipped_below(a, floor);
    assert forall|i: int| 0 <= i < a.len() implies moved(a[i], #[trigger] b[i], 0) by {
        assert(block_moved(a[i], b[i], pivot_doc));
    }
    lemma_moved_in_place(a, b, 0);
    assert forall|i: int, j: int| 0 <= i <= j < b.len() implies (#[trigger] b[i]).scorer.doc() <= (
    #[trigger] b[j]).scorer.doc() by {
        assert(block_moved(a[i], b[i], pivot_doc));
        assert(block_moved(a[j], b[j], pivot_doc));
        assert(a[i].scorer.doc() <= a[j].scorer.doc());
    }
    assert forall|i: int| 0 <= i < b.len() implies (#[trigger] b[i]).scorer.skipped_below(
        pivot_doc,
    ) by {
        assert(block_moved(a[i], b[i], pivot_doc));
        assert(a[i].scorer.skipped_below(floor));
    }
    lemma_ruled_out_moved(a, b, n, threshold, 0, pivot_doc);
    lemma_sum_eq(b, a, left_fn(), left_fn());
}

proof fn lemma_ruled_out_moved(
    a: Seq<TermScorerWithMaxScore>,
    b: Seq<TermScorerWithMaxScore>,
    n: Seq<TermScorerWithMaxScore>,
    threshold: Score,
    from: DocId,
    floor: DocId,
)
    requires
        ruled_out_below(a, n, threshold, floor),
        moved_on(a, b, from),
    ensures
        ruled_out_below(b, n, threshold, floor),
{
    assert forall|d: DocId| d < floor && #[trigger] started_by(b, d) implies bound_at(b, d)
        + max_score_sum(n) <= threshold by {
        assert(started_by(a, d));
        assert(bound_at(b, d) <= bound_at(a, d));
    }
}

/// The next candidate is after the pivot.
proof fn lemma_next_candidate_after(
    s: Seq<TermScorerWithMaxScore>,
    pivot_len: int,
    pivot_doc: DocId,
    target: DocId,
)
    requires
        all_wf(s),
        0 <= pivot_len <= s.len(),
        is_next_candidate(s, pivot_len, target),
        pivot_doc < TERMINATED,
        forall|i: int|
            0 <= i < pivot_len ==> (#[trigger] s[i]).scorer.last_doc_in_block() >= pivot_doc,
        forall|i: int| pivot_len <= i < s.len() ==> (#[trigger] s[i]).scorer.doc() > pivot_doc,
    ensures
        pivot_doc < target <= TERMINATED,
{
    assert forall|i: int| 0 <= i < s.len() implies (#[trigger] s[i]).scorer.doc() <= TERMINATED
        && s[i].scorer.last_doc_in_block() <= TERMINATED by {
        s[i].scorer.lemma_matches();
    }
}

/// A scorer that stands on the floor has not skipped a block.
proof fn lemma_on_floor_is_loaded(w: TermScorerWithMaxScore, floor: DocId)
    requires
        w.wf(),
        w.scorer.skipped_below(floor),
        w.scorer.doc() == floor,
        floor < TERMINATED,
    ensures
        w.scorer.is_loaded(),
{
    w.scorer.lemma_matches();
    if w.scorer.cursor / BLOCK_LEN < w.scorer.block {
        assert(w.scorer.cursor < w.scorer.block * BLOCK_LEN);
        assert(w.scorer.list.docs@[w.scorer.cursor as int] < floor);
    }
}

/// Scorers that are past the floor have not skipped anything.
proof fn lemma_past_floor_skipped(s: Seq<TermScorerWithMaxScore>, floor: DocId)
    requires
        all_wf(s),
        all_skipped_below(s, floor),
        !started_by(s, floor),
    ensures
        all_skipped_below(s, 0),
{
    assert forall|i: int| 0 <= i < s.len() implies (#[trigger] s[i]).scorer.skipped_below(0) by {
        let w = s[i].scorer;
        assert(w.skipped_below(floor));
        assert(w.doc() > floor);
        assert forall|j: int|
            w.cursor <= j < w.list.docs@.len() && j < w.block
                * BLOCK_LEN implies #[trigger] w.list.docs@[j] < 0 by {
            assert(w.list.docs@[j] < floor);
            if w.cursor < j {
                assert(w.list.docs@[w.cursor as int] < w.list.docs@[j]);
            }
        }
    }
}

/// The state before the first step.
proof fn lemma_initial_state(
    docs: Map<DocId, int>,
    start: Score,
    scorers: Seq<TermScorer>,
    wrapped: Seq<TermScorerWithMaxScore>,
    sorted: Seq<TermScorerWithMaxScore>,
    split: int,
    e: Seq<TermScorerWithMaxScore>,
    n: Seq<TermScorerWithMaxScore>,
)
    requires
        docs == scored_docs(scorers),
        all_wf(wrapped),
        all_skipped_below(wrapped, 0),
        forall|d: DocId| #[trigger] met_by(wrapped, d) == any_matches(scorers, d),
        forall|d: DocId| #[trigger] total_at(wrapped, d) == sum_by(scorers, term_score(d)),
        max_score_sum(wrapped) <= Score::MAX,
        sorted.to_multiset() == wrapped.to_multiset(),
        0 <= split <= sorted.len(),
        n == sorted.take(split),
        e.to_multiset() == sorted.skip(split).to_multiset(),
        sorted_by_key(e, doc_fn()),
        split > 0 ==> max_score_sum(sorted.take(split)) <= start,
    ensures
        wand_inv(docs, start, Seq::empty(), start, e, n, 0),
        forall|d: DocId| #[trigger] docs.contains_key(d) ==> d < TERMINATED,
{
    reveal(wand_inv);
    let rest = sorted.skip(split);
    assert(sorted =~= n + rest);
    lemma_multiset_commutative(n, rest);
    assert(e.to_multiset().add(n.to_multiset()) =~= wrapped.to_multiset());
    lemma_split_sums(e, n, wrapped);
    assert(max_score_sum(wrapped) == max_score_sum(e) + max_score_sum(n));
    assert forall|i: int| 0 <= i < e.len() implies (#[trigger] e[i]).wf()
        && e[i].scorer.skipped_below(0) by {
        assert(wrapped.contains(e[i]));
        let j = choose|j: int| 0 <= j < wrapped.len() && wrapped[j] == e[i];
        assert(wrapped[j].wf() && wrapped[j].scorer.skipped_below(0));
    }
    assert forall|i: int| 0 <= i < n.len() implies (#[trigger] n[i]).wf() by {
        assert(wrapped.contains(n[i]));
    }
    assert forall|i: int, j: int| 0 <= i <= j < e.len() implies (#[trigger] e[i]).scorer.doc() <= (
    #[trigger] e[j]).scorer.doc() by {
        assert(doc_fn()(e[i]) <= doc_fn()(e[j]));
    }
    assert forall|d: DocId| #[trigger] met_by(e, d) implies docs.contains_key(d) by {
        assert(met_by(wrapped, d));
    }
    assert forall|d: DocId| #[trigger] met_by(n, d) implies docs.contains_key(d) by {
        assert(met_by(wrapped, d));
    }
    assert forall|d: DocId| #[trigger] docs.contains_key(d) implies is_live(docs, e, n, d) by {
        assert(met_by(wrapped, d));
        assert(total_at(wrapped, d) == sum_by(scorers, term_score(d)));
        assert(sum_by(wrapped, score_fn(d)) == sum_by(e, score_fn(d)) + sum_by(n, score_fn(d)));
    }
    assert forall|d: DocId| #[trigger] docs.contains_key(d) implies d < TERMINATED by {
        assert(met_by(wrapped, d));
        let i = choose|i: int|
            0 <= i < wrapped.len() && (#[trigger] wrapped[i]).scorer.matches(d);
        wrapped[i].scorer.lemma_matches();
    }
}

} // verus!
