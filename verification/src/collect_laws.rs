//! What is collected, in plain terms.
//!
//! The laws of this module hold the results of collecting against the postings of the query, the
//! flags of deleted documents, and all that was pushed.
use vstd::prelude::*;

use crate::idf_bootstrap::starting_threshold;
use crate::idf_terms::term_weight;
use crate::plain_laws::{
    all_stand, earns, is_met, is_sound, law_scored_docs, lemma_all_stand, lemma_sound, lemma_total,
    meets_at, survives, total,
};
use crate::pruning::{
    answers_rise, pruned_run, term_idf, term_max_score, term_score, threshold_before, Call,
    ScoreCallback,
};
use crate::run_laws::{
    extends_by, in_force, is_called, is_rising, lemma_called, lemma_rising_calls, never_lowered,
    stays_above,
};
use crate::segment::{SegmentReader, UnionWeight, Weight};
use crate::sort_by_score::{
    addressed, all_come_first, collect_top_k_scores, comes_first, found, into_scored_addresses,
    is_segment_top_k, is_top_k, SortBySimilarityScore, SortBySimilarityScoreWithThreshold,
};
use crate::sums::{
    count_by, indicator, lemma_count_all, lemma_count_bounds, lemma_count_implied, lemma_sum_append,
    lemma_sum_nonneg, lemma_sum_permutation,
};
use crate::term_scorer::{PostingList, TermScorer};
use crate::top_n::{
    is_top, rank, rank_fn, scores_above, scores_from, splits_top, DocOrder, TopNComputer,
};
use crate::types::{DocAddress, DocId, Score};

verus! {

/// How many entries score at least `t`.
pub open spec fn reaching<D>(entries: Seq<(Score, D)>, t: Score) -> int {
    entries.filter(|entry: (Score, D)| entry.0 >= t).len() as int
}

/// How many entries score more than `t`.
pub open spec fn exceeding<D>(entries: Seq<(Score, D)>, t: Score) -> int {
    entries.filter(|entry: (Score, D)| entry.0 > t).len() as int
}

/// Counting is filtering.
pub proof fn law_count_by<A>(s: Seq<A>, p: spec_fn(A) -> bool)
    ensures
        count_by(s, p) == s.filter(p).len(),
    decreases s.len(),
{
    reveal(Seq::filter);
    if s.len() > 0 {
        law_count_by(s.drop_last(), p);
    }
}

proof fn lemma_counts<D>(entries: Seq<(Score, D)>, t: Score)
    ensures
        reaching(entries, t) == count_by(entries, scores_from(t)),
        exceeding(entries, t) == count_by(entries, scores_above(t)),
{
    let from = |entry: (Score, D)| entry.0 >= t;
    let above = |entry: (Score, D)| entry.0 > t;
    assert(from =~= scores_from(t));
    assert(above =~= scores_above(t));
    law_count_by(entries, from);
    law_count_by(entries, above);
}

/// A document of a segment comes before another one: it scores more, or as much and is lower.
pub open spec fn is_ahead(a: (Score, DocId), b: (Score, DocId)) -> bool {
    a.0 > b.0 || a.0 == b.0 && a.1 <= b.1
}

/// A document of an index comes before another one: it scores more, or as much in a lower segment, or
/// as much in the same segment and is lower.
pub open spec fn is_ahead_of(a: (Score, DocAddress), b: (Score, DocAddress)) -> bool {
    a.0 > b.0 || a.0 == b.0 && (a.1.segment_ord < b.1.segment_ord || a.1.segment_ord
        == b.1.segment_ord && a.1.doc_id <= b.1.doc_id)
}

/// `result` and `rest` are all `entries`, in some order. `result` holds `n` of them, or all if they are
/// no more.
pub open spec fn parts_off<A>(result: Seq<A>, rest: Seq<A>, entries: Seq<A>, n: usize) -> bool {
    &&& (result + rest).to_multiset() == entries.to_multiset()
    &&& result.len() <= n
    &&& rest.len() > 0 ==> result.len() == n
}

/// The order of documents within a segment.
pub proof fn law_rank_of_docs(a: (Score, DocId), b: (Score, DocId))
    ensures
        rank(a) <= rank(b) <==> is_ahead(a, b),
{
}

/// The order of documents within an index.
pub proof fn law_rank_of_addresses(a: (Score, DocAddress), b: (Score, DocAddress))
    ensures
        rank(a) <= rank(b) <==> is_ahead_of(a, b),
{
}

/// Documents of equal score are ranked by segment and document.
pub proof fn law_order(a: DocAddress, b: DocAddress, order_a: u64, order_b: u64)
    requires
        call_ensures(<DocAddress as DocOrder>::order, (&a,), order_a),
        call_ensures(<DocAddress as DocOrder>::order, (&b,), order_b),
    ensures
        order_a < order_b <==> a.segment_ord < b.segment_ord || a.segment_ord == b.segment_ord
            && a.doc_id < b.doc_id,
{
}

/// Within a segment, documents of equal score are ranked by document.
pub proof fn law_order_in_segment(a: DocId, b: DocId, order_a: u64, order_b: u64)
    requires
        call_ensures(<DocId as DocOrder>::order, (&a,), order_a),
        call_ensures(<DocId as DocOrder>::order, (&b,), order_b),
    ensures
        order_a < order_b <==> a < b,
{
}

/// A new computer has seen nothing.
pub proof fn law_new_computer<D: DocOrder>(
    top_n: usize,
    threshold: Option<Score>,
    computer: TopNComputer<D>,
)
    requires
        call_ensures(TopNComputer::<D>::new, (top_n, threshold), computer),
    ensures
        computer.top_n == top_n,
        computer.threshold == threshold,
        computer.floor@ == threshold,
        computer.entries@ == Seq::<(Score, D)>::empty(),
        call_requires(TopNComputer::<D>::into_vec, (computer,)),
{
    assert(computer.entries@ =~= Seq::<(Score, D)>::empty());
}

/// What is pushed becomes an entry, unless it scores less than the threshold that the computer was
/// made with. A threshold only changes to one that is higher, and that `top_n` entries reach.
pub proof fn law_push<D: DocOrder>(computer: &mut TopNComputer<D>, score: Score, doc: D)
    requires
        call_ensures(TopNComputer::<D>::push, (computer, score, doc), ()),
    ensures
        final(computer).top_n == old(computer).top_n,
        final(computer).floor@ == old(computer).floor@,
        old(computer).floor@ is None || score >= old(computer).floor@->0
            ==> final(computer).entries@ == old(computer).entries@.push((score, doc)),
        old(computer).floor@ is Some && score < old(computer).floor@->0
            ==> final(computer).entries@ == old(computer).entries@,
        old(computer).threshold is Some ==> final(computer).threshold is Some
            && final(computer).threshold->0 >= old(computer).threshold->0,
        final(computer).threshold != old(computer).floor@ ==> {
            &&& final(computer).threshold is Some
            &&& final(computer).top_n > 0
            &&& reaching(final(computer).entries@, final(computer).threshold->0)
                >= final(computer).top_n
        },
        final(computer).buffer@.len() <= 2 * old(computer).top_n + 2,
        call_requires(TopNComputer::<D>::into_vec, (*final(computer),)),
{
    if final(computer).threshold != final(computer).floor@ {
        lemma_backed(*final(computer));
    }
}

proof fn lemma_backed<D: DocOrder>(computer: TopNComputer<D>)
    requires
        computer.wf(),
        computer.threshold != computer.floor@,
    ensures
        reaching(computer.entries@, computer.threshold->0) >= computer.top_n,
{
    let t = computer.threshold->0;
    let p = scores_from::<D>(t);
    lemma_counts(computer.entries@, t);
    lemma_sum_permutation(
        computer.buffer@ + computer.ruled_out@,
        computer.entries@,
        indicator(p),
    );
    lemma_sum_append(computer.buffer@, computer.ruled_out@, indicator(p));
    lemma_count_bounds(computer.ruled_out@, p);
}

/// A computer that was made, or pushed to, can be pushed to.
pub proof fn law_push_again<D: DocOrder>(
    top_n: usize,
    threshold: Option<Score>,
    first: &mut TopNComputer<D>,
    second: &mut TopNComputer<D>,
    score: Score,
    doc: D,
    other_score: Score,
    other: D,
)
    requires
        call_ensures(TopNComputer::<D>::new, (top_n, threshold), *old(first)),
        call_ensures(TopNComputer::<D>::push, (first, score, doc), ()),
        *old(second) == *final(first),
    ensures
        call_requires(TopNComputer::<D>::push, (first, score, doc)),
        call_requires(TopNComputer::<D>::push, (second, other_score, other)),
        call_requires(TopNComputer::<D>::ensure_threshold, (second,)),
{
}

/// With at least `top_n` entries, the threshold is made the score of the `top_n`-th best one.
pub proof fn law_ensure_threshold<D: DocOrder>(computer: &mut TopNComputer<D>)
    requires
        call_ensures(TopNComputer::<D>::ensure_threshold, (computer,), ()),
    ensures
        final(computer).entries@ == old(computer).entries@,
        final(computer).top_n == old(computer).top_n,
        final(computer).floor@ == old(computer).floor@,
        0 < old(computer).top_n <= old(computer).entries@.len() ==> {
            &&& final(computer).threshold is Some
            &&& reaching(old(computer).entries@, final(computer).threshold->0)
                >= old(computer).top_n
            &&& exceeding(old(computer).entries@, final(computer).threshold->0)
                < old(computer).top_n
        },
        old(computer).top_n == 0 || old(computer).top_n > old(computer).entries@.len()
            ==> final(computer).threshold == old(computer).threshold,
{
    lemma_counts(old(computer).entries@, final(computer).threshold->0);
}

/// The best `top_n` documents of a segment that were pushed come out, the best one first.
pub proof fn law_best_docs(
    computer: TopNComputer<DocId>,
    result: Vec<(Score, DocId)>,
) -> (rest: Seq<(Score, DocId)>)
    requires
        call_ensures(TopNComputer::<DocId>::into_vec, (computer,), result),
    ensures
        parts_off(result@, rest, computer.entries@, computer.top_n),
        forall|i: int, j: int|
            0 <= i < j < result@.len() ==> is_ahead(#[trigger] result@[i], #[trigger] result@[j]),
        forall|i: int, j: int|
            0 <= i < result@.len() && 0 <= j < rest.len() ==> is_ahead(
                #[trigger] result@[i],
                #[trigger] rest[j],
            ),
{
    let rest = choose|rest: Seq<(Score, DocId)>| #[trigger]
        splits_top(result@, rest, computer.entries@, computer.top_n as int);
    lemma_best_docs(result@, rest, computer.entries@, computer.top_n as int);
    rest
}

proof fn lemma_best_docs(
    result: Seq<(Score, DocId)>,
    rest: Seq<(Score, DocId)>,
    entries: Seq<(Score, DocId)>,
    n: int,
)
    requires
        splits_top(result, rest, entries, n),
    ensures
        forall|i: int, j: int|
            0 <= i < j < result.len() ==> is_ahead(#[trigger] result[i], #[trigger] result[j]),
        forall|i: int, j: int|
            0 <= i < result.len() && 0 <= j < rest.len() ==> is_ahead(
                #[trigger] result[i],
                #[trigger] rest[j],
            ),
{
    assert forall|i: int, j: int| 0 <= i < j < result.len() implies is_ahead(
        #[trigger] result[i],
        #[trigger] result[j],
    ) by {
        assert(rank_fn()(result[i]) <= rank_fn()(result[j]));
    }
    assert forall|i: int, j: int| 0 <= i < result.len() && 0 <= j < rest.len() implies is_ahead(
        #[trigger] result[i],
        #[trigger] rest[j],
    ) by {
        assert(rank(result[i]) <= rank(rest[j]));
    }
}

/// So do the best documents of an index.
pub proof fn law_best_addresses(
    computer: TopNComputer<DocAddress>,
    result: Vec<(Score, DocAddress)>,
) -> (rest: Seq<(Score, DocAddress)>)
    requires
        call_ensures(TopNComputer::<DocAddress>::into_vec, (computer,), result),
    ensures
        parts_off(result@, rest, computer.entries@, computer.top_n),
        forall|i: int, j: int|
            0 <= i < j < result@.len() ==> is_ahead_of(
                #[trigger] result@[i],
                #[trigger] result@[j],
            ),
        forall|i: int, j: int|
            0 <= i < result@.len() && 0 <= j < rest.len() ==> is_ahead_of(
                #[trigger] result@[i],
                #[trigger] rest[j],
            ),
{
    let rest = choose|rest: Seq<(Score, DocAddress)>| #[trigger]
        splits_top(result@, rest, computer.entries@, computer.top_n as int);
    assert forall|i: int, j: int| 0 <= i < j < result@.len() implies is_ahead_of(
        #[trigger] result@[i],
        #[trigger] result@[j],
    ) by {
        assert(rank_fn()(result@[i]) <= rank_fn()(result@[j]));
    }
    assert forall|i: int, j: int| 0 <= i < result@.len() && 0 <= j < rest.len() implies is_ahead_of(
        #[trigger] result@[i],
        #[trigger] rest[j],
    ) by {
        assert(rank(result@[i]) <= rank(rest[j]));
    }
    rest
}

/// The best documents of a segment, the best one first, become addresses in that segment.
pub proof fn law_scored_addresses(
    computer: TopNComputer<DocId>,
    segment_ord: u32,
    results: Vec<(Score, DocAddress)>,
) -> (parts: (Seq<(Score, DocId)>, Seq<(Score, DocId)>))
    requires
        call_ensures(into_scored_addresses, (computer, segment_ord), results),
    ensures
        parts_off(parts.0, parts.1, computer.entries@, computer.top_n),
        results@.len() == parts.0.len(),
        forall|i: int|
            0 <= i < results@.len() ==> {
                let (score, address) = #[trigger] results@[i];
                score == parts.0[i].0 && address.segment_ord == segment_ord && address.doc_id
                    == parts.0[i].1
            },
        forall|i: int, j: int|
            0 <= i < j < parts.0.len() ==> is_ahead(#[trigger] parts.0[i], #[trigger] parts.0[j]),
        forall|i: int, j: int|
            0 <= i < parts.0.len() && 0 <= j < parts.1.len() ==> is_ahead(
                #[trigger] parts.0[i],
                #[trigger] parts.1[j],
            ),
{
    let best = choose|best: Seq<(Score, DocId)>|
        results@ == #[trigger] addressed(best, segment_ord) && is_top(
            best,
            computer.entries@,
            computer.top_n as int,
        );
    let rest = choose|rest: Seq<(Score, DocId)>| #[trigger]
        splits_top(best, rest, computer.entries@, computer.top_n as int);
    lemma_best_docs(best, rest, computer.entries@, computer.top_n as int);
    (best, rest)
}

/// Cursors on the first postings of `lists`.
pub open spec fn fresh(lists: Seq<PostingList>) -> Seq<TermScorer<'static>> {
    Seq::new(lists.len(), |i: int| TermScorer { list: &lists[i], cursor: 0, block: 0 })
}

/// `doc` matches a union, and scores `score`: one of the lists contains it, and `score` is the sum of
/// what all lists give to it.
pub open spec fn is_match(weight: UnionWeight, doc: DocId, score: int) -> bool {
    earns(fresh(weight.lists@), weight.idf_only, doc, score)
}

pub open spec fn all_sound(lists: Seq<PostingList>) -> bool {
    forall|i: int| 0 <= i < lists.len() ==> is_sound(#[trigger] lists[i])
}

proof fn lemma_fresh(weight: UnionWeight)
    requires
        all_sound(weight.lists@),
    ensures
        weight.cursors() == fresh(weight.lists@),
        all_stand(fresh(weight.lists@)),
{
    assert(weight.cursors() =~= fresh(weight.lists@));
}

/// A document matches a union exactly if one of the lists contains it, and it scores the sum over all
/// lists of what they give to it.
pub proof fn law_union_matches(weight: UnionWeight, reader: SegmentReader, doc: DocId, score: int)
    requires
        all_sound(weight.lists@),
    ensures
        weight.matches(reader).contains_key(doc) <==> exists|i: int, p: int|
            0 <= i < weight.lists@.len() && 0 <= p < weight.lists@[i].docs@.len()
                && #[trigger] weight.lists@[i].docs@[p] == doc,
        weight.matches(reader).contains_key(doc) ==> (is_match(weight, doc, score) <==> score
            == weight.matches(reader)[doc]),
        is_match(weight, doc, score) ==> weight.matches(reader).contains_key(doc) && score >= 0,
{
    lemma_fresh(weight);
    let cursors = fresh(weight.lists@);
    law_scored_docs(cursors, doc, score);
    if is_met(cursors, doc) {
        let (i, p) = choose|i: int, p: int|
            0 <= i < cursors.len() && #[trigger] meets_at(cursors[i], doc, p);
        assert(weight.lists@[i].docs@[p] == doc);
    }
    if exists|i: int, p: int|
        0 <= i < weight.lists@.len() && 0 <= p < weight.lists@[i].docs@.len()
            && #[trigger] weight.lists@[i].docs@[p] == doc {
        let (i, p) = choose|i: int, p: int|
            0 <= i < weight.lists@.len() && 0 <= p < weight.lists@[i].docs@.len()
                && #[trigger] weight.lists@[i].docs@[p] == doc;
        assert(meets_at(cursors[i], doc, p));
    }
    lemma_all_stand(cursors);
    assert forall|i: int| 0 <= i < cursors.len() implies {
        let c = #[trigger] cursors[i];
        0 <= term_score(doc)(c) && 0 <= term_idf(doc)(c)
    } by {
        assert(cursors[i].wf());
        cursors[i].lemma_matches();
        assert(0 <= cursors[i].score_at(doc));
    }
    lemma_sum_nonneg(cursors, term_score(doc));
    lemma_sum_nonneg(cursors, term_idf(doc));
}

/// What bounds the scores of a union: the highest scores of its lists or, with `idf_only`, their
/// weights.
pub open spec fn are_bounds(weight: UnionWeight, bounds: Seq<int>) -> bool {
    &&& bounds.len() == weight.lists@.len()
    &&& forall|i: int|
        0 <= i < bounds.len() ==> #[trigger] bounds[i] == (if weight.idf_only {
            weight.lists@[i].idf_score
        } else {
            weight.lists@[i].max_score
        })
}

proof fn lemma_union_ready(weight: UnionWeight, reader: SegmentReader, bounds: Seq<int>)
    requires
        all_sound(weight.lists@),
        weight.lists@.len() <= u32::MAX,
        are_bounds(weight, bounds),
        total(bounds) <= i64::MAX,
    ensures
        weight.ready(reader),
{
    lemma_fresh(weight);
    let cursors = weight.cursors();
    assert forall|i: int| 0 <= i < weight.lists@.len() implies (#[trigger] weight.lists@[i]).wf() by {
        lemma_sound(weight.lists@[i]);
    }
    if weight.idf_only {
        lemma_total(cursors, term_weight(), bounds);
    } else {
        lemma_total(cursors, term_max_score(), bounds);
    }
}

/// Results of a segment: at most `k` documents of the query that have not been deleted, each with the
/// sum of what its lists give to it. The best one comes first, and of equally good ones the lowest.
pub open spec fn are_results(
    results: Seq<(Score, DocAddress)>,
    weight: UnionWeight,
    reader: SegmentReader,
    k: usize,
    segment_ord: u32,
) -> bool {
    &&& results.len() <= k
    &&& forall|i: int|
        0 <= i < results.len() ==> {
            let (score, address) = #[trigger] results[i];
            &&& address.segment_ord == segment_ord
            &&& survives(reader, address.doc_id)
            &&& is_match(weight, address.doc_id, score as int)
        }
    &&& forall|i: int, j: int|
        0 <= i < j < results.len() ==> {
            let (a, b) = (#[trigger] results[i], #[trigger] results[j]);
            a.0 > b.0 || a.0 == b.0 && a.1.doc_id < b.1.doc_id
        }
}

/// `doc` is among the results.
pub open spec fn is_result(results: Seq<(Score, DocAddress)>, doc: DocId) -> bool {
    exists|i: int| 0 <= i < results.len() && (#[trigger] results[i]).1.doc_id == doc
}

/// There are `k` results, and each scores more than `score`, or as much with a document before `doc`.
pub open spec fn are_better(
    results: Seq<(Score, DocAddress)>,
    k: usize,
    doc: DocId,
    score: int,
) -> bool {
    &&& results.len() == k
    &&& forall|i: int|
        0 <= i < results.len() ==> {
            let r = #[trigger] results[i];
            r.0 > score || r.0 == score && r.1.doc_id < doc
        }
}

proof fn lemma_results(
    results: Seq<(Score, DocAddress)>,
    weight: UnionWeight,
    reader: SegmentReader,
    start: Score,
    k: usize,
    segment_ord: u32,
)
    requires
        all_sound(weight.lists@),
        is_segment_top_k(
            results,
            weight.matches(reader),
            reader,
            start,
            k as int,
            segment_ord,
        ),
    ensures
        are_results(results, weight, reader, k, segment_ord),
        forall|i: int| 0 <= i < results.len() ==> (#[trigger] results[i]).0 >= start,
        forall|doc: DocId, score: int| #[trigger]
            is_match(weight, doc, score) && survives(reader, doc) && score > start ==> is_result(
                results,
                doc,
            ) || are_better(results, k, doc, score),
{
    let docs = weight.matches(reader);
    let local = choose|local: Seq<(Score, DocId)>|
        results == #[trigger] addressed(local, segment_ord) && is_top_k(
            local,
            docs,
            reader,
            start,
            k as int,
        );
    assert forall|i: int| 0 <= i < results.len() implies {
        let (score, address) = #[trigger] results[i];
        &&& address.segment_ord == segment_ord
        &&& survives(reader, address.doc_id)
        &&& is_match(weight, address.doc_id, score as int)
    } by {
        let (score, doc) = local[i];
        assert(results[i] == (score, DocAddress { segment_ord, doc_id: doc }));
        law_union_matches(weight, reader, doc, score as int);
        assert(reader.is_alive(doc));
    }
    assert forall|i: int| 0 <= i < results.len() implies (#[trigger] results[i]).0 >= start by {
        assert(results[i].0 == local[i].0);
    }
    assert forall|i: int, j: int| 0 <= i < j < results.len() implies {
        let (a, b) = (#[trigger] results[i], #[trigger] results[j]);
        a.0 > b.0 || a.0 == b.0 && a.1.doc_id < b.1.doc_id
    } by {
        assert(comes_first(local[i].0, local[i].1, local[j].0 as int, local[j].1));
        assert(results[i].0 == local[i].0 && results[i].1.doc_id == local[i].1);
        assert(results[j].0 == local[j].0 && results[j].1.doc_id == local[j].1);
    }
    assert forall|doc: DocId, score: int| #[trigger]
        is_match(weight, doc, score) && survives(reader, doc) && score > start implies is_result(
        results,
        doc,
    ) || are_better(results, k, doc, score) by {
        law_union_matches(weight, reader, doc, score);
        assert(docs.contains_key(doc) && reader.is_alive(doc) && docs[doc] > start);
        if found(local, doc) {
            let i = choose|i: int| 0 <= i < local.len() && (#[trigger] local[i]).1 == doc;
            assert(results[i].1.doc_id == doc);
        } else {
            assert(all_come_first(local, k as int, docs[doc], doc));
            assert forall|i: int| 0 <= i < results.len() implies {
                let r = #[trigger] results[i];
                r.0 > score || r.0 == score && r.1.doc_id < doc
            } by {
                assert(comes_first(local[i].0, local[i].1, docs[doc], doc));
                assert(results[i].0 == local[i].0 && results[i].1.doc_id == local[i].1);
            }
        }
    }
}

/// The best `k` documents of a segment are collected. A document of the query that has not been
/// deleted is left out only if there are `k` better ones or, with `idf_only`, if it does not score more
/// than the threshold that document frequencies give.
pub proof fn law_collect(
    weight: UnionWeight,
    reader: SegmentReader,
    k: usize,
    segment_ord: u32,
    result: Result<Vec<(Score, DocAddress)>, ()>,
)
    requires
        all_sound(weight.lists@),
        call_ensures(
            SortBySimilarityScore::collect_segment_top_k::<UnionWeight>,
            (&SortBySimilarityScore, k, &weight, &reader, segment_ord),
            result,
        ),
    ensures
        result is Ok,
        are_results(result->Ok_0@, weight, reader, k, segment_ord),
        weight.idf_only ==> forall|i: int|
            0 <= i < result->Ok_0@.len() ==> (#[trigger] result->Ok_0@[i]).0 >= starting_threshold(
                fresh(weight.lists@),
                i64::MIN,
                k,
            ),
        forall|doc: DocId, score: int| #[trigger]
            is_match(weight, doc, score) && survives(reader, doc) && (weight.idf_only ==> score
                > starting_threshold(fresh(weight.lists@), i64::MIN, k)) ==> is_result(
                result->Ok_0@,
                doc,
            ) || are_better(result->Ok_0@, k, doc, score),
{
    let start = weight.start_threshold(Score::MIN, reader, k);
    lemma_fresh(weight);
    lemma_results(result->Ok_0@, weight, reader, start, k, segment_ord);
    assert forall|doc: DocId, score: int| #[trigger]
        is_match(weight, doc, score) && survives(reader, doc) && (weight.idf_only ==> score
            > starting_threshold(fresh(weight.lists@), i64::MIN, k)) implies is_result(
        result->Ok_0@,
        doc,
    ) || are_better(result->Ok_0@, k, doc, score) by {
        law_union_matches(weight, reader, doc, score);
        assert(score > start);
    }
}

/// Collecting runs for any query whose bounds add up to a score, if 32 bits can count its terms.
pub proof fn law_collect_runs(
    weight: UnionWeight,
    reader: SegmentReader,
    k: usize,
    segment_ord: u32,
    bounds: Seq<int>,
)
    requires
        all_sound(weight.lists@),
        weight.lists@.len() <= u32::MAX,
        are_bounds(weight, bounds),
        total(bounds) <= i64::MAX,
    ensures
        call_requires(
            SortBySimilarityScore::collect_segment_top_k::<UnionWeight>,
            (&SortBySimilarityScore, k, &weight, &reader, segment_ord),
        ),
{
    lemma_union_ready(weight, reader, bounds);
}

/// Segments share the score of the `k`-th best of all results, if it is positive. Otherwise they share
/// 0.
pub open spec fn is_shared(entries: Seq<(Score, DocAddress)>, k: usize, shared: Score) -> bool {
    if k > 0 && exceeding(entries, 0) >= k {
        shared > 0 && reaching(entries, shared) >= k && exceeding(entries, shared) < k
    } else {
        shared == 0
    }
}

proof fn lemma_shared(computer: SortBySimilarityScoreWithThreshold)
    requires
        computer.wf(),
    ensures
        is_shared(
            computer.global_top_n.entries@,
            computer.global_top_n.top_n,
            computer.shared_threshold,
        ),
{
    lemma_counts(computer.global_top_n.entries@, 0);
    lemma_counts(computer.global_top_n.entries@, computer.shared_threshold);
}

/// With a shared threshold, the results are added to those of the segments before. A document of the
/// query that has not been deleted is left out only if there are `k` better ones in the segment, or if
/// it does not score more than the shared threshold or, without one and with `idf_only`, than the one
/// that document frequencies give.
pub proof fn law_collect_shared(
    computer: &mut SortBySimilarityScoreWithThreshold,
    weight: UnionWeight,
    reader: SegmentReader,
    k: usize,
    segment_ord: u32,
    result: Result<Vec<(Score, DocAddress)>, ()>,
)
    requires
        all_sound(weight.lists@),
        call_ensures(
            SortBySimilarityScoreWithThreshold::collect_segment_top_k::<UnionWeight>,
            (computer, k, &weight, &reader, segment_ord),
            result,
        ),
    ensures
        result is Ok,
        are_results(result->Ok_0@, weight, reader, k, segment_ord),
        old(computer).shared_threshold > 0 ==> forall|i: int|
            0 <= i < result->Ok_0@.len() ==> (#[trigger] result->Ok_0@[i]).0 >= old(computer).shared_threshold,
        forall|doc: DocId, score: int| #[trigger]
            is_match(weight, doc, score) && survives(reader, doc) && (if old(computer).shared_threshold > 0 {
                score > old(computer).shared_threshold
            } else {
                weight.idf_only ==> score > starting_threshold(fresh(weight.lists@), i64::MIN, k)
            }) ==> is_result(result->Ok_0@, doc) || are_better(result->Ok_0@, k, doc, score),
        final(computer).global_top_n.top_n == old(computer).global_top_n.top_n,
        final(computer).global_top_n.entries@ == old(computer).global_top_n.entries@ + result->Ok_0@,
        final(computer).shared_threshold >= old(computer).shared_threshold,
        is_shared(
            final(computer).global_top_n.entries@,
            final(computer).global_top_n.top_n,
            final(computer).shared_threshold,
        ),
{
    let initial = old(computer).initial_threshold();
    let start = weight.start_threshold(initial, reader, k);
    lemma_fresh(weight);
    lemma_results(result->Ok_0@, weight, reader, start, k, segment_ord);
    assert forall|doc: DocId, score: int| #[trigger]
        is_match(weight, doc, score) && survives(reader, doc) && (if old(computer).shared_threshold > 0 {
            score > old(computer).shared_threshold
        } else {
            weight.idf_only ==> score > starting_threshold(fresh(weight.lists@), i64::MIN, k)
        }) implies is_result(result->Ok_0@, doc) || are_better(result->Ok_0@, k, doc, score) by {
        law_union_matches(weight, reader, doc, score);
        assert(score > start);
    }
    lemma_shared(*final(computer));
}

/// A new computer has no results and shares nothing. It can collect from a segment, and can go on from
/// there.
pub proof fn law_collect_shared_runs(
    computer: &mut SortBySimilarityScoreWithThreshold,
    next: &mut SortBySimilarityScoreWithThreshold,
    weight: UnionWeight,
    other_weight: UnionWeight,
    reader: SegmentReader,
    other_reader: SegmentReader,
    k: usize,
    segment_ord: u32,
    other_ord: u32,
    bounds: Seq<int>,
    other_bounds: Seq<int>,
    result: Result<Vec<(Score, DocAddress)>, ()>,
)
    requires
        all_sound(weight.lists@),
        weight.lists@.len() <= u32::MAX,
        are_bounds(weight, bounds),
        total(bounds) <= i64::MAX,
        all_sound(other_weight.lists@),
        other_weight.lists@.len() <= u32::MAX,
        are_bounds(other_weight, other_bounds),
        total(other_bounds) <= i64::MAX,
        call_ensures(SortBySimilarityScoreWithThreshold::new, (k,), *old(computer)),
        call_ensures(
            SortBySimilarityScoreWithThreshold::collect_segment_top_k::<UnionWeight>,
            (computer, k, &weight, &reader, segment_ord),
            result,
        ),
        *old(next) == *final(computer),
    ensures
        old(computer).shared_threshold == 0,
        old(computer).global_top_n.top_n == k,
        old(computer).global_top_n.entries@ == Seq::<(Score, DocAddress)>::empty(),
        call_requires(
            SortBySimilarityScoreWithThreshold::collect_segment_top_k::<UnionWeight>,
            (computer, k, &weight, &reader, segment_ord),
        ),
        call_requires(
            SortBySimilarityScoreWithThreshold::collect_segment_top_k::<UnionWeight>,
            (next, k, &other_weight, &other_reader, other_ord),
        ),
{
    lemma_union_ready(weight, reader, bounds);
    lemma_union_ready(other_weight, other_reader, other_bounds);
    assert(old(computer).global_top_n.entries@ =~= Seq::<(Score, DocAddress)>::empty());
}

/// Two segments, collected with a shared threshold: a document of the second one that has not been
/// deleted is among its results, unless `k` results of the two segments score at least as much.
pub proof fn law_two_segments(
    computer: &mut SortBySimilarityScoreWithThreshold,
    next: &mut SortBySimilarityScoreWithThreshold,
    weight: UnionWeight,
    other_weight: UnionWeight,
    reader: SegmentReader,
    other_reader: SegmentReader,
    k: usize,
    segment_ord: u32,
    other_ord: u32,
    result: Result<Vec<(Score, DocAddress)>, ()>,
    other_result: Result<Vec<(Score, DocAddress)>, ()>,
    doc: DocId,
    score: Score,
)
    requires
        all_sound(weight.lists@),
        all_sound(other_weight.lists@),
        !other_weight.idf_only,
        call_ensures(SortBySimilarityScoreWithThreshold::new, (k,), *old(computer)),
        call_ensures(
            SortBySimilarityScoreWithThreshold::collect_segment_top_k::<UnionWeight>,
            (computer, k, &weight, &reader, segment_ord),
            result,
        ),
        *old(next) == *final(computer),
        call_ensures(
            SortBySimilarityScoreWithThreshold::collect_segment_top_k::<UnionWeight>,
            (next, k, &other_weight, &other_reader, other_ord),
            other_result,
        ),
        is_match(other_weight, doc, score as int),
        survives(other_reader, doc),
        !is_result(other_result->Ok_0@, doc),
    ensures
        reaching(result->Ok_0@ + other_result->Ok_0@, score) >= k,
{
    let first = result->Ok_0@;
    let second = other_result->Ok_0@;
    let p = scores_from::<DocAddress>(score);
    law_collect_shared(computer, weight, reader, k, segment_ord, result);
    law_collect_shared(next, other_weight, other_reader, k, other_ord, other_result);
    assert(old(computer).global_top_n.entries@ + first =~= first);
    lemma_counts(first + second, score);
    lemma_sum_append(first, second, indicator(p));
    lemma_count_bounds(first, p);
    lemma_count_bounds(second, p);
    let shared = old(next).shared_threshold;
    if shared > 0 && score <= shared {
        lemma_counts(first, shared);
        lemma_count_implied(first, scores_from(shared), p);
    } else {
        assert(are_better(second, k, doc, score as int));
        assert forall|i: int| 0 <= i < second.len() implies p(#[trigger] second[i]) by {}
        lemma_count_all(second, p);
    }
}

/// Merging adds results, and shares the score of the `k`-th best of all.
pub proof fn law_merge(
    computer: &mut SortBySimilarityScoreWithThreshold,
    results: &Vec<(Score, DocAddress)>,
)
    requires
        call_ensures(SortBySimilarityScoreWithThreshold::merge, (computer, results), ()),
    ensures
        final(computer).global_top_n.top_n == old(computer).global_top_n.top_n,
        final(computer).global_top_n.entries@ == old(computer).global_top_n.entries@ + results@,
        final(computer).shared_threshold >= old(computer).shared_threshold,
        is_shared(
            final(computer).global_top_n.entries@,
            final(computer).global_top_n.top_n,
            final(computer).shared_threshold,
        ),
{
    lemma_shared(*final(computer));
}

/// The next segment starts with what is shared, if that is positive.
pub proof fn law_initial_threshold(
    computer: SortBySimilarityScoreWithThreshold,
    threshold: Score,
)
    requires
        call_ensures(
            SortBySimilarityScoreWithThreshold::initial_threshold,
            (&computer,),
            threshold,
        ),
    ensures
        computer.shared_threshold > 0 ==> threshold == computer.shared_threshold,
        computer.shared_threshold <= 0 ==> threshold == i64::MIN,
{
}

/// An error of a query is handed on, and changes nothing; a query without one gives results.
pub proof fn law_errors<W: Weight>(
    computer: &mut SortBySimilarityScoreWithThreshold,
    weight: W,
    reader: SegmentReader,
    k: usize,
    segment_ord: u32,
    result: Result<Vec<(Score, DocAddress)>, W::Error>,
    shared_result: Result<Vec<(Score, DocAddress)>, W::Error>,
)
    requires
        call_ensures(
            SortBySimilarityScore::collect_segment_top_k::<W>,
            (&SortBySimilarityScore, k, &weight, &reader, segment_ord),
            result,
        ),
        call_ensures(
            SortBySimilarityScoreWithThreshold::collect_segment_top_k::<W>,
            (computer, k, &weight, &reader, segment_ord),
            shared_result,
        ),
    ensures
        weight.error(reader) is None <==> result is Ok,
        weight.error(reader) is None <==> shared_result is Ok,
        result matches Err(error) ==> weight.error(reader) == Some(error),
        shared_result matches Err(error) ==> weight.error(reader) == Some(error),
        shared_result is Err ==> *final(computer) == *old(computer),
{
}

/// The sort key of a document is its score.
pub proof fn law_sort_key(
    computer: &mut SortBySimilarityScore,
    doc: DocId,
    score: Score,
    segment_key: Score,
    key: Score,
    required: bool,
    shared: SortBySimilarityScoreWithThreshold,
    shared_required: bool,
)
    requires
        call_ensures(
            SortBySimilarityScore::segment_sort_key,
            (computer, doc, score),
            segment_key,
        ),
        call_ensures(
            SortBySimilarityScore::convert_segment_sort_key,
            (&SortBySimilarityScore, segment_key),
            key,
        ),
        call_ensures(SortBySimilarityScore::requires_scoring, (&SortBySimilarityScore,), required),
        call_ensures(
            SortBySimilarityScoreWithThreshold::requires_scoring,
            (&shared,),
            shared_required,
        ),
    ensures
        segment_key == score,
        key == score,
        required,
        shared_required,
{
}

/// What is collected from a threshold on, and turned into addresses, are the best `k` documents of the
/// segment among those that score more than where the query starts.
pub proof fn law_collect_from(
    weight: UnionWeight,
    reader: SegmentReader,
    k: usize,
    initial: Score,
    segment_ord: u32,
    computer: TopNComputer<DocId>,
    results: Vec<(Score, DocAddress)>,
)
    requires
        all_sound(weight.lists@),
        call_ensures(
            collect_top_k_scores::<UnionWeight>,
            (k, initial, &weight, &reader),
            Ok(computer),
        ),
        call_ensures(into_scored_addresses, (computer, segment_ord), results),
    ensures
        computer.top_n == k,
        computer.floor@ == (if initial > i64::MIN || reader.alive_bitset is Some {
            Some(initial)
        } else {
            None
        }),
        call_requires(into_scored_addresses, (computer, segment_ord)),
        are_results(results@, weight, reader, k, segment_ord),
        forall|i: int| 0 <= i < results@.len() ==> (#[trigger] results@[i]).0 >= initial,
        forall|doc: DocId, score: int| #[trigger]
            is_match(weight, doc, score) && survives(reader, doc) && score > (if weight.idf_only {
                starting_threshold(fresh(weight.lists@), initial, k)
            } else {
                initial
            }) ==> is_result(results@, doc) || are_better(results@, k, doc, score),
{
    let start = weight.start_threshold(initial, reader, k);
    lemma_fresh(weight);
    let best = choose|best: Seq<(Score, DocId)>|
        results@ == #[trigger] addressed(best, segment_ord) && is_top(
            best,
            computer.entries@,
            computer.top_n as int,
        );
    assert(is_top_k(best, weight.matches(reader), reader, start, k as int));
    lemma_results(results@, weight, reader, start, k, segment_ord);
}

/// A query never fails on lists, and hands over, in ascending order, documents that match. What exceeds
/// the threshold that it starts with and all answers before it is handed over, with its score. If no
/// answer is below the threshold in force, every score is exact.
pub proof fn law_query<C: ScoreCallback>(
    weight: UnionWeight,
    threshold: Score,
    reader: SegmentReader,
    callback: &mut C,
    k: usize,
    result: Result<(), ()>,
    calls: Seq<Call>,
)
    requires
        all_sound(weight.lists@),
        call_ensures(
            <UnionWeight as Weight>::for_each_pruning::<C>,
            (&weight, threshold, &reader, callback, k),
            result,
        ),
        calls == final(callback).calls().skip(old(callback).calls().len() as int),
    ensures
        result is Ok,
        extends_by(old(callback).calls(), final(callback).calls(), calls),
        is_rising(calls),
        forall|i: int|
            0 <= i < calls.len() ==> is_met(fresh(weight.lists@), (#[trigger] calls[i]).doc),
        weight.idf_only ==> forall|i: int|
            0 <= i < calls.len() ==> stays_above(
                starting_threshold(fresh(weight.lists@), threshold, k),
                calls,
                (#[trigger] calls[i]).doc,
                calls[i].score as int,
            ),
        !weight.idf_only ==> forall|i: int|
            0 <= i < calls.len() ==> (#[trigger] calls[i]).score >= in_force(threshold, calls, i),
        !weight.idf_only && weight.lists@.len() != 1 ==> forall|i: int|
            0 <= i < calls.len() ==> (#[trigger] calls[i]).score > in_force(threshold, calls, i),
        forall|doc: DocId, score: int| #[trigger]
            is_match(weight, doc, score) && stays_above(
                if weight.idf_only {
                    starting_threshold(fresh(weight.lists@), threshold, k)
                } else {
                    threshold
                },
                calls,
                doc,
                score,
            ) ==> is_called(calls, doc, score),
        never_lowered(threshold, calls) ==> forall|i: int|
            0 <= i < calls.len() ==> is_match(
                weight,
                (#[trigger] calls[i]).doc,
                calls[i].score as int,
            ),
{
    let docs = weight.matches(reader);
    let start = weight.start_threshold(threshold, reader, k);
    lemma_fresh(weight);
    assert(pruned_run(docs, start, calls));
    if weight.idf_only {
        lemma_rising_calls(docs, start, calls);
    } else {
        assert forall|i: int| 0 <= i < calls.len() implies (#[trigger] calls[i]).score >= in_force(
            threshold,
            calls,
            i,
        ) && (weight.lists@.len() != 1 ==> calls[i].score > in_force(threshold, calls, i)) by {
            assert(calls[i].score >= threshold_before(threshold, calls, i));
        }
    }
    assert forall|i: int| 0 <= i < calls.len() implies is_met(
        fresh(weight.lists@),
        (#[trigger] calls[i]).doc,
    ) by {
        law_scored_docs(fresh(weight.lists@), calls[i].doc, 0);
        assert(docs.contains_key(calls[i].doc));
    }
    assert forall|doc: DocId, score: int| #[trigger]
        is_match(weight, doc, score) && stays_above(start, calls, doc, score) implies is_called(
        calls,
        doc,
        score,
    ) by {
        law_union_matches(weight, reader, doc, score);
        lemma_called(docs, start, calls, doc);
    }
    if never_lowered(threshold, calls) {
        assert forall|j: int| 0 <= j < calls.len() implies (#[trigger] calls[j]).threshold
            >= threshold_before(threshold, calls, j) by {
            assert(calls[j].threshold >= in_force(threshold, calls, j));
        }
        assert(answers_rise(threshold, calls));
        assert forall|i: int| 0 <= i < calls.len() implies is_match(
            weight,
            (#[trigger] calls[i]).doc,
            calls[i].score as int,
        ) by {
            law_union_matches(weight, reader, calls[i].doc, calls[i].score as int);
        }
    }
}

/// The computer for the documents of a segment is always at hand.
pub proof fn law_child<E>(
    reader: SegmentReader,
    child: Result<SortBySimilarityScore, E>,
    shared: SortBySimilarityScoreWithThreshold,
    shared_child: Result<SortBySimilarityScore, E>,
)
    requires
        call_ensures(
            SortBySimilarityScore::segment_sort_key_computer::<E>,
            (&SortBySimilarityScore, &reader),
            child,
        ),
        call_ensures(
            SortBySimilarityScoreWithThreshold::segment_sort_key_computer::<E>,
            (&shared, &reader),
            shared_child,
        ),
    ensures
        child is Ok,
        shared_child is Ok,
{
}

} // verus!
