//! What it means to visit the documents that can still matter.
//!
//! A pruning algorithm walks documents in ascending order and hands those whose score passes a
//! threshold to a callback, which answers with the threshold to use from there on. This module
//! states which calls an algorithm may leave out, and what follows from that.
use vstd::prelude::*;

use crate::scorer_set::lemma_permutation_member;
use crate::sums::{lemma_sum_permutation, sum_by};
use crate::term_scorer::TermScorer;
use crate::types::{DocId, Score};

verus! {

/// One call of a callback: what it was given, and the threshold it answered with.
pub struct Call {
    pub doc: DocId,
    pub score: Score,
    pub threshold: Score,
}

/// A consumer of scored documents that sets the threshold as it goes.
///
/// The ghost functions have bodies so that a consumer outside of verified code only has to provide
/// [`call`](ScoreCallback::call). Such a consumer is taken to keep a history, to which each call is
/// added, and a setup that stays: nothing checks that, and what is proved of the calls is proved of
/// that history.
pub trait ScoreCallback: Sized {
    type Setup;

    /// The invariant of the consumer's own state.
    open spec fn inv(&self) -> bool {
        true
    }

    /// What the consumer was set up with. No call changes it.
    open spec fn setup(&self) -> Self::Setup {
        arbitrary()
    }

    /// All calls so far, in order. A verified consumer gives its own history; the default stands
    /// for the one that an outside consumer is taken to keep.
    open spec fn calls(&self) -> Seq<Call> {
        arbitrary()
    }

    /// Takes a document with its score, and answers with the threshold to use from now on.
    fn call(&mut self, doc: DocId, score: Score) -> (threshold: Score)
        requires
            old(self).inv(),
        ensures
            final(self).inv(),
            final(self).setup() == old(self).setup(),
            final(self).calls() == old(self).calls().push((Call { doc, score, threshold })),
    ;
}

/// The calls that a consumer received while its history grew from `before` to `after`.
pub open spec fn new_calls(before: Seq<Call>, after: Seq<Call>) -> Seq<Call> {
    after.skip(before.len() as int)
}

/// `after` continues the history `before`.
pub open spec fn continues(before: Seq<Call>, after: Seq<Call>) -> bool {
    after == before + new_calls(before, after)
}

/// What a term gives to `doc`.
pub open spec fn term_score<'a>(doc: DocId) -> spec_fn(TermScorer<'a>) -> int {
    |s: TermScorer<'a>| s.score_at(doc)
}

/// What a term gives to `doc` when each term counts for its weight alone.
pub open spec fn term_idf<'a>(doc: DocId) -> spec_fn(TermScorer<'a>) -> int {
    |s: TermScorer<'a>|
        if s.matches(doc) {
            s.list.idf_score as int
        } else {
            0
        }
}

/// The maximum score of a term.
pub open spec fn term_max_score<'a>() -> spec_fn(TermScorer<'a>) -> int {
    |s: TermScorer<'a>| s.list.max_score as int
}

/// The scorers are well formed, and each can read the block that it stands in.
pub open spec fn all_ready(scorers: Seq<TermScorer>) -> bool {
    forall|i: int|
        0 <= i < scorers.len() ==> (#[trigger] scorers[i]).wf() && scorers[i].is_loaded()
}

pub open spec fn any_matches(scorers: Seq<TermScorer>, doc: DocId) -> bool {
    exists|i: int| 0 <= i < scorers.len() && (#[trigger] scorers[i]).matches(doc)
}

/// The documents that `scorers` meet from where they stand, each with its total score.
pub open spec fn scored_docs(scorers: Seq<TermScorer>) -> Map<DocId, int> {
    Map::new(|d: DocId| any_matches(scorers, d), |d: DocId| sum_by(scorers, term_score(d)))
}

/// The documents that `scorers` meet from where they stand, each with the total weight of the
/// terms that it contains.
pub open spec fn idf_scored_docs(scorers: Seq<TermScorer>) -> Map<DocId, int> {
    Map::new(|d: DocId| any_matches(scorers, d), |d: DocId| sum_by(scorers, term_idf(d)))
}

/// The threshold in force when call `i` is made.
pub open spec fn threshold_before(start: Score, calls: Seq<Call>, i: int) -> Score {
    if i <= 0 {
        start
    } else {
        calls[i - 1].threshold
    }
}

/// The highest threshold in force up to call `i`.
pub open spec fn peak(start: Score, calls: Seq<Call>, i: int) -> Score
    decreases i,
{
    if i <= 0 {
        start
    } else if calls[i - 1].threshold > peak(start, calls, i - 1) {
        calls[i - 1].threshold
    } else {
        peak(start, calls, i - 1)
    }
}

/// `doc` comes after the first `i` calls and before the others.
pub open spec fn in_gap(calls: Seq<Call>, i: int, doc: DocId) -> bool {
    &&& 0 <= i <= calls.len()
    &&& i > 0 ==> calls[i - 1].doc < doc
    &&& i < calls.len() ==> doc < calls[i].doc
}

pub open spec fn ascending_calls(calls: Seq<Call>) -> bool {
    forall|i: int, j: int|
        0 <= i < j < calls.len() ==> (#[trigger] calls[i]).doc < (#[trigger] calls[j]).doc
}

/// The calls cover `docs`: they come in ascending order, and a document that was left out does
/// not score more than the highest threshold that was in force before it.
///
/// A call carries the score of its document, unless that score was out of reach already: then it
/// carries at most that score.
pub open spec fn pruned_run(docs: Map<DocId, int>, start: Score, calls: Seq<Call>) -> bool {
    &&& ascending_calls(calls)
    &&& forall|i: int|
        0 <= i < calls.len() ==> {
            let c = #[trigger] calls[i];
            &&& docs.contains_key(c.doc)
            &&& c.score <= docs[c.doc]
            &&& docs[c.doc] > peak(start, calls, i) ==> c.score == docs[c.doc]
        }
    &&& forall|i: int, d: DocId| #[trigger]
        in_gap(calls, i, d) && docs.contains_key(d) ==> docs[d] <= peak(start, calls, i)
}

/// Every call passes the threshold in force.
pub open spec fn calls_exceed(start: Score, calls: Seq<Call>) -> bool {
    forall|i: int|
        0 <= i < calls.len() ==> (#[trigger] calls[i]).score > threshold_before(start, calls, i)
}

/// Every call reaches the highest threshold that was in force before it.
pub open spec fn calls_reach(start: Score, calls: Seq<Call>) -> bool {
    forall|i: int| 0 <= i < calls.len() ==> (#[trigger] calls[i]).score >= peak(start, calls, i)
}

/// Every call carries the score of its document.
pub open spec fn exact_calls(docs: Map<DocId, int>, calls: Seq<Call>) -> bool {
    forall|i: int|
        0 <= i < calls.len() ==> {
            let c = #[trigger] calls[i];
            docs.contains_key(c.doc) && c.score == docs[c.doc]
        }
}

/// The calls of a scan of all documents in ascending order, which calls exactly for those that
/// score more than the threshold in force.
pub open spec fn exhaustive_run(docs: Map<DocId, int>, start: Score, calls: Seq<Call>) -> bool {
    &&& ascending_calls(calls)
    &&& calls_exceed(start, calls)
    &&& forall|i: int|
        0 <= i < calls.len() ==> {
            let c = #[trigger] calls[i];
            docs.contains_key(c.doc) && c.score == docs[c.doc]
        }
    &&& forall|i: int, d: DocId| #[trigger]
        in_gap(calls, i, d) && docs.contains_key(d) ==> docs[d] <= threshold_before(start, calls, i)
}

/// As [`exhaustive_run`], for a scan that also calls for the documents that score the threshold
/// itself.
pub open spec fn exhaustive_run_reaching(
    docs: Map<DocId, int>,
    start: Score,
    calls: Seq<Call>,
) -> bool {
    &&& ascending_calls(calls)
    &&& forall|i: int|
        0 <= i < calls.len() ==> {
            let c = #[trigger] calls[i];
            &&& docs.contains_key(c.doc)
            &&& c.score == docs[c.doc]
            &&& c.score >= threshold_before(start, calls, i)
        }
    &&& forall|i: int, d: DocId| #[trigger]
        in_gap(calls, i, d) && docs.contains_key(d) ==> docs[d] < threshold_before(start, calls, i)
}

/// As [`exhaustive_run`], for a scan that never lowers its threshold: an answer below the
/// threshold in force is ignored.
pub open spec fn exhaustive_run_rising(
    docs: Map<DocId, int>,
    start: Score,
    calls: Seq<Call>,
) -> bool {
    &&& ascending_calls(calls)
    &&& forall|i: int|
        0 <= i < calls.len() ==> {
            let c = #[trigger] calls[i];
            &&& docs.contains_key(c.doc)
            &&& c.score == docs[c.doc]
            &&& c.score > peak(start, calls, i)
        }
    &&& forall|i: int, d: DocId| #[trigger]
        in_gap(calls, i, d) && docs.contains_key(d) ==> docs[d] <= peak(start, calls, i)
}

/// No answer is below the threshold in force.
pub open spec fn answers_rise(start: Score, calls: Seq<Call>) -> bool {
    forall|i: int|
        0 <= i < calls.len() ==> (#[trigger] calls[i]).threshold >= threshold_before(
            start,
            calls,
            i,
        )
}

/// The answers are those of `rule`, which sees the earlier calls and the document at hand.
pub open spec fn answers_follow(
    rule: spec_fn(Seq<Call>, DocId, Score) -> Score,
    calls: Seq<Call>,
) -> bool {
    forall|i: int|
        0 <= i < calls.len() ==> (#[trigger] calls[i]).threshold == rule(
            calls.take(i),
            calls[i].doc,
            calls[i].score,
        )
}

/// The peak is at least each threshold that was in force.
pub proof fn lemma_peak_bounds(start: Score, calls: Seq<Call>, i: int)
    requires
        0 <= i <= calls.len(),
    ensures
        peak(start, calls, i) >= start,
        peak(start, calls, i) >= threshold_before(start, calls, i),
        forall|j: int| 0 <= j < i ==> (#[trigger] calls[j]).threshold <= peak(start, calls, i),
        forall|j: int| 0 <= j <= i ==> #[trigger] peak(start, calls, j) <= peak(start, calls, i),
    decreases i,
{
    if i > 0 {
        lemma_peak_bounds(start, calls, i - 1);
    }
}

/// The peak before call `i` does not depend on the later calls.
pub proof fn lemma_peak_prefix(start: Score, a: Seq<Call>, b: Seq<Call>, i: int)
    requires
        0 <= i <= a.len(),
        i <= b.len(),
        forall|j: int| 0 <= j < i ==> a[j] == b[j],
    ensures
        peak(start, a, i) == peak(start, b, i),
    decreases i,
{
    if i > 0 {
        lemma_peak_prefix(start, a, b, i - 1);
    }
}

/// While the answers rise, the threshold in force is the peak.
pub proof fn lemma_rising_peak(start: Score, calls: Seq<Call>, i: int)
    requires
        answers_rise(start, calls),
        0 <= i <= calls.len(),
    ensures
        peak(start, calls, i) == threshold_before(start, calls, i),
    decreases i,
{
    if i > 0 {
        lemma_rising_peak(start, calls, i - 1);
        assert(calls[i - 1].threshold >= threshold_before(start, calls, i - 1));
    }
}

/// Pruning loses nothing: if the consumer never lowers the threshold, a pruned run whose calls
/// all exceed the threshold makes exactly the calls of an exhaustive scan, with exact scores.
pub proof fn law_pruned_run_is_exhaustive(docs: Map<DocId, int>, start: Score, calls: Seq<Call>)
    requires
        pruned_run(docs, start, calls),
        calls_exceed(start, calls),
        answers_rise(start, calls),
    ensures
        exhaustive_run(docs, start, calls),
        exhaustive_run_rising(docs, start, calls),
        calls_reach(start, calls),
{
    assert forall|i: int| 0 <= i <= calls.len() implies #[trigger] peak(start, calls, i)
        == threshold_before(start, calls, i) by {
        lemma_rising_peak(start, calls, i);
    }
    assert forall|i: int| 0 <= i < calls.len() implies {
        let c = #[trigger] calls[i];
        docs.contains_key(c.doc) && c.score == docs[c.doc] && c.score > peak(start, calls, i)
    } by {
        assert(peak(start, calls, i) == threshold_before(start, calls, i));
    }
    assert forall|i: int, d: DocId| #[trigger]
        in_gap(calls, i, d) && docs.contains_key(d) implies docs[d] <= threshold_before(
        start,
        calls,
        i,
    ) by {
        assert(peak(start, calls, i) == threshold_before(start, calls, i));
    }
}

/// A scan that ignores lowered thresholds is an exhaustive scan when none is lowered.
pub proof fn law_rising_run_is_exhaustive(docs: Map<DocId, int>, start: Score, calls: Seq<Call>)
    requires
        exhaustive_run_rising(docs, start, calls),
        answers_rise(start, calls),
    ensures
        exhaustive_run(docs, start, calls),
{
    assert forall|i: int| 0 <= i <= calls.len() implies #[trigger] peak(start, calls, i)
        == threshold_before(start, calls, i) by {
        lemma_rising_peak(start, calls, i);
    }
    assert forall|i: int| 0 <= i < calls.len() implies (#[trigger] calls[i]).score
        > threshold_before(start, calls, i) by {
        assert(peak(start, calls, i) == threshold_before(start, calls, i));
    }
    assert forall|i: int, d: DocId| #[trigger]
        in_gap(calls, i, d) && docs.contains_key(d) implies docs[d] <= threshold_before(
        start,
        calls,
        i,
    ) by {
        assert(peak(start, calls, i) == threshold_before(start, calls, i));
    }
}

/// An exhaustive scan that calls at the threshold too covers the documents.
pub proof fn law_reaching_run_is_pruned(docs: Map<DocId, int>, start: Score, calls: Seq<Call>)
    requires
        exhaustive_run_reaching(docs, start, calls),
    ensures
        pruned_run(docs, start, calls),
        answers_rise(start, calls) ==> calls_reach(start, calls),
{
    assert forall|i: int, d: DocId| #[trigger]
        in_gap(calls, i, d) && docs.contains_key(d) implies docs[d] <= peak(start, calls, i) by {
        lemma_peak_bounds(start, calls, i);
    }
    if answers_rise(start, calls) {
        assert forall|i: int| 0 <= i < calls.len() implies (#[trigger] calls[i]).score >= peak(
            start,
            calls,
            i,
        ) by {
            lemma_rising_peak(start, calls, i);
        }
    }
}

/// So does one that ignores lowered thresholds, and each of its calls reaches them.
pub proof fn law_rising_run_is_pruned(docs: Map<DocId, int>, start: Score, calls: Seq<Call>)
    requires
        exhaustive_run_rising(docs, start, calls),
    ensures
        pruned_run(docs, start, calls),
        calls_reach(start, calls),
{
}

/// The calls of an exhaustive scan are determined by the documents, the first threshold and the
/// consumer: two scans with the same answers to the same histories make the same calls.
pub proof fn law_exhaustive_run_unique(
    docs: Map<DocId, int>,
    start: Score,
    rule: spec_fn(Seq<Call>, DocId, Score) -> Score,
    a: Seq<Call>,
    b: Seq<Call>,
)
    requires
        exhaustive_run(docs, start, a),
        exhaustive_run(docs, start, b),
        answers_follow(rule, a),
        answers_follow(rule, b),
    ensures
        a == b,
{
    lemma_exhaustive_prefix(docs, start, rule, a, b, a.len() as int);
    lemma_exhaustive_prefix(docs, start, rule, b, a, b.len() as int);
    assert(a.take(a.len() as int) =~= a);
    assert(b.take(b.len() as int) =~= b);
}

proof fn lemma_exhaustive_prefix(
    docs: Map<DocId, int>,
    start: Score,
    rule: spec_fn(Seq<Call>, DocId, Score) -> Score,
    a: Seq<Call>,
    b: Seq<Call>,
    n: int,
)
    requires
        exhaustive_run(docs, start, a),
        exhaustive_run(docs, start, b),
        answers_follow(rule, a),
        answers_follow(rule, b),
        0 <= n <= a.len(),
    ensures
        n <= b.len(),
        a.take(n) == b.take(n),
    decreases n,
{
    if n > 0 {
        let i = n - 1;
        lemma_exhaustive_prefix(docs, start, rule, a, b, i);
        assert forall|j: int| 0 <= j < i implies a[j] == b[j] by {
            assert(a.take(i)[j] == b.take(i)[j]);
        }
        assert(threshold_before(start, a, i) == threshold_before(start, b, i));
        let x = a[i].doc;
        if i > 0 {
            assert(a[i - 1].doc < a[i].doc);
        }
        if b.len() == i || x < b[i].doc {
            assert(in_gap(b, i, x));
        }
        if b.len() > i {
            if i > 0 {
                assert(b[i - 1].doc < b[i].doc);
            }
            if b[i].doc < x {
                assert(in_gap(a, i, b[i].doc));
            }
        }
        assert(a[i].doc == b[i].doc);
        assert(a.take(n) =~= b.take(n));
    }
}

/// So are the calls of a scan that ignores lowered thresholds.
pub proof fn law_rising_run_unique(
    docs: Map<DocId, int>,
    start: Score,
    rule: spec_fn(Seq<Call>, DocId, Score) -> Score,
    a: Seq<Call>,
    b: Seq<Call>,
)
    requires
        exhaustive_run_rising(docs, start, a),
        exhaustive_run_rising(docs, start, b),
        answers_follow(rule, a),
        answers_follow(rule, b),
    ensures
        a == b,
{
    lemma_rising_prefix(docs, start, rule, a, b, a.len() as int);
    lemma_rising_prefix(docs, start, rule, b, a, b.len() as int);
    assert(a.take(a.len() as int) =~= a);
    assert(b.take(b.len() as int) =~= b);
}

proof fn lemma_rising_prefix(
    docs: Map<DocId, int>,
    start: Score,
    rule: spec_fn(Seq<Call>, DocId, Score) -> Score,
    a: Seq<Call>,
    b: Seq<Call>,
    n: int,
)
    requires
        exhaustive_run_rising(docs, start, a),
        exhaustive_run_rising(docs, start, b),
        answers_follow(rule, a),
        answers_follow(rule, b),
        0 <= n <= a.len(),
    ensures
        n <= b.len(),
        a.take(n) == b.take(n),
    decreases n,
{
    if n > 0 {
        let i = n - 1;
        lemma_rising_prefix(docs, start, rule, a, b, i);
        assert forall|j: int| 0 <= j < i implies a[j] == b[j] by {
            assert(a.take(i)[j] == b.take(i)[j]);
        }
        lemma_peak_prefix(start, a, b, i);
        let x = a[i].doc;
        if i > 0 {
            assert(a[i - 1].doc < a[i].doc);
        }
        if b.len() == i || x < b[i].doc {
            assert(in_gap(b, i, x));
        }
        if b.len() > i {
            if i > 0 {
                assert(b[i - 1].doc < b[i].doc);
            }
            if b[i].doc < x {
                assert(in_gap(a, i, b[i].doc));
            }
        }
        assert(a[i].doc == b[i].doc);
        assert(a.take(n) =~= b.take(n));
    }
}

/// The order of the scorers does not matter: it changes neither which documents they meet nor what
/// these score.
pub proof fn law_order_of_scorers(s: Seq<TermScorer>, p: Seq<TermScorer>)
    requires
        s.to_multiset() == p.to_multiset(),
    ensures
        scored_docs(s) == scored_docs(p),
        idf_scored_docs(s) == idf_scored_docs(p),
{
    assert forall|d: DocId| #[trigger] any_matches(s, d) == any_matches(p, d) by {
        if any_matches(s, d) {
            let i = choose|i: int| 0 <= i < s.len() && (#[trigger] s[i]).matches(d);
            let j = lemma_permutation_member(p, s, i);
            assert(p[j].matches(d));
        }
        if any_matches(p, d) {
            let i = choose|i: int| 0 <= i < p.len() && (#[trigger] p[i]).matches(d);
            let j = lemma_permutation_member(s, p, i);
            assert(s[j].matches(d));
        }
    }
    assert forall|d: DocId| sum_by(s, #[trigger] term_score(d)) == sum_by(p, term_score(d)) by {
        lemma_sum_permutation(s, p, term_score(d));
    }
    assert forall|d: DocId| sum_by(s, #[trigger] term_idf(d)) == sum_by(p, term_idf(d)) by {
        lemma_sum_permutation(s, p, term_idf(d));
    }
    assert(scored_docs(s) =~= scored_docs(p));
    assert(idf_scored_docs(s) =~= idf_scored_docs(p));
}

/// Pruning by bounds makes the same calls whatever the order of the scorers, if the consumers answer
/// alike and never lower the threshold.
pub proof fn law_calls_ignore_order(
    s: Seq<TermScorer>,
    p: Seq<TermScorer>,
    threshold: Score,
    rule: spec_fn(Seq<Call>, DocId, Score) -> Score,
    a: Seq<Call>,
    b: Seq<Call>,
)
    requires
        s.to_multiset() == p.to_multiset(),
        pruned_run(scored_docs(s), threshold, a),
        pruned_run(scored_docs(p), threshold, b),
        calls_exceed(threshold, a),
        calls_exceed(threshold, b),
        answers_follow(rule, a),
        answers_follow(rule, b),
        answers_rise(threshold, a),
        answers_rise(threshold, b),
    ensures
        a == b,
{
    law_order_of_scorers(s, p);
    law_pruned_run_is_exhaustive(scored_docs(s), threshold, a);
    law_pruned_run_is_exhaustive(scored_docs(p), threshold, b);
    law_exhaustive_run_unique(scored_docs(s), threshold, rule, a, b);
}

} // verus!
