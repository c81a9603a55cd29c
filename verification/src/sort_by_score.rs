//! Collecting the best documents of a segment by score.
use vstd::prelude::*;

use crate::pruning::{
    answers_rise, ascending_calls, calls_reach, exact_calls, in_gap, lemma_peak_bounds, new_calls,
    peak, pruned_run, threshold_before, Call, ScoreCallback,
};
use crate::scorer_set::lemma_permutation_member;
use crate::segment::{SegmentReader, Weight};
use crate::sums::{
    count_by, indicator, lemma_count_all, lemma_count_bounds, lemma_count_implied, lemma_count_none,
    lemma_sum_append, lemma_sum_permutation, lemma_sum_split,
};
use crate::top_n::{
    is_nth_score, is_top, rank, rank_fn, ranks_to, scores_above, scores_from, splits_top,
    TopNComputer,
};
use crate::types::{DocAddress, DocId, Score};

verus! {

/// The first document comes before the other one in the order of results: it scores more, or as
/// much with a lower document.
pub open spec fn comes_first(score: Score, doc: DocId, other_score: int, other: DocId) -> bool {
    score > other_score || score == other_score && doc < other
}

/// `results` holds the best `k` documents, the best one first, of those that are alive and score
/// more than `start`. Documents that score `start` itself may be among them where there is room.
pub open spec fn is_top_k(
    results: Seq<(Score, DocId)>,
    docs: Map<DocId, int>,
    reader: SegmentReader,
    start: Score,
    k: int,
) -> bool {
    &&& results.len() <= k
    &&& forall|i: int|
        0 <= i < results.len() ==> {
            let (score, doc) = #[trigger] results[i];
            docs.contains_key(doc) && reader.is_alive(doc) && score == docs[doc] && score >= start
        }
    &&& forall|i: int, j: int|
        0 <= i < j < results.len() ==> comes_first(
            (#[trigger] results[i]).0,
            results[i].1,
            (#[trigger] results[j]).0 as int,
            results[j].1,
        )
    &&& forall|d: DocId| #[trigger]
        docs.contains_key(d) && reader.is_alive(d) && docs[d] > start ==> found(results, d)
            || all_come_first(results, k, docs[d], d)
}

pub open spec fn found(results: Seq<(Score, DocId)>, doc: DocId) -> bool {
    exists|i: int| 0 <= i < results.len() && (#[trigger] results[i]).1 == doc
}

/// There are `k` results, and each comes before `doc`.
pub open spec fn all_come_first(
    results: Seq<(Score, DocId)>,
    k: int,
    score: int,
    doc: DocId,
) -> bool {
    &&& results.len() == k
    &&& forall|i: int|
        0 <= i < results.len() ==> comes_first(
            (#[trigger] results[i]).0,
            results[i].1,
            score,
            doc,
        )
}

/// The results, as addresses within the index.
pub open spec fn addressed(
    results: Seq<(Score, DocId)>,
    segment_ord: u32,
) -> Seq<(Score, DocAddress)> {
    results.map_values(
        |entry: (Score, DocId)| (entry.0, DocAddress { segment_ord, doc_id: entry.1 }),
    )
}

/// `results` are the addresses of the best `k` documents; see [`is_top_k`].
pub open spec fn is_segment_top_k(
    results: Seq<(Score, DocAddress)>,
    docs: Map<DocId, int>,
    reader: SegmentReader,
    start: Score,
    k: int,
    segment_ord: u32,
) -> bool {
    exists|local: Seq<(Score, DocId)>|
        results == #[trigger] addressed(local, segment_ord) && is_top_k(
            local,
            docs,
            reader,
            start,
            k,
        )
}

/// The threshold that a segment's results start with: none, if it is `Score::MIN` and no document
/// has been deleted.
pub open spec fn first_floor(reader: SegmentReader, initial: Score) -> Option<Score> {
    if initial > Score::MIN || reader.alive_bitset is Some {
        Some(initial)
    } else {
        None
    }
}

/// What a collector keeps of some calls: those for documents that are alive and not below the
/// first threshold.
pub open spec fn collected(
    reader: SegmentReader,
    initial: Score,
    calls: Seq<Call>,
) -> Seq<(Score, DocId)>
    decreases calls.len(),
{
    if calls.len() == 0 {
        Seq::empty()
    } else {
        let earlier = collected(reader, initial, calls.drop_last());
        let c = calls.last();
        if reader.is_alive(c.doc) && c.score >= initial {
            earlier.push((c.score, c.doc))
        } else {
            earlier
        }
    }
}

/// Each answer is the first threshold, or `k` collected documents score that much.
pub open spec fn answers_backed(
    reader: SegmentReader,
    initial: Score,
    k: int,
    calls: Seq<Call>,
) -> bool {
    forall|i: int|
        0 <= i < calls.len() ==> (#[trigger] calls[i]).threshold == initial || {
            &&& k > 0
            &&& count_by(
                collected(reader, initial, calls.take(i + 1)),
                scores_from(calls[i].threshold),
            ) >= k
        }
}

/// A call for a deleted document is answered as the call before it.
pub open spec fn answers_repeat(reader: SegmentReader, initial: Score, calls: Seq<Call>) -> bool {
    forall|i: int|
        0 <= i < calls.len() && !reader.is_alive((#[trigger] calls[i]).doc) ==> calls[i].threshold
            == threshold_before(initial, calls, i)
}

/// The calls of a run that collects the best `k` documents of a segment.
pub open spec fn is_collecting_run(
    docs: Map<DocId, int>,
    reader: SegmentReader,
    initial: Score,
    start: Score,
    k: int,
    calls: Seq<Call>,
) -> bool {
    &&& pruned_run(docs, start, calls)
    &&& exact_calls(docs, calls)
    &&& calls_reach(start, calls)
    &&& answers_rise(initial, calls)
    &&& answers_backed(reader, initial, k, calls)
    &&& answers_repeat(reader, initial, calls)
}

/// The callback that collects the best documents.
struct TopKCollector<'a> {
    top_n: TopNComputer<DocId>,
    initial_threshold: Score,
    threshold: Score,
    reader: &'a SegmentReader,
    log: Ghost<Seq<Call>>,
}

impl<'a> ScoreCallback for TopKCollector<'a> {
    type Setup = (usize, Score, &'a SegmentReader);

    closed spec fn inv(&self) -> bool {
        let calls = self.log@;
        &&& self.top_n.wf()
        &&& self.top_n.floor@ == first_floor(*self.reader, self.initial_threshold)
        &&& self.top_n.entries@ == collected(*self.reader, self.initial_threshold, calls)
        &&& self.threshold == (match self.top_n.threshold {
            Some(t) => t,
            None => self.initial_threshold,
        })
        &&& self.threshold >= self.initial_threshold
        &&& self.threshold == threshold_before(
            self.initial_threshold,
            calls,
            calls.len() as int,
        )
        &&& answers_rise(self.initial_threshold, calls)
        &&& answers_backed(
            *self.reader,
            self.initial_threshold,
            self.top_n.top_n as int,
            calls,
        )
        &&& answers_repeat(*self.reader, self.initial_threshold, calls)
    }

    closed spec fn setup(&self) -> (usize, Score, &'a SegmentReader) {
        (self.top_n.top_n, self.initial_threshold, self.reader)
    }

    closed spec fn calls(&self) -> Seq<Call> {
        self.log@
    }

    fn call(&mut self, doc: DocId, score: Score) -> (threshold: Score) {
        let ghost before = self.log@;
        let ghost floor = self.initial_threshold;
        let ghost reader = *self.reader;
        let ghost k = self.top_n.top_n as int;
        let deleted: bool = match self.reader.alive_bitset() {
            Some(bitset) => bitset.is_deleted(doc),
            None => false,
        };
        if !deleted {
            self.top_n.push(score, doc);
            self.threshold = match self.top_n.threshold {
                Some(t) => t,
                None => self.initial_threshold,
            };
        }
        let answer: Score = self.threshold;
        proof {
            let c = Call { doc, score, threshold: answer };
            let after = before.push(c);
            self.log@ = after;
            assert(after.drop_last() =~= before);
            assert(self.top_n.entries@ == collected(reader, floor, after));
            assert forall|i: int| 0 <= i < after.len() implies (#[trigger] after[i]).threshold
                >= threshold_before(floor, after, i) by {
                if i < before.len() {
                    assert(after[i] == before[i]);
                    assert(threshold_before(floor, after, i) == threshold_before(floor, before, i));
                } else {
                    assert(threshold_before(floor, after, i) == threshold_before(floor, before, i));
                }
            }
            assert forall|i: int|
                0 <= i < after.len() && !reader.is_alive(
                    (#[trigger] after[i]).doc,
                ) implies after[i].threshold == threshold_before(floor, after, i) by {
                if i < before.len() {
                    assert(after[i] == before[i]);
                }
                assert(threshold_before(floor, after, i) == threshold_before(floor, before, i));
            }
            assert forall|i: int| 0 <= i < after.len() implies (#[trigger] after[i]).threshold
                == floor || {
                &&& k > 0
                &&& count_by(
                    collected(reader, floor, after.take(i + 1)),
                    scores_from(after[i].threshold),
                ) >= k
            } by {
                if i < before.len() {
                    assert(after[i] == before[i]);
                    assert(after.take(i + 1) =~= before.take(i + 1));
                } else {
                    assert(after.take(i + 1) =~= after);
                    if answer != floor {
                        let entries = self.top_n.entries@;
                        let buffer = self.top_n.buffer@;
                        let out = self.top_n.ruled_out@;
                        let p = scores_from::<DocId>(answer);
                        assert(self.top_n.threshold == Some(answer));
                        lemma_sum_permutation(buffer + out, entries, indicator(p));
                        lemma_sum_append(buffer, out, indicator(p));
                        lemma_count_bounds(out, p);
                    }
                }
            }
        }
        answer
    }
}

/// Collecting goes on from what was collected.
proof fn lemma_collected_grows(
    reader: SegmentReader,
    initial: Score,
    calls: Seq<Call>,
    i: int,
    p: spec_fn((Score, DocId)) -> bool,
)
    requires
        0 <= i <= calls.len(),
    ensures
        count_by(collected(reader, initial, calls.take(i)), p) <= count_by(
            collected(reader, initial, calls),
            p,
        ),
    decreases calls.len() - i,
{
    if i < calls.len() {
        lemma_collected_grows(reader, initial, calls, i + 1, p);
        assert(calls.take(i + 1).drop_last() =~= calls.take(i));
        let earlier = collected(reader, initial, calls.take(i));
        let c = calls[i];
        assert(earlier.push((c.score, c.doc)).drop_last() =~= earlier);
    } else {
        assert(calls.take(i) =~= calls);
    }
}

/// What is collected was called for.
proof fn lemma_collected_calls(
    reader: SegmentReader,
    initial: Score,
    calls: Seq<Call>,
    x: int,
) -> (i: int)
    requires
        0 <= x < collected(reader, initial, calls).len(),
    ensures
        0 <= i < calls.len(),
        collected(reader, initial, calls)[x] == (calls[i].score, calls[i].doc),
        reader.is_alive(calls[i].doc),
    decreases calls.len(),
{
    let earlier = collected(reader, initial, calls.drop_last());
    if x < earlier.len() {
        let i = lemma_collected_calls(reader, initial, calls.drop_last(), x);
        assert(calls.drop_last()[i] == calls[i]);
        i
    } else {
        calls.len() - 1
    }
}

/// A call for a document that is alive and not below the first threshold is collected.
proof fn lemma_call_collected(
    reader: SegmentReader,
    initial: Score,
    calls: Seq<Call>,
    i: int,
) -> (x: int)
    requires
        0 <= i < calls.len(),
        reader.is_alive(calls[i].doc),
        calls[i].score >= initial,
    ensures
        0 <= x < collected(reader, initial, calls).len(),
        collected(reader, initial, calls)[x] == (calls[i].score, calls[i].doc),
    decreases calls.len(),
{
    let earlier = collected(reader, initial, calls.drop_last());
    if i < calls.len() - 1 {
        assert(calls.drop_last()[i] == calls[i]);
        let x = lemma_call_collected(reader, initial, calls.drop_last(), i);
        assert(collected(reader, initial, calls)[x] == earlier[x]);
        x
    } else {
        earlier.len() as int
    }
}

/// No document is collected twice.
proof fn lemma_collected_ascending(
    reader: SegmentReader,
    initial: Score,
    calls: Seq<Call>,
)
    requires
        ascending_calls(calls),
    ensures
        forall|x: int, y: int|
            0 <= x < y < collected(reader, initial, calls).len() ==> (#[trigger] collected(
                reader,
                initial,
                calls,
            )[x]).1 < (#[trigger] collected(reader, initial, calls)[y]).1,
    decreases calls.len(),
{
    if calls.len() > 0 {
        let shorter = calls.drop_last();
        assert forall|i: int, j: int| 0 <= i < j < shorter.len() implies (
        #[trigger] shorter[i]).doc < (#[trigger] shorter[j]).doc by {
            assert(shorter[i] == calls[i] && shorter[j] == calls[j]);
        }
        lemma_collected_ascending(reader, initial, shorter);
        let earlier = collected(reader, initial, shorter);
        let all = collected(reader, initial, calls);
        assert forall|x: int, y: int| 0 <= x < y < all.len() implies (#[trigger] all[x]).1 < (
        #[trigger] all[y]).1 by {
            if y == earlier.len() {
                assert(all[x] == earlier[x]);
                let i = lemma_collected_calls(reader, initial, shorter, x);
                assert(shorter[i] == calls[i]);
                assert(calls[i].doc < calls[calls.len() - 1].doc);
            } else {
                assert(all[x] == earlier[x] && all[y] == earlier[y]);
            }
        }
    }
}

/// A document that was not called for stands between two calls.
proof fn lemma_find_gap(calls: Seq<Call>, d: DocId, n: int) -> (i: int)
    requires
        ascending_calls(calls),
        0 <= n <= calls.len(),
        forall|j: int| 0 <= j < calls.len() ==> (#[trigger] calls[j]).doc != d,
        n < calls.len() ==> d < calls[n].doc,
    ensures
        in_gap(calls, i, d),
    decreases n,
{
    if n == 0 || calls[n - 1].doc < d {
        n
    } else {
        lemma_find_gap(calls, d, n - 1)
    }
}

/// While the answers rise from `initial`, the peak from a higher start is that start or the last
/// answer.
proof fn lemma_peak_from(initial: Score, start: Score, calls: Seq<Call>, i: int)
    requires
        answers_rise(initial, calls),
        initial <= start,
        0 <= i <= calls.len(),
    ensures
        peak(start, calls, i) == start || i > 0 && peak(start, calls, i) == calls[i - 1].threshold
            && calls[i - 1].threshold > start,
        i > 0 ==> calls[i - 1].threshold <= peak(start, calls, i),
    decreases i,
{
    if i > 0 {
        lemma_peak_from(initial, start, calls, i - 1);
        assert(calls[i - 1].threshold >= threshold_before(initial, calls, i - 1));
    }
}

/// Enough entries before a rank leave no room for later ones.
proof fn lemma_top_filled(
    result: Seq<(Score, DocId)>,
    rest: Seq<(Score, DocId)>,
    entries: Seq<(Score, DocId)>,
    k: int,
    r: int,
)
    requires
        splits_top(result, rest, entries, k),
        count_by(entries, ranks_to(r)) >= k,
    ensures
        result.len() == k,
        forall|i: int| 0 <= i < result.len() ==> rank(#[trigger] result[i]) <= r,
{
    let p = ranks_to::<DocId>(r);
    lemma_sum_permutation(result + rest, entries, indicator(p));
    lemma_sum_append(result, rest, indicator(p));
    lemma_count_bounds(result, p);
    if result.len() < k {
        lemma_count_none(rest, p);
    }
    assert forall|i: int| 0 <= i < result.len() implies rank(#[trigger] result[i]) <= r by {
        if rank(result[i]) > r {
            let low = result.take(i);
            let high = result.skip(i);
            assert forall|x: int| 0 <= x < high.len() implies !p(#[trigger] high[x]) by {
                assert(high[x] == result[i + x]);
                assert(rank_fn()(result[i]) <= rank_fn()(result[i + x]));
            }
            assert forall|x: int| 0 <= x < rest.len() implies !p(#[trigger] rest[x]) by {
                assert(rank(result[i]) <= rank(rest[x]));
            }
            lemma_count_none(high, p);
            lemma_count_none(rest, p);
            lemma_count_bounds(low, p);
            lemma_sum_split(result, i, indicator(p));
        }
    }
}

/// The best of what was collected are the best of all documents.
proof fn lemma_collected_top(
    docs: Map<DocId, int>,
    reader: SegmentReader,
    initial: Score,
    start: Score,
    k: int,
    calls: Seq<Call>,
    result: Seq<(Score, DocId)>,
)
    requires
        pruned_run(docs, start, calls),
        exact_calls(docs, calls),
        calls_reach(start, calls),
        initial <= start,
        answers_rise(initial, calls),
        answers_backed(reader, initial, k, calls),
        is_top(result, collected(reader, initial, calls), k),
    ensures
        is_top_k(result, docs, reader, start, k),
{
    let entries = collected(reader, initial, calls);
    let rest = choose|rest: Seq<(Score, DocId)>| #[trigger] splits_top(result, rest, entries, k);
    let both = result + rest;
    lemma_collected_ascending(reader, initial, calls);
    assert forall|i: int| 0 <= i < result.len() implies {
        let (score, doc) = #[trigger] result[i];
        docs.contains_key(doc) && reader.is_alive(doc) && score == docs[doc] && score >= start
    } by {
        assert(both[i] == result[i]);
        let x = lemma_permutation_member(entries, both, i);
        let c = lemma_collected_calls(reader, initial, calls, x);
        lemma_peak_bounds(start, calls, c);
    }
    assert forall|i: int, j: int| 0 <= i < j < result.len() implies comes_first(
        (#[trigger] result[i]).0,
        result[i].1,
        (#[trigger] result[j]).0 as int,
        result[j].1,
    ) by {
        assert(rank_fn()(result[i]) <= rank_fn()(result[j]));
        lemma_distinct_members(entries, both, i, j);
        assert(both[i] == result[i] && both[j] == result[j]);
    }
    assert forall|d: DocId| #[trigger]
        docs.contains_key(d) && reader.is_alive(d) && docs[d] > start implies found(result, d)
        || all_come_first(result, k, docs[d], d) by {
        if !found(result, d) {
            if exists|i: int| 0 <= i < calls.len() && (#[trigger] calls[i]).doc == d {
                let i = choose|i: int| 0 <= i < calls.len() && (#[trigger] calls[i]).doc == d;
                lemma_called(docs, reader, initial, k, calls, result, rest, i);
            } else {
                lemma_uncalled(docs, reader, initial, start, k, calls, result, rest, d);
            }
        }
    }
}

/// A collected document that is not among the best comes after them.
proof fn lemma_called(
    docs: Map<DocId, int>,
    reader: SegmentReader,
    initial: Score,
    k: int,
    calls: Seq<Call>,
    result: Seq<(Score, DocId)>,
    rest: Seq<(Score, DocId)>,
    i: int,
)
    requires
        splits_top(result, rest, collected(reader, initial, calls), k),
        0 <= i < calls.len(),
        reader.is_alive(calls[i].doc),
        calls[i].score >= initial,
        calls[i].score == docs[calls[i].doc],
        !found(result, calls[i].doc),
    ensures
        all_come_first(result, k, docs[calls[i].doc], calls[i].doc),
{
    let d = calls[i].doc;
    let both = result + rest;
    let x = lemma_call_collected(reader, initial, calls, i);
    let y = lemma_permutation_member(both, collected(reader, initial, calls), x);
    if y < result.len() {
        assert(result[y] == both[y]);
        assert(result[y].1 == d);
    }
    let z = y - result.len();
    assert(rest[z] == both[y]);
    assert forall|j: int| 0 <= j < result.len() implies rank(#[trigger] result[j]) <= rank(
        (calls[i].score, d),
    ) by {
        assert(rank(result[j]) <= rank(rest[z]));
    }
    lemma_ranked_first(result, k, calls[i].score, d);
}

/// A document that was not called for comes after the best, or scores no more than `start`.
proof fn lemma_uncalled(
    docs: Map<DocId, int>,
    reader: SegmentReader,
    initial: Score,
    start: Score,
    k: int,
    calls: Seq<Call>,
    result: Seq<(Score, DocId)>,
    rest: Seq<(Score, DocId)>,
    d: DocId,
)
    requires
        pruned_run(docs, start, calls),
        initial <= start,
        answers_rise(initial, calls),
        answers_backed(reader, initial, k, calls),
        splits_top(result, rest, collected(reader, initial, calls), k),
        docs.contains_key(d),
        docs[d] > start,
        forall|j: int| 0 <= j < calls.len() ==> (#[trigger] calls[j]).doc != d,
        !found(result, d),
    ensures
        all_come_first(result, k, docs[d], d),
{
    let i = lemma_dismissing_answer(docs, initial, start, calls, d);
    let score = docs[d] as Score;
    lemma_backing(reader, initial, k, calls, i, score, d);
    lemma_top_filled(result, rest, collected(reader, initial, calls), k, rank((score, d)));
    lemma_ranked_first(result, k, score, d);
}

/// A document that exceeds the start but was not called for had been ruled out by an answer.
proof fn lemma_dismissing_answer(
    docs: Map<DocId, int>,
    initial: Score,
    start: Score,
    calls: Seq<Call>,
    d: DocId,
) -> (i: int)
    requires
        pruned_run(docs, start, calls),
        initial <= start,
        answers_rise(initial, calls),
        docs.contains_key(d),
        docs[d] > start,
        forall|j: int| 0 <= j < calls.len() ==> (#[trigger] calls[j]).doc != d,
    ensures
        0 < i <= calls.len(),
        start < docs[d] <= calls[i - 1].threshold,
        calls[i - 1].doc < d,
{
    let i = lemma_find_gap(calls, d, calls.len() as int);
    lemma_peak_from(initial, start, calls, i);
    assert(docs[d] <= peak(start, calls, i));
    i
}

/// Results that rank no later than another document come before it.
proof fn lemma_ranked_first(result: Seq<(Score, DocId)>, k: int, score: Score, d: DocId)
    requires
        result.len() == k,
        forall|i: int| 0 <= i < result.len() ==> rank(#[trigger] result[i]) <= rank((score, d)),
        !found(result, d),
    ensures
        all_come_first(result, k, score as int, d),
{
    assert forall|j: int| 0 <= j < result.len() implies comes_first(
        (#[trigger] result[j]).0,
        result[j].1,
        score as int,
        d,
    ) by {
        assert(rank(result[j]) <= rank((score, d)));
        assert(result[j].1 != d);
    }
}

/// The documents that back an answer come before a later document that scores no more.
proof fn lemma_backing(
    reader: SegmentReader,
    initial: Score,
    k: int,
    calls: Seq<Call>,
    i: int,
    score: Score,
    d: DocId,
)
    requires
        ascending_calls(calls),
        answers_backed(reader, initial, k, calls),
        0 < i <= calls.len(),
        calls[i - 1].threshold != initial,
        score <= calls[i - 1].threshold,
        calls[i - 1].doc < d,
    ensures
        count_by(collected(reader, initial, calls), ranks_to(rank((score, d)))) >= k,
{
    let t = calls[i - 1].threshold;
    let r = rank((score, d));
    let prefix = collected(reader, initial, calls.take(i));
    assert(calls.take(i - 1 + 1) =~= calls.take(i));
    assert(count_by(prefix, scores_from(t)) >= k);
    assert forall|x: int|
        0 <= x < prefix.len() && scores_from::<DocId>(t)(#[trigger] prefix[x]) implies ranks_to::<
        DocId,
    >(r)(prefix[x]) by {
        let c = lemma_collected_calls(reader, initial, calls.take(i), x);
        assert(calls.take(i)[c] == calls[c]);
        if c < i - 1 {
            assert(calls[c].doc < calls[i - 1].doc);
        }
    }
    lemma_count_implied(prefix, scores_from(t), ranks_to(r));
    lemma_collected_grows(reader, initial, calls, i, ranks_to(r));
}

/// Two places of a reordering of distinct documents hold distinct documents.
proof fn lemma_distinct_members(
    entries: Seq<(Score, DocId)>,
    both: Seq<(Score, DocId)>,
    i: int,
    j: int,
)
    requires
        both.to_multiset() == entries.to_multiset(),
        forall|x: int, y: int|
            0 <= x < y < entries.len() ==> (#[trigger] entries[x]).1 < (#[trigger] entries[y]).1,
        0 <= i < j < both.len(),
    ensures
        both[i].1 != both[j].1,
{
    assert(entries.no_duplicates());
    entries.lemma_multiset_has_no_duplicates();
    both.lemma_multiset_has_no_duplicates_conv();
    let x = lemma_permutation_member(entries, both, i);
    let y = lemma_permutation_member(entries, both, j);
    if x < y {
        assert(entries[x].1 < entries[y].1);
    } else if y < x {
        assert(entries[y].1 < entries[x].1);
    } else {
        assert(both[i] == both[j]);
    }
}

/// Runs the pruning loop that collects the best `k` documents of a segment, among those that it
/// calls for and that score at least `initial_threshold`.
pub fn collect_top_k_scores<W: Weight>(
    k: usize,
    initial_threshold: Score,
    weight: &W,
    reader: &SegmentReader,
) -> (result: Result<TopNComputer<DocId>, W::Error>)
    requires
        weight.ready(*reader),
    ensures
        match result {
            Ok(top_n) => {
                &&& weight.error(*reader) is None
                &&& top_n.wf()
                &&& top_n.top_n == k
                &&& top_n.floor@ == first_floor(*reader, initial_threshold)
                &&& exists|calls: Seq<Call>| #[trigger]
                    is_collecting_run(
                        weight.matches(*reader),
                        *reader,
                        initial_threshold,
                        weight.start_threshold(initial_threshold, *reader, k),
                        k as int,
                        calls,
                    ) && top_n.entries@ == collected(*reader, initial_threshold, calls)
                &&& forall|best: Seq<(Score, DocId)>| #[trigger]
                    is_top(best, top_n.entries@, k as int) ==> is_top_k(
                        best,
                        weight.matches(*reader),
                        *reader,
                        weight.start_threshold(initial_threshold, *reader, k),
                        k as int,
                    )
            },
            Err(error) => weight.error(*reader) == Some(error),
        },
{
    let floor: Option<Score> = if initial_threshold > Score::MIN || reader.alive_bitset().is_some() {
        Some(initial_threshold)
    } else {
        None
    };
    let mut collector = TopKCollector {
        top_n: TopNComputer::new(k, floor),
        initial_threshold,
        threshold: initial_threshold,
        reader,
        log: Ghost(Seq::empty()),
    };
    let ghost setup = collector.setup();
    proof {
        assert(collector.top_n.entries@ =~= Seq::empty());
        assert(collector.inv());
        assert(collector.calls() =~= Seq::empty());
    }
    match weight.for_each_pruning(initial_threshold, reader, &mut collector, k) {
        Ok(_) => {
            proof {
                let calls = collector.log@;
                assert(new_calls(Seq::empty(), collector.calls()) =~= calls);
                assert(collector.setup() == setup);
                assert(is_collecting_run(
                    weight.matches(*reader),
                    *reader,
                    initial_threshold,
                    weight.start_threshold(initial_threshold, *reader, k),
                    k as int,
                    calls,
                ));
                assert forall|best: Seq<(Score, DocId)>| #[trigger]
                    is_top(best, collector.top_n.entries@, k as int) implies is_top_k(
                    best,
                    weight.matches(*reader),
                    *reader,
                    weight.start_threshold(initial_threshold, *reader, k),
                    k as int,
                ) by {
                    lemma_collected_top(
                        weight.matches(*reader),
                        *reader,
                        initial_threshold,
                        weight.start_threshold(initial_threshold, *reader, k),
                        k as int,
                        calls,
                        best,
                    );
                }
            }
            Ok(collector.top_n)
        },
        Err(error) => Err(error),
    }
}

/// Turns the collected documents of a segment into scored addresses, the best one first.
pub fn into_scored_addresses(
    top_n: TopNComputer<DocId>,
    segment_ord: u32,
) -> (results: Vec<(Score, DocAddress)>)
    requires
        top_n.wf(),
    ensures
        exists|best: Seq<(Score, DocId)>|
            results@ == #[trigger] addressed(best, segment_ord) && is_top(
                best,
                top_n.entries@,
                top_n.top_n as int,
            ),
{
    let best: Vec<(Score, DocId)> = top_n.into_vec();
    let mut results: Vec<(Score, DocAddress)> = Vec::new();
    let mut i: usize = 0;
    while i < best.len()
        invariant
            i <= best@.len(),
            results@ =~= addressed(best@, segment_ord).take(i as int),
        decreases best@.len() - i,
    {
        results.push((best[i].0, DocAddress::new(segment_ord, best[i].1)));
        i = i + 1;
    }
    proof {
        assert(results@ =~= addressed(best@, segment_ord));
    }
    results
}

/// Sort by similarity score.
#[derive(Clone, Copy, Debug)]
pub struct SortBySimilarityScore;

impl SortBySimilarityScore {
    /// Sorting by score needs scores.
    pub fn requires_scoring(&self) -> (required: bool)
        ensures
            required,
    {
        true
    }

    /// The computer for the documents of one segment.
    pub fn segment_sort_key_computer<E>(
        &self,
        _segment_reader: &SegmentReader,
    ) -> (child: Result<SortBySimilarityScore, E>)
        ensures
            child == Ok::<SortBySimilarityScore, E>(SortBySimilarityScore),
    {
        Ok(SortBySimilarityScore)
    }

    /// Collects the best `k` documents of a segment.
    ///
    /// Sorting by score is special in that documents that cannot be among the best are skipped.
    pub fn collect_segment_top_k<W: Weight>(
        &self,
        k: usize,
        weight: &W,
        reader: &SegmentReader,
        segment_ord: u32,
    ) -> (result: Result<Vec<(Score, DocAddress)>, W::Error>)
        requires
            weight.ready(*reader),
        ensures
            match result {
                Ok(results) => {
                    &&& weight.error(*reader) is None
                    &&& is_segment_top_k(
                        results@,
                        weight.matches(*reader),
                        *reader,
                        weight.start_threshold(Score::MIN, *reader, k),
                        k as int,
                        segment_ord,
                    )
                    &&& exists|calls: Seq<Call>, best: Seq<(Score, DocId)>|
                        #![trigger addressed(best, segment_ord), collected(*reader, Score::MIN, calls)]
                        results@ == addressed(best, segment_ord) && is_top(
                            best,
                            collected(*reader, Score::MIN, calls),
                            k as int,
                        ) && is_collecting_run(
                            weight.matches(*reader),
                            *reader,
                            Score::MIN,
                            weight.start_threshold(Score::MIN, *reader, k),
                            k as int,
                            calls,
                        )
                },
                Err(error) => weight.error(*reader) == Some(error),
            },
    {
        match collect_top_k_scores(k, Score::MIN, weight, reader) {
            Ok(top_n) => Ok(into_scored_addresses(top_n, segment_ord)),
            Err(error) => Err(error),
        }
    }

    /// The sort key of a document within its segment: its score.
    pub fn segment_sort_key(&mut self, _doc: DocId, score: Score) -> (key: Score)
        ensures
            key == score,
            *final(self) == *old(self),
    {
        score
    }

    /// The sort key of a document: its score.
    pub fn convert_segment_sort_key(&self, score: Score) -> (key: Score)
        ensures
            key == score,
    {
        score
    }
}

/// The threshold that segments share: the `k`-th best score of all results so far, if it is
/// positive, and 0 otherwise.
pub open spec fn is_shared_threshold(
    entries: Seq<(Score, DocAddress)>,
    k: int,
    shared: Score,
) -> bool {
    if k > 0 && count_by(entries, scores_above(0)) >= k {
        shared > 0 && is_nth_score(entries, k, shared)
    } else {
        shared == 0
    }
}

/// [`SortBySimilarityScore`], with a threshold that segments share.
///
/// The results of all completed segments are accumulated, so that the shared threshold is the
/// global `k`-th best score rather than that of one segment. This gives later segments a tighter
/// bound. A shared threshold of 0 means that there is none yet.
pub struct SortBySimilarityScoreWithThreshold {
    pub shared_threshold: Score,
    pub global_top_n: TopNComputer<DocAddress>,
}

/// The best `k` documents of a segment were collected, starting from `start`, and merged: that made
/// `after` of `before`.
pub open spec fn collects_segment(
    before: SortBySimilarityScoreWithThreshold,
    after: SortBySimilarityScoreWithThreshold,
    results: Seq<(Score, DocAddress)>,
    docs: Map<DocId, int>,
    reader: SegmentReader,
    start: Score,
    k: int,
    segment_ord: u32,
) -> bool {
    &&& after.wf()
    &&& after.global_top_n.top_n == before.global_top_n.top_n
    &&& after.entries() == before.entries() + results
    &&& after.shared_threshold >= before.shared_threshold
    &&& is_segment_top_k(results, docs, reader, start, k, segment_ord)
}

impl SortBySimilarityScoreWithThreshold {
    /// The results of all completed segments.
    pub open spec fn entries(self) -> Seq<(Score, DocAddress)> {
        self.global_top_n.entries@
    }

    pub open spec fn wf(self) -> bool {
        &&& self.global_top_n.wf()
        &&& self.global_top_n.floor@ is None
        &&& is_shared_threshold(
            self.entries(),
            self.global_top_n.top_n as int,
            self.shared_threshold,
        )
    }

    /// The threshold that the next segment starts with.
    pub open spec fn spec_initial_threshold(&self) -> Score {
        if self.shared_threshold > 0 {
            self.shared_threshold
        } else {
            Score::MIN
        }
    }

    /// Collects without results and without a threshold.
    pub fn new(k: usize) -> (computer: SortBySimilarityScoreWithThreshold)
        ensures
            computer.wf(),
            computer.entries().len() == 0,
            computer.global_top_n.top_n == k,
            computer.shared_threshold == 0,
    {
        let computer = SortBySimilarityScoreWithThreshold {
            shared_threshold: 0,
            global_top_n: TopNComputer::new(k, None),
        };
        proof {
            lemma_count_bounds(computer.entries(), scores_above(0));
        }
        computer
    }

    /// Sorting by score needs scores.
    pub fn requires_scoring(&self) -> (required: bool)
        ensures
            required,
    {
        true
    }

    /// The computer for the documents of one segment.
    pub fn segment_sort_key_computer<E>(
        &self,
        _segment_reader: &SegmentReader,
    ) -> (child: Result<SortBySimilarityScore, E>)
        ensures
            child == Ok::<SortBySimilarityScore, E>(SortBySimilarityScore),
    {
        Ok(SortBySimilarityScore)
    }

    /// The threshold that the next segment starts with: none until one is shared.
    #[verifier::when_used_as_spec(spec_initial_threshold)]
    pub fn initial_threshold(&self) -> (threshold: Score)
        ensures
            threshold == self.spec_initial_threshold(),
    {
        if self.shared_threshold > 0 {
            self.shared_threshold
        } else {
            Score::MIN
        }
    }

    /// Takes in the results of a segment, and raises the shared threshold to the global `k`-th
    /// best score.
    pub fn merge(&mut self, results: &Vec<(Score, DocAddress)>)
        requires
            old(self).wf(),
        ensures
            final(self).wf(),
            final(self).global_top_n.top_n == old(self).global_top_n.top_n,
            final(self).entries() == old(self).entries() + results@,
            final(self).shared_threshold >= old(self).shared_threshold,
    {
        let ghost before = self.entries();
        let ghost k = self.global_top_n.top_n as int;
        let mut i: usize = 0;
        proof {
            assert(before + results@.take(0) =~= before);
        }
        while i < results.len()
            invariant
                i <= results@.len(),
                self.global_top_n.wf(),
                self.global_top_n.floor@ is None,
                self.global_top_n.top_n == k,
                self.shared_threshold == old(self).shared_threshold,
                self.entries() == before + results@.take(i as int),
            decreases results@.len() - i,
        {
            let entry: (Score, DocAddress) = results[i];
            self.global_top_n.push(entry.0, entry.1);
            proof {
                assert(before + results@.take(i + 1) =~= (before + results@.take(i as int)).push(
                    entry,
                ));
            }
            i = i + 1;
        }
        proof {
            assert(results@.take(i as int) =~= results@);
        }
        self.global_top_n.ensure_threshold();
        proof {
            self.global_top_n.lemma_sizes();
            lemma_shared_rises(
                before,
                results@,
                self.global_top_n,
                k,
                self.shared_threshold,
            );
        }
        if let Some(global_threshold) = self.global_top_n.threshold {
            if global_threshold > 0 {
                if global_threshold > self.shared_threshold {
                    self.shared_threshold = global_threshold;
                }
            }
        }
    }

    /// Collects the best `k` documents of a segment, starting from the shared threshold, and
    /// merges them into the results.
    pub fn collect_segment_top_k<W: Weight>(
        &mut self,
        k: usize,
        weight: &W,
        reader: &SegmentReader,
        segment_ord: u32,
    ) -> (result: Result<Vec<(Score, DocAddress)>, W::Error>)
        requires
            old(self).wf(),
            weight.ready(*reader),
        ensures
            final(self).wf(),
            final(self).global_top_n.top_n == old(self).global_top_n.top_n,
            match result {
                Ok(results) => {
                    &&& weight.error(*reader) is None
                    &&& collects_segment(
                        *old(self),
                        *final(self),
                        results@,
                        weight.matches(*reader),
                        *reader,
                        weight.start_threshold(old(self).initial_threshold(), *reader, k),
                        k as int,
                        segment_ord,
                    )
                    &&& exists|calls: Seq<Call>, best: Seq<(Score, DocId)>|
                        #![trigger addressed(best, segment_ord), collected(*reader, old(self).initial_threshold(), calls)]
                        results@ == addressed(best, segment_ord) && is_top(
                            best,
                            collected(*reader, old(self).initial_threshold(), calls),
                            k as int,
                        ) && is_collecting_run(
                            weight.matches(*reader),
                            *reader,
                            old(self).initial_threshold(),
                            weight.start_threshold(old(self).initial_threshold(), *reader, k),
                            k as int,
                            calls,
                        )
                },
                Err(error) => {
                    &&& weight.error(*reader) == Some(error)
                    &&& *final(self) == *old(self)
                },
            },
    {
        let threshold: Score = self.initial_threshold();
        match collect_top_k_scores(k, threshold, weight, reader) {
            Ok(top_n) => {
                let results: Vec<(Score, DocAddress)> = into_scored_addresses(top_n, segment_ord);
                self.merge(&results);
                Ok(results)
            },
            Err(error) => Err(error),
        }
    }
}

/// More results do not lower the `k`-th best score.
proof fn lemma_shared_rises(
    before: Seq<(Score, DocAddress)>,
    results: Seq<(Score, DocAddress)>,
    global: TopNComputer<DocAddress>,
    k: int,
    shared: Score,
)
    requires
        is_shared_threshold(before, k, shared),
        global.wf(),
        global.floor@ is None,
        global.top_n == k,
        global.entries@ == before + results,
        0 < k <= global.entries@.len() ==> global.threshold is Some && is_nth_score(
            global.entries@,
            k,
            global.threshold->0,
        ),
    ensures
        match global.threshold {
            Some(t) => if t > 0 {
                shared <= t && is_shared_threshold(global.entries@, k, t)
            } else {
                is_shared_threshold(global.entries@, k, shared)
            },
            None => is_shared_threshold(global.entries@, k, shared),
        },
{
    let after = global.entries@;
    let above = scores_above::<DocAddress>(0);
    global.lemma_sizes();
    lemma_count_bounds(after, above);
    lemma_count_bounds(global.buffer@, scores_from(global.threshold->0));
    lemma_sum_append(before, results, indicator(above));
    lemma_count_bounds(results, above);
    if shared > 0 {
        let from = scores_from::<DocAddress>(shared);
        lemma_sum_append(before, results, indicator(from));
        lemma_count_bounds(results, from);
        lemma_count_implied(after, from, above);
    }
    if global.threshold is Some {
        let t = global.threshold->0;
        let beyond = scores_above::<DocAddress>(t);
        if shared > t {
            lemma_count_implied(after, scores_from(shared), beyond);
        }
        if t > 0 {
            lemma_count_implied(after, scores_from(t), above);
        } else {
            lemma_count_implied(after, above, beyond);
        }
    }
}

/// A result scores at least `score`.
pub open spec fn reaches(score: int) -> spec_fn((Score, DocAddress)) -> bool {
    |entry: (Score, DocAddress)| entry.0 >= score
}

/// Sharing the threshold loses nothing: a matching document that a segment leaves out scores no
/// more than `k` documents among the results of this segment and of the earlier ones.
pub proof fn law_shared_threshold_is_safe(
    earlier: Seq<(Score, DocAddress)>,
    shared: Score,
    results: Seq<(Score, DocAddress)>,
    docs: Map<DocId, int>,
    reader: SegmentReader,
    k: int,
    segment_ord: u32,
    d: DocId,
)
    requires
        is_shared_threshold(earlier, k, shared),
        is_segment_top_k(
            results,
            docs,
            reader,
            if shared > 0 {
                shared
            } else {
                Score::MIN
            },
            k,
            segment_ord,
        ),
        docs.contains_key(d),
        docs[d] > Score::MIN,
        reader.is_alive(d),
        forall|i: int| 0 <= i < results.len() ==> (#[trigger] results[i]).1.doc_id != d,
    ensures
        count_by(earlier + results, reaches(docs[d])) >= k,
{
    let p = reaches(docs[d]);
    let local = choose|local: Seq<(Score, DocId)>|
        results == #[trigger] addressed(local, segment_ord) && is_top_k(
            local,
            docs,
            reader,
            if shared > 0 {
                shared
            } else {
                Score::MIN
            },
            k,
        );
    lemma_sum_append(earlier, results, indicator(p));
    lemma_count_bounds(earlier, p);
    lemma_count_bounds(results, p);
    if shared > 0 && docs[d] <= shared {
        lemma_count_implied(earlier, scores_from(shared), p);
    } else {
        if found(local, d) {
            let i = choose|i: int| 0 <= i < local.len() && (#[trigger] local[i]).1 == d;
            assert(results[i].1.doc_id == d);
        }
        assert(all_come_first(local, k, docs[d], d));
        assert forall|i: int| 0 <= i < results.len() implies p(#[trigger] results[i]) by {
            assert(results[i].0 == local[i].0);
        }
        lemma_count_all(results, p);
    }
}

/// One result list cannot hold a document that the other one lacks.
proof fn lemma_no_other_result(
    a: Seq<(Score, DocId)>,
    b: Seq<(Score, DocId)>,
    docs: Map<DocId, int>,
    reader: SegmentReader,
    start: Score,
    k: int,
    i: int,
)
    requires
        is_top_k(a, docs, reader, start, k),
        is_top_k(b, docs, reader, start, k),
        forall|d: DocId| #[trigger] docs.contains_key(d) ==> docs[d] > start,
        0 <= i < a.len(),
    ensures
        b.contains(a[i]),
{
    let x = a[i].1;
    if found(b, x) {
        let j = choose|j: int| 0 <= j < b.len() && (#[trigger] b[j]).1 == x;
        assert(b[j] == a[i]);
    } else {
        assert(docs.contains_key(x));
        assert(all_come_first(b, k, docs[x], x));
        assert(a.no_duplicates());
        assert(b.no_duplicates());
        a.unique_seq_to_set();
        b.unique_seq_to_set();
        if forall|j: int| 0 <= j < b.len() ==> a.contains(#[trigger] b[j]) {
            assert(b.to_set().subset_of(a.to_set()));
            vstd::set_lib::lemma_len_subset(b.to_set(), a.to_set());
            vstd::set_lib::lemma_subset_equality(b.to_set(), a.to_set());
            assert(a.to_set().contains(a[i]));
            assert(b.contains(a[i]));
        }
        let j = choose|j: int| 0 <= j < b.len() && !a.contains(#[trigger] b[j]);
        let y = b[j].1;
        if found(a, y) {
            let m = choose|m: int| 0 <= m < a.len() && (#[trigger] a[m]).1 == y;
            assert(a[m] == b[j]);
        }
        assert(docs.contains_key(y));
        assert(all_come_first(a, k, docs[y], y));
        assert(comes_first(a[i].0, a[i].1, docs[y], y));
        assert(comes_first(b[j].0, b[j].1, docs[x], x));
    }
}

/// The best `k` documents are determined: any two result lists for the same documents are equal,
/// so a pruned run gives what an exhaustive scan gives.
pub proof fn law_top_k_unique(
    a: Seq<(Score, DocId)>,
    b: Seq<(Score, DocId)>,
    docs: Map<DocId, int>,
    reader: SegmentReader,
    start: Score,
    k: int,
)
    requires
        is_top_k(a, docs, reader, start, k),
        is_top_k(b, docs, reader, start, k),
        forall|d: DocId| #[trigger] docs.contains_key(d) ==> docs[d] > start,
    ensures
        a == b,
{
    lemma_ranked_prefix(a, b, docs, reader, start, k, a.len() as int);
    lemma_ranked_prefix(b, a, docs, reader, start, k, b.len() as int);
    assert(a.take(a.len() as int) =~= a);
    assert(b.take(b.len() as int) =~= b);
}

proof fn lemma_ranked_prefix(
    a: Seq<(Score, DocId)>,
    b: Seq<(Score, DocId)>,
    docs: Map<DocId, int>,
    reader: SegmentReader,
    start: Score,
    k: int,
    n: int,
)
    requires
        is_top_k(a, docs, reader, start, k),
        is_top_k(b, docs, reader, start, k),
        forall|d: DocId| #[trigger] docs.contains_key(d) ==> docs[d] > start,
        0 <= n <= a.len(),
    ensures
        n <= b.len(),
        a.take(n) == b.take(n),
    decreases n,
{
    if n > 0 {
        let i = n - 1;
        lemma_ranked_prefix(a, b, docs, reader, start, k, i);
        assert forall|m: int| 0 <= m < i implies a[m] == b[m] by {
            assert(a.take(i)[m] == b.take(i)[m]);
        }
        lemma_no_other_result(a, b, docs, reader, start, k, i);
        let j = choose|j: int| 0 <= j < b.len() && b[j] == a[i];
        if j < i {
            assert(a[j] == a[i]);
            assert(comes_first(a[j].0, a[j].1, a[i].0 as int, a[i].1));
        }
        if j > i {
            lemma_no_other_result(b, a, docs, reader, start, k, i);
            let m = choose|m: int| 0 <= m < a.len() && a[m] == b[i];
            if m < i {
                assert(b[m] == b[i]);
                assert(comes_first(b[m].0, b[m].1, b[i].0 as int, b[i].1));
            }
            assert(comes_first(b[i].0, b[i].1, b[j].0 as int, b[j].1));
            if m > i {
                assert(comes_first(a[i].0, a[i].1, a[m].0 as int, a[m].1));
            }
        }
        assert(a.take(n) =~= b.take(n));
    }
}

} // verus!
