//! Block-max pruning on a single term.
use vstd::prelude::*;

use crate::pruning::{
    ascending_calls, continues, exhaustive_run_reaching, in_gap, new_calls, scored_docs, term_score,
    threshold_before, Call, ScoreCallback,
};
use crate::sums::lemma_sum_push;
use crate::term_scorer::{BLOCK_LEN, TermScorer};
use crate::types::{DocId, Score, TERMINATED};

verus! {

/// The documents below `upto` have been scanned, and the calls are those that they call for.
spec fn scanned(docs: Map<DocId, int>, start: Score, calls: Seq<Call>, upto: DocId) -> bool {
    &&& ascending_calls(calls)
    &&& forall|i: int|
        0 <= i < calls.len() ==> {
            let c = #[trigger] calls[i];
            &&& c.doc < upto
            &&& docs.contains_key(c.doc)
            &&& c.score == docs[c.doc]
            &&& c.score >= threshold_before(start, calls, i)
        }
    &&& forall|i: int, d: DocId| #[trigger]
        in_gap(calls, i, d) && d < upto && docs.contains_key(d) ==> docs[d] < threshold_before(
            start,
            calls,
            i,
        )
}

/// Scanning on over documents that are below the threshold.
proof fn lemma_scan_past(
    docs: Map<DocId, int>,
    start: Score,
    calls: Seq<Call>,
    upto: DocId,
    upto2: DocId,
)
    requires
        scanned(docs, start, calls, upto),
        upto <= upto2,
        forall|d: DocId| #[trigger]
            docs.contains_key(d) && upto <= d < upto2 ==> docs[d] < threshold_before(
                start,
                calls,
                calls.len() as int,
            ),
    ensures
        scanned(docs, start, calls, upto2),
{
    assert forall|i: int, d: DocId| #[trigger]
        in_gap(calls, i, d) && d < upto2 && docs.contains_key(d) implies docs[d]
        < threshold_before(start, calls, i) by {
        if d >= upto && i < calls.len() {
            assert(calls[i].doc < upto);
        }
    }
}

/// Scanning on over a document that calls.
proof fn lemma_scan_call(
    docs: Map<DocId, int>,
    start: Score,
    calls: Seq<Call>,
    c: Call,
)
    requires
        scanned(docs, start, calls, c.doc),
        docs.contains_key(c.doc),
        c.score == docs[c.doc],
        c.score >= threshold_before(start, calls, calls.len() as int),
        c.doc < DocId::MAX,
    ensures
        scanned(docs, start, calls.push(c), (c.doc + 1) as DocId),
{
    let calls2 = calls.push(c);
    let len = calls.len() as int;
    assert forall|i: int| 0 <= i <= len implies threshold_before(start, calls2, i)
        == #[trigger] threshold_before(start, calls, i) by {
        if i > 0 {
            assert(calls2[i - 1] == calls[i - 1]);
        }
    }
    assert forall|i: int, j: int| 0 <= i < j < calls2.len() implies (#[trigger] calls2[i]).doc < (
    #[trigger] calls2[j]).doc by {
        assert(calls2[i] == calls[i]);
        if j < len {
            assert(calls2[j] == calls[j]);
        }
    }
    assert forall|i: int| 0 <= i < calls2.len() implies {
        let c2 = #[trigger] calls2[i];
        &&& c2.doc < c.doc + 1
        &&& docs.contains_key(c2.doc)
        &&& c2.score == docs[c2.doc]
        &&& c2.score >= threshold_before(start, calls2, i)
    } by {
        assert(threshold_before(start, calls2, i) == threshold_before(start, calls, i));
        if i < len {
            assert(calls2[i] == calls[i]);
        }
    }
    assert forall|i: int, d: DocId| #[trigger]
        in_gap(calls2, i, d) && d < c.doc + 1 && docs.contains_key(d) implies docs[d]
        < threshold_before(start, calls2, i) by {
        if i == calls2.len() {
            assert(calls2[i - 1] == c);
        } else {
            assert(threshold_before(start, calls2, i) == threshold_before(start, calls, i));
            if i > 0 {
                assert(calls2[i - 1] == calls[i - 1]);
            }
            if i < len {
                assert(calls2[i] == calls[i]);
            } else {
                assert(calls2[i] == c);
            }
            assert(in_gap(calls, i, d));
        }
    }
}

/// From `doc` on, the scorer still meets what it met at the start.
spec fn untouched_from(docs: Map<DocId, int>, scorer: TermScorer, doc: DocId) -> bool {
    forall|d: DocId|
        d >= doc ==> (#[trigger] docs.contains_key(d) <==> scorer.matches(d)) && (scorer.matches(d)
            ==> docs[d] == scorer.score_at(d))
}

proof fn lemma_single_docs(scorer: TermScorer)
    ensures
        untouched_from(scored_docs(seq![scorer]), scorer, 0),
{
    let s = seq![scorer];
    let docs = scored_docs(s);
    assert forall|d: DocId| d >= 0 implies (#[trigger] docs.contains_key(d) <==> scorer.matches(d))
        && (scorer.matches(d) ==> docs[d] == scorer.score_at(d)) by {
        if scorer.matches(d) {
            assert(s[0].matches(d));
        }
        assert(Seq::empty().push(scorer) =~= s);
        lemma_sum_push(Seq::empty(), scorer, term_score(d));
    }
}

/// Specialized version of `block_wand` for a single scorer.
///
/// - While the end of the list is not reached:
///   - While the bound of the block is under the threshold, go to the next block.
///   - On a block, advance until the end and call `callback` when the score of the document is
///     greater than the threshold or equal to it.
pub fn block_wand_single_scorer<C: ScoreCallback>(
    scorer: TermScorer,
    threshold: Score,
    callback: &mut C,
)
    requires
        scorer.wf(),
        scorer.is_loaded(),
        old(callback).inv(),
    ensures
        final(callback).inv(),
        final(callback).setup() == old(callback).setup(),
        continues(old(callback).calls(), final(callback).calls()),
        exhaustive_run_reaching(
            scored_docs(seq![scorer]),
            threshold,
            new_calls(old(callback).calls(), final(callback).calls()),
        ),
{
    let ghost docs = scored_docs(seq![scorer]);
    let ghost history = callback.calls();
    let ghost mut calls: Seq<Call> = Seq::empty();
    let mut cursor = scorer;
    let mut limit: Score = threshold;
    let mut doc: DocId = cursor.doc();
    proof {
        lemma_single_docs(scorer);
        assert(untouched_from(docs, cursor, 0));
        assert(untouched_from(docs, cursor, doc));
        cursor.lemma_matches();
        lemma_last_doc_reaches(cursor);
        assert forall|d: DocId| #[trigger] docs.contains_key(d) implies doc <= d < TERMINATED by {}
        assert(callback.calls() =~= history + calls);
    }
    loop
        invariant
            callback.inv(),
            callback.setup() == old(callback).setup(),
            callback.calls() == history + calls,
            history == old(callback).calls(),
            cursor.wf(),
            doc <= TERMINATED,
            forall|d: DocId| #[trigger] docs.contains_key(d) ==> d < TERMINATED,
            untouched_from(docs, cursor, doc),
            scanned(docs, threshold, calls, doc),
            limit == threshold_before(threshold, calls, calls.len() as int),
            cursor.skipped_below(doc),
            cursor.last_doc_in_block() >= doc,
            docs == scored_docs(seq![scorer]),
        ensures
            callback.inv(),
            callback.setup() == old(callback).setup(),
            callback.calls() == history + calls,
            scanned(docs, threshold, calls, TERMINATED),
        decreases TERMINATED - doc,
    {
        let ghost doc0 = doc;
        // Find a block that can reach the threshold.
        while cursor.block_max_score() < limit
            invariant
                callback.inv(),
                callback.setup() == old(callback).setup(),
                callback.calls() == history + calls,
                history == old(callback).calls(),
                cursor.wf(),
                doc0 <= doc <= TERMINATED,
                forall|d: DocId| #[trigger] docs.contains_key(d) ==> d < TERMINATED,
                untouched_from(docs, cursor, doc),
                scanned(docs, threshold, calls, doc),
                limit == threshold_before(threshold, calls, calls.len() as int),
                cursor.skipped_below(doc),
                cursor.last_doc_in_block() >= doc,
                docs == scored_docs(seq![scorer]),
            decreases TERMINATED - doc,
        {
            let last_doc_in_block: DocId = cursor.last_doc_in_block();
            let ghost next = if last_doc_in_block == TERMINATED {
                TERMINATED
            } else {
                (last_doc_in_block + 1) as DocId
            };
            proof {
                lemma_last_doc_bounded(cursor);
                assert forall|d: DocId| #[trigger]
                    docs.contains_key(d) && doc <= d < next implies docs[d] < limit by {
                    cursor.lemma_block_bound(doc, d);
                }
                lemma_scan_past(docs, threshold, calls, doc, next);
            }
            if last_doc_in_block == TERMINATED {
                proof {
                    lemma_scan_done(docs, threshold, calls, history, callback.calls());
                }
                return ;
            }
            doc = last_doc_in_block + 1;
            cursor.seek_block(doc);
        }
        // This loads the block.
        let ghost doc1 = doc;
        let ghost scorer1 = cursor;
        doc = cursor.seek(doc);
        proof {
            cursor.lemma_matches();
            lemma_last_doc_reaches(cursor);
            lemma_seek_scans(docs, threshold, calls, scorer1, cursor, doc1, doc);
        }
        if doc == TERMINATED {
            break;
        }
        loop
            invariant_except_break
                scanned(docs, threshold, calls, doc),
            invariant
                callback.inv(),
                callback.setup() == old(callback).setup(),
                callback.calls() == history + calls,
                history == old(callback).calls(),
                cursor.wf(),
                cursor.is_loaded(),
                doc0 <= doc < TERMINATED,
                doc == cursor.doc(),
                forall|d: DocId| #[trigger] docs.contains_key(d) ==> d < TERMINATED,
                untouched_from(docs, cursor, doc),
                limit == threshold_before(threshold, calls, calls.len() as int),
                cursor.last_doc_in_block() >= doc,
                docs == scored_docs(seq![scorer]),
            ensures
                scanned(docs, threshold, calls, (doc + 1) as DocId),
                cursor.last_doc_in_block() == doc,
            decreases TERMINATED - doc,
        {
            let score: Score = cursor.score();
            proof {
                cursor.lemma_matches();
                assert(docs.contains_key(doc));
            }
            if score >= limit {
                let ghost calls1 = calls;
                limit = callback.call(doc, score);
                proof {
                    let c = Call { doc, score, threshold: limit };
                    calls = calls1.push(c);
                    assert(history + calls =~= (history + calls1).push(c));
                    lemma_scan_call(docs, threshold, calls1, c);
                }
            } else {
                proof {
                    lemma_scan_past(docs, threshold, calls, doc, (doc + 1) as DocId);
                }
            }
            if doc == cursor.last_doc_in_block() {
                break;
            }
            let ghost scorer2 = cursor;
            let ghost doc2 = doc;
            doc = cursor.advance();
            proof {
                cursor.lemma_matches();
                lemma_last_doc_reaches(cursor);
                lemma_seek_scans(docs, threshold, calls, scorer2, cursor, (doc2 + 1) as DocId, doc);
            }
            if doc == TERMINATED {
                proof {
                    lemma_scan_done(docs, threshold, calls, history, callback.calls());
                }
                return ;
            }
        }
        doc = doc + 1;
        proof {
            assert(untouched_from(docs, cursor, doc));
        }
        cursor.seek_block(doc);
    }
    proof {
        lemma_scan_done(docs, threshold, calls, history, callback.calls());
    }
}

/// After a move that passes nothing from `from` on, the scan is up to the new document.
proof fn lemma_seek_scans(
    docs: Map<DocId, int>,
    start: Score,
    calls: Seq<Call>,
    before: TermScorer,
    after: TermScorer,
    from: DocId,
    doc: DocId,
)
    requires
        scanned(docs, start, calls, from),
        untouched_from(docs, before, from),
        after.wf(),
        doc == after.doc(),
        doc >= from,
        forall|d: DocId| d >= from ==> (#[trigger] after.matches(d) <==> before.matches(d)),
        forall|d: DocId| d >= from ==> #[trigger] after.score_at(d) == before.score_at(d),
    ensures
        scanned(docs, start, calls, doc),
        untouched_from(docs, after, doc),
{
    after.lemma_matches();
    assert forall|d: DocId| #[trigger] docs.contains_key(d) && from <= d < doc implies docs[d]
        < threshold_before(start, calls, calls.len() as int) by {
        assert(after.matches(d) <==> before.matches(d));
    }
    lemma_scan_past(docs, start, calls, from, doc);
    assert forall|d: DocId| d >= doc implies (#[trigger] docs.contains_key(d) <==> after.matches(
        d,
    )) && (after.matches(d) ==> docs[d] == after.score_at(d)) by {
        assert(after.matches(d) <==> before.matches(d));
        assert(after.score_at(d) == before.score_at(d));
    }
}

/// The last document of the block that a scorer stands in is not before its document.
proof fn lemma_last_doc_reaches(scorer: TermScorer)
    requires
        scorer.wf(),
        scorer.is_loaded(),
    ensures
        scorer.last_doc_in_block() >= scorer.doc(),
        scorer.last_doc_in_block() <= TERMINATED,
        scorer.skipped_below(scorer.doc()),
{
    scorer.lemma_matches();
    let last = (scorer.block + 1) * BLOCK_LEN - 1;
    if last < scorer.list.docs@.len() && scorer.cursor < last {
        assert(scorer.list.docs@[scorer.cursor as int] < scorer.list.docs@[last]);
    }
}

proof fn lemma_last_doc_bounded(scorer: TermScorer)
    requires
        scorer.wf(),
    ensures
        scorer.last_doc_in_block() <= TERMINATED,
{
}

/// A scan of everything.
proof fn lemma_scan_done(
    docs: Map<DocId, int>,
    start: Score,
    calls: Seq<Call>,
    history: Seq<Call>,
    all: Seq<Call>,
)
    requires
        scanned(docs, start, calls, TERMINATED),
        forall|d: DocId| #[trigger] docs.contains_key(d) ==> d < TERMINATED,
        all == history + calls,
    ensures
        continues(history, all),
        exhaustive_run_reaching(docs, start, new_calls(history, all)),
{
    assert(new_calls(history, all) =~= calls);
}

} // verus!
