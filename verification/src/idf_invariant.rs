//! What holds between two steps of the pruning by weights.
use vstd::prelude::*;

use crate::idf_terms::{
    all_terms, disjoint_terms, distinct_terms, exhausted, hits, lemma_all_terms, lemma_hits_bounds,
    lemma_hits_stepped, lemma_joined_terms, lemma_missing_hit, lemma_parts, lemma_reparted,
    lemma_same_terms, lemma_unmet_hits, met, parts_of, stepped, valid_terms, weight, Term,
};
use crate::pruning::{
    all_ready, ascending_calls, exhaustive_run_rising, idf_scored_docs, in_gap, lemma_peak_prefix,
    peak, Call,
};
use crate::term_scorer::TermScorer;
use crate::types::{DocId, Score, TERMINATED};
use crate::wand_invariant::after_calls;

verus! {

/// As `exhaustive_run_rising`, but for the documents after the last call.
pub open spec fn settled_rising(docs: Map<DocId, int>, start: Score, calls: Seq<Call>) -> bool {
    &&& ascending_calls(calls)
    &&& forall|i: int|
        0 <= i < calls.len() ==> {
            let c = #[trigger] calls[i];
            &&& docs.contains_key(c.doc)
            &&& c.score == docs[c.doc]
            &&& c.score > peak(start, calls, i)
        }
    &&& forall|i: int, d: DocId| #[trigger]
        in_gap(calls, i, d) && i < calls.len() && docs.contains_key(d) ==> docs[d] <= peak(
            start,
            calls,
            i,
        )
}

/// No term has lost anything of `doc`.
pub open spec fn is_intact(
    docs: Map<DocId, int>,
    scorers: Seq<TermScorer>,
    a: Seq<Term>,
    b: Seq<Term>,
    doc: DocId,
) -> bool {
    &&& hits(scorers, a, doc) + hits(scorers, b, doc) == docs[doc]
    &&& met(scorers, a, doc) || met(scorers, b, doc)
}

/// The state of a loop over the terms `a` and `b`, without the exhausted terms `dropped`.
///
/// Every document after the last call is either out of reach of the threshold, or still intact.
#[verifier::opaque]
pub open spec fn idf_inv(
    docs: Map<DocId, int>,
    start: Score,
    calls: Seq<Call>,
    threshold: Score,
    scorers: Seq<TermScorer>,
    a: Seq<Term>,
    b: Seq<Term>,
    dropped: Seq<Term>,
) -> bool {
    &&& all_ready(scorers)
    &&& scorers.len() <= usize::MAX
    &&& parts_of(scorers, a, b, dropped)
    &&& weight(all_terms(scorers)) <= Score::MAX
    &&& threshold == peak(start, calls, calls.len() as int)
    &&& settled_rising(docs, start, calls)
    &&& forall|d: DocId| #[trigger] met(scorers, a, d) ==> docs.contains_key(d)
    &&& forall|d: DocId| #[trigger] met(scorers, b, d) ==> docs.contains_key(d)
    &&& forall|d: DocId| #[trigger]
        docs.contains_key(d) ==> hits(scorers, a, d) + hits(scorers, b, d) <= docs[d]
    &&& forall|d: DocId| #[trigger]
        docs.contains_key(d) && after_calls(calls, d) ==> docs[d] <= threshold || is_intact(
            docs,
            scorers,
            a,
            b,
            d,
        )
}

/// The documents after the calls and before `from` are out of reach.
pub open spec fn dismissed_below(
    docs: Map<DocId, int>,
    calls: Seq<Call>,
    threshold: Score,
    from: DocId,
) -> bool {
    forall|d: DocId| #[trigger]
        docs.contains_key(d) && after_calls(calls, d) && d < from ==> docs[d] <= threshold
}

/// Before the first document, nothing is lost.
pub proof fn lemma_idf_start(
    start: Score,
    scorers: Seq<TermScorer>,
    a: Seq<Term>,
    b: Seq<Term>,
)
    requires
        all_ready(scorers),
        scorers.len() <= usize::MAX,
        parts_of(scorers, a, b, Seq::empty()),
        weight(all_terms(scorers)) <= Score::MAX,
    ensures
        idf_inv(
            idf_scored_docs(scorers),
            start,
            Seq::empty(),
            start,
            scorers,
            a,
            b,
            Seq::empty(),
        ),
        forall|d: DocId| #[trigger] idf_scored_docs(scorers).contains_key(d) ==> d < TERMINATED,
{
    reveal(idf_inv);
    let docs = idf_scored_docs(scorers);
    let all = all_terms(scorers);
    let none: Seq<Term> = Seq::empty();
    assert(a + b + none =~= a + b);
    lemma_parts(scorers, a, b, none);
    lemma_all_terms(scorers);
    lemma_same_terms(scorers, a + b, all);
    lemma_joined_terms(scorers, a, b);
    assert forall|d: DocId| #[trigger] met(scorers, a, d) implies docs.contains_key(d) by {
        assert(met(scorers, a + b, d));
        assert(met(scorers, all, d));
    }
    assert forall|d: DocId| #[trigger] met(scorers, b, d) implies docs.contains_key(d) by {
        assert(met(scorers, a + b, d));
        assert(met(scorers, all, d));
    }
    assert forall|d: DocId| #[trigger] docs.contains_key(d) implies is_intact(
        docs,
        scorers,
        a,
        b,
        d,
    ) by {
        assert(met(scorers, all, d));
        assert(met(scorers, a + b, d));
        assert(hits(scorers, a + b, d) == hits(scorers, all, d));
    }
    assert forall|d: DocId| #[trigger] docs.contains_key(d) implies d < TERMINATED by {
        let i = choose|i: int| 0 <= i < scorers.len() && (#[trigger] scorers[i]).matches(d);
        scorers[i].lemma_matches();
    }
}

/// What the loops themselves need of their state.
pub proof fn lemma_idf_facts(
    docs: Map<DocId, int>,
    start: Score,
    calls: Seq<Call>,
    threshold: Score,
    scorers: Seq<TermScorer>,
    a: Seq<Term>,
    b: Seq<Term>,
    dropped: Seq<Term>,
)
    requires
        idf_inv(docs, start, calls, threshold, scorers, a, b, dropped),
    ensures
        all_ready(scorers),
        scorers.len() <= usize::MAX,
        parts_of(scorers, a, b, dropped),
        threshold == peak(start, calls, calls.len() as int),
        valid_terms(scorers, a),
        valid_terms(scorers, b),
        distinct_terms(a),
        distinct_terms(b),
        disjoint_terms(a, b),
        0 <= weight(a),
        0 <= weight(b),
        weight(a) + weight(b) <= weight(all_terms(scorers)) <= Score::MAX,
        a.len() + b.len() <= scorers.len(),
{
    reveal(idf_inv);
    lemma_parts(scorers, a, b, dropped);
}

/// Moving scorers over documents that are out of reach keeps the state.
pub proof fn lemma_idf_step(
    docs: Map<DocId, int>,
    start: Score,
    calls: Seq<Call>,
    threshold: Score,
    scorers: Seq<TermScorer>,
    a: Seq<Term>,
    b: Seq<Term>,
    dropped: Seq<Term>,
    from: DocId,
    scorers2: Seq<TermScorer>,
)
    requires
        idf_inv(docs, start, calls, threshold, scorers, a, b, dropped),
        dismissed_below(docs, calls, threshold, from),
        stepped(scorers, scorers2, from),
    ensures
        idf_inv(docs, start, calls, threshold, scorers2, a, b, dropped),
{
    reveal(idf_inv);
    lemma_parts(scorers, a, b, dropped);
    lemma_hits_stepped(scorers, scorers2, a, from);
    lemma_hits_stepped(scorers, scorers2, b, from);
    assert forall|d: DocId| #[trigger] docs.contains_key(d) implies hits(scorers2, a, d) + hits(
        scorers2,
        b,
        d,
    ) <= docs[d] by {
        assert(hits(scorers2, a, d) <= hits(scorers, a, d));
        assert(hits(scorers2, b, d) <= hits(scorers, b, d));
    }
    assert forall|d: DocId| #[trigger] met(scorers2, a, d) implies docs.contains_key(d) by {
        assert(met(scorers, a, d));
    }
    assert forall|d: DocId| #[trigger] met(scorers2, b, d) implies docs.contains_key(d) by {
        assert(met(scorers, b, d));
    }
    assert forall|d: DocId| #[trigger]
        docs.contains_key(d) && after_calls(calls, d) implies docs[d] <= threshold || is_intact(
        docs,
        scorers2,
        a,
        b,
        d,
    ) by {
        if d >= from {
            assert(hits(scorers2, a, d) == hits(scorers, a, d));
            assert(hits(scorers2, b, d) == hits(scorers, b, d));
            assert(met(scorers2, a, d) == met(scorers, a, d));
            assert(met(scorers2, b, d) == met(scorers, b, d));
        }
    }
}

/// Visiting `doc`: it is scored, handed over if it exceeds the threshold, and left behind.
pub proof fn lemma_idf_visit(
    docs: Map<DocId, int>,
    start: Score,
    calls: Seq<Call>,
    threshold: Score,
    scorers: Seq<TermScorer>,
    a: Seq<Term>,
    b: Seq<Term>,
    dropped: Seq<Term>,
    doc: DocId,
    score: Score,
    calls2: Seq<Call>,
    answer: Score,
    threshold2: Score,
)
    requires
        idf_inv(docs, start, calls, threshold, scorers, a, b, dropped),
        dismissed_below(docs, calls, threshold, doc),
        met(scorers, a, doc),
        after_calls(calls, doc),
        score <= hits(scorers, a, doc) + hits(scorers, b, doc),
        hits(scorers, a, doc) + hits(scorers, b, doc) > threshold ==> score == hits(
            scorers,
            a,
            doc,
        ) + hits(scorers, b, doc),
        score > threshold ==> calls2 == calls.push((Call { doc, score, threshold: answer })),
        score > threshold ==> threshold2 == (if answer > threshold {
            answer
        } else {
            threshold
        }),
        score <= threshold ==> calls2 == calls && threshold2 == threshold,
    ensures
        idf_inv(docs, start, calls2, threshold2, scorers, a, b, dropped),
        threshold2 >= threshold,
        forall|d: DocId| #[trigger]
            docs.contains_key(d) && after_calls(calls2, d) && d <= doc ==> docs[d] <= threshold2,
{
    reveal(idf_inv);
    let len = calls.len() as int;
    assert(docs.contains_key(doc));
    assert(docs[doc] <= threshold || is_intact(docs, scorers, a, b, doc));
    if score > threshold {
        assert forall|i: int| 0 <= i <= len implies #[trigger] peak(start, calls2, i) == peak(
            start,
            calls,
            i,
        ) by {
            lemma_peak_prefix(start, calls, calls2, i);
        }
        assert(peak(start, calls2, len) == threshold);
        assert(calls2[len].threshold == answer);
        assert(peak(start, calls2, len + 1) == threshold2);
        assert forall|i: int| 0 <= i < calls2.len() implies {
            let c = #[trigger] calls2[i];
            &&& docs.contains_key(c.doc)
            &&& c.score == docs[c.doc]
            &&& c.score > peak(start, calls2, i)
        } by {
            assert(peak(start, calls2, i) == peak(start, calls, i));
            if i < len {
                assert(calls2[i] == calls[i]);
            }
        }
        assert forall|i: int, j: int| 0 <= i < j < calls2.len() implies (#[trigger] calls2[i]).doc
            < (#[trigger] calls2[j]).doc by {
            if j == len {
                if i < len - 1 {
                    assert(calls[i].doc < calls[len - 1].doc);
                }
            } else {
                assert(calls2[i] == calls[i] && calls2[j] == calls[j]);
            }
        }
        assert forall|i: int, d: DocId| #[trigger]
            in_gap(calls2, i, d) && i < calls2.len() && docs.contains_key(d) implies docs[d]
            <= peak(start, calls2, i) by {
            assert(peak(start, calls2, i) == peak(start, calls, i));
            if i > 0 {
                assert(calls2[i - 1] == calls[i - 1]);
            }
            if i < len {
                assert(calls2[i] == calls[i]);
                assert(in_gap(calls, i, d));
            } else {
                assert(after_calls(calls, d));
            }
        }
        assert(settled_rising(docs, start, calls2));
    }
    assert forall|d: DocId| #[trigger]
        docs.contains_key(d) && after_calls(calls2, d) implies docs[d] <= threshold2 || is_intact(
        docs,
        scorers,
        a,
        b,
        d,
    ) by {
        assert(after_calls(calls, d));
    }
}

/// Moving terms between the lists, and dropping exhausted ones, keeps the state.
pub proof fn lemma_idf_reparted(
    docs: Map<DocId, int>,
    start: Score,
    calls: Seq<Call>,
    threshold: Score,
    scorers: Seq<TermScorer>,
    a: Seq<Term>,
    b: Seq<Term>,
    dropped: Seq<Term>,
    a2: Seq<Term>,
    b2: Seq<Term>,
    newly: Seq<Term>,
)
    requires
        idf_inv(docs, start, calls, threshold, scorers, a, b, dropped),
        a2.to_multiset().add(b2.to_multiset()).add(newly.to_multiset()) == a.to_multiset().add(
            b.to_multiset(),
        ),
        exhausted(scorers, newly),
    ensures
        idf_inv(docs, start, calls, threshold, scorers, a2, b2, dropped + newly),
{
    reveal(idf_inv);
    lemma_reparted(scorers, a, b, dropped, a2, b2, newly);
    assert forall|d: DocId| #[trigger] met(scorers, a2, d) implies docs.contains_key(d) by {
        assert(met(scorers, a, d) || met(scorers, b, d));
    }
    assert forall|d: DocId| #[trigger] met(scorers, b2, d) implies docs.contains_key(d) by {
        assert(met(scorers, a, d) || met(scorers, b, d));
    }
    assert forall|d: DocId| #[trigger] docs.contains_key(d) implies hits(scorers, a2, d) + hits(
        scorers,
        b2,
        d,
    ) <= docs[d] by {
        assert(hits(scorers, a, d) + hits(scorers, b, d) <= docs[d]);
    }
    assert forall|d: DocId| #[trigger]
        docs.contains_key(d) && after_calls(calls, d) implies docs[d] <= threshold || is_intact(
        docs,
        scorers,
        a2,
        b2,
        d,
    ) by {
        assert(hits(scorers, a2, d) + hits(scorers, b2, d) == hits(scorers, a, d) + hits(
            scorers,
            b,
            d,
        ));
        assert((met(scorers, a2, d) || met(scorers, b2, d)) == (met(scorers, a, d) || met(
            scorers,
            b,
            d,
        )));
    }
}

/// A document without an absolutely essential term is out of reach.
pub proof fn lemma_absent_term(
    docs: Map<DocId, int>,
    start: Score,
    calls: Seq<Call>,
    threshold: Score,
    scorers: Seq<TermScorer>,
    a: Seq<Term>,
    b: Seq<Term>,
    dropped: Seq<Term>,
    k: int,
    doc: DocId,
)
    requires
        idf_inv(docs, start, calls, threshold, scorers, a, b, dropped),
        0 <= k < a.len(),
        a[k].idf > weight(all_terms(scorers)) - threshold,
        !scorers[a[k].index as int].matches(doc),
        docs.contains_key(doc),
        after_calls(calls, doc),
    ensures
        docs[doc] <= threshold,
{
    reveal(idf_inv);
    lemma_parts(scorers, a, b, dropped);
    lemma_missing_hit(scorers, a, k, doc);
    lemma_hits_bounds(scorers, b, doc);
}

/// A document that no term of `a` meets gets at most the weight of `b`.
pub proof fn lemma_outside(
    docs: Map<DocId, int>,
    start: Score,
    calls: Seq<Call>,
    threshold: Score,
    scorers: Seq<TermScorer>,
    a: Seq<Term>,
    b: Seq<Term>,
    dropped: Seq<Term>,
    bound: int,
    doc: DocId,
)
    requires
        idf_inv(docs, start, calls, threshold, scorers, a, b, dropped),
        docs.contains_key(doc),
        after_calls(calls, doc),
        hits(scorers, a, doc) <= bound,
        bound + weight(b) <= threshold || (!met(scorers, a, doc) && (b.len() > 0 ==> weight(b)
            <= threshold)),
    ensures
        docs[doc] <= threshold,
{
    reveal(idf_inv);
    lemma_parts(scorers, a, b, dropped);
    lemma_hits_bounds(scorers, b, doc);
    if docs[doc] > threshold && !met(scorers, a, doc) {
        lemma_unmet_hits(scorers, a, doc);
        assert(met(scorers, b, doc));
    }
}

/// When nothing that is left can exceed the threshold, the calls are those of an exhaustive scan.
pub proof fn lemma_idf_ends(
    docs: Map<DocId, int>,
    start: Score,
    calls: Seq<Call>,
    threshold: Score,
    scorers: Seq<TermScorer>,
    a: Seq<Term>,
    b: Seq<Term>,
    dropped: Seq<Term>,
)
    requires
        idf_inv(docs, start, calls, threshold, scorers, a, b, dropped),
        forall|d: DocId| #[trigger]
            docs.contains_key(d) && after_calls(calls, d) ==> docs[d] <= threshold,
    ensures
        exhaustive_run_rising(docs, start, calls),
        threshold == peak(start, calls, calls.len() as int),
{
    reveal(idf_inv);
    assert forall|i: int, d: DocId| #[trigger]
        in_gap(calls, i, d) && docs.contains_key(d) implies docs[d] <= peak(start, calls, i) by {
        if i == calls.len() {
            assert(after_calls(calls, d));
        }
    }
}

} // verus!
