//! Which documents the prunings hand over, in plain terms.
//!
//! A run is what a consumer was called with between two states of its history. The laws of this
//! module hold runs against the postings of the terms: which documents have to be handed over, with
//! which scores, and which must not be.
use vstd::prelude::*;
use vstd::seq_lib::group_to_multiset_ensures;

use crate::block_wand::block_wand;
use crate::collect_laws::law_count_by;
use crate::idf_bootstrap::{
    best_frequent_idf, bootstrap_margin, lemma_best_frequent, starting_threshold,
};
use crate::idf_counts::{is_ranking, pruning_counts};
use crate::idf_lists::absolutely_essential;
use crate::idf_pruning::idf_pruning;
use crate::idf_ranks::{
    bottom_sum, idf_values, is_prefix_split, lemma_values_sum, top_sum, value_fn,
};
use crate::idf_stats::IdfPruningStats;
use crate::idf_steps::essential_count;
use crate::idf_terms::{all_terms, idf_fn, term_weight, weight, Term};
use crate::list_laws::{law_sum_of_values, law_sums_of_ranked, lemma_ranks, ranks};
use crate::plain_laws::{
    all_stand, earns, is_met, law_scored_docs, lemma_all_stand, lemma_stands, lemma_total, stands,
    total,
};
use crate::pruning::{
    exhaustive_run_rising, idf_scored_docs, in_gap, law_rising_run_is_pruned, lemma_peak_bounds,
    lemma_rising_peak, new_calls, peak, pruned_run, scored_docs, term_max_score, term_score,
    threshold_before, Call, ScoreCallback,
};
use crate::scorer_set::lemma_permutation_member;
use crate::single_scorer::block_wand_single_scorer;
use crate::sums::{indicator, lemma_sum_nonneg, lemma_sum_permutation, sum_by};
use crate::term_scorer::TermScorer;
use crate::types::{DocId, Score};

verus! {

/// The calls that a consumer got while its history went from `before` to `after`.
pub open spec fn extends_by(before: Seq<Call>, after: Seq<Call>, calls: Seq<Call>) -> bool {
    after == before + calls
}

/// Each document comes after the one before it.
pub open spec fn is_rising(calls: Seq<Call>) -> bool {
    forall|i: int, j: int|
        0 <= i < j < calls.len() ==> (#[trigger] calls[i]).doc < (#[trigger] calls[j]).doc
}

/// The threshold that call `i` was made under: the last answer, or `start`.
pub open spec fn in_force(start: Score, calls: Seq<Call>, i: int) -> Score {
    if i == 0 {
        start
    } else {
        calls[i - 1].threshold
    }
}

/// `score` exceeds `start` and all answers to documents before `doc`.
pub open spec fn stays_above(start: Score, calls: Seq<Call>, doc: DocId, score: int) -> bool {
    &&& score > start
    &&& forall|i: int|
        0 <= i < calls.len() && (#[trigger] calls[i]).doc < doc ==> calls[i].threshold < score
}

/// `doc` was handed over with `score`.
pub open spec fn is_called(calls: Seq<Call>, doc: DocId, score: int) -> bool {
    exists|i: int| 0 <= i < calls.len() && (#[trigger] calls[i]).doc == doc && calls[i].score == score
}

/// No answer is below the threshold that was in force.
pub open spec fn never_lowered(start: Score, calls: Seq<Call>) -> bool {
    forall|i: int|
        0 <= i < calls.len() ==> (#[trigger] calls[i]).threshold >= in_force(start, calls, i)
}

/// A document stands before the calls, between two of them, or behind them; or one is for it.
proof fn lemma_place(calls: Seq<Call>, doc: DocId, n: int) -> (i: int)
    requires
        is_rising(calls),
        0 <= n <= calls.len(),
        n < calls.len() ==> doc < calls[n].doc,
    ensures
        in_gap(calls, i, doc) || 0 <= i < calls.len() && calls[i].doc == doc,
    decreases n,
{
    if n == 0 || calls[n - 1].doc < doc {
        n
    } else if calls[n - 1].doc == doc {
        n - 1
    } else {
        lemma_place(calls, doc, n - 1)
    }
}

/// A score that exceeds `start` and all answers before call `i` exceeds the peak.
proof fn lemma_above_peak(start: Score, calls: Seq<Call>, i: int, score: int)
    requires
        0 <= i <= calls.len(),
        score > start,
        forall|j: int| 0 <= j < i ==> (#[trigger] calls[j]).threshold < score,
    ensures
        score > peak(start, calls, i),
    decreases i,
{
    if i > 0 {
        lemma_above_peak(start, calls, i - 1, score);
        assert(calls[i - 1].threshold < score);
    }
}

/// What stays above all thresholds is called for.
pub proof fn lemma_called(
    docs: Map<DocId, int>,
    start: Score,
    calls: Seq<Call>,
    doc: DocId,
)
    requires
        pruned_run(docs, start, calls),
        docs.contains_key(doc),
        stays_above(start, calls, doc, docs[doc]),
    ensures
        is_called(calls, doc, docs[doc]),
{
    let i = lemma_place(calls, doc, calls.len() as int);
    assert forall|j: int| 0 <= j < i && j < calls.len() implies (#[trigger] calls[j]).threshold
        < docs[doc] by {
        if in_gap(calls, i, doc) {
            if j < i - 1 {
                assert(calls[j].doc < calls[i - 1].doc);
            }
        } else {
            assert(calls[j].doc < calls[i].doc);
        }
    }
    lemma_above_peak(start, calls, i, docs[doc]);
    if in_gap(calls, i, doc) {
        assert(docs[doc] <= peak(start, calls, i));
    }
    assert(calls[i].doc == doc);
}

/// Pruning by bounds hands over, in ascending order, documents of the terms. Each comes with a
/// score above the threshold in force, and with no more than its terms give it. What exceeds the
/// first threshold and all answers before it is handed over, with all that its terms give it.
pub proof fn law_block_wand<'a, C: ScoreCallback>(
    scorers: Vec<TermScorer<'a>>,
    threshold: Score,
    callback: &mut C,
    calls: Seq<Call>,
)
    requires
        all_stand(scorers@),
        call_ensures(block_wand::<C>, (scorers, threshold, callback), ()),
        calls == final(callback).calls().skip(old(callback).calls().len() as int),
    ensures
        extends_by(old(callback).calls(), final(callback).calls(), calls),
        is_rising(calls),
        forall|i: int|
            0 <= i < calls.len() ==> is_met(scorers@, (#[trigger] calls[i]).doc) && calls[i].score
                > in_force(threshold, calls, i),
        forall|i: int, score: int|
            0 <= i < calls.len() && #[trigger] earns(
                scorers@,
                false,
                (#[trigger] calls[i]).doc,
                score,
            ) ==> calls[i].score <= score,
        forall|doc: DocId, score: int| #[trigger]
            earns(scorers@, false, doc, score) && stays_above(threshold, calls, doc, score)
                ==> is_called(calls, doc, score),
        never_lowered(threshold, calls) ==> forall|i: int|
            0 <= i < calls.len() ==> earns(
                scorers@,
                false,
                (#[trigger] calls[i]).doc,
                calls[i].score as int,
            ),
{
    let docs = scored_docs(scorers@);
    assert(pruned_run(docs, threshold, calls));
    assert forall|i: int| 0 <= i < calls.len() implies is_met(
        scorers@,
        (#[trigger] calls[i]).doc,
    ) && calls[i].score > in_force(threshold, calls, i) by {
        law_scored_docs(scorers@, calls[i].doc, 0);
        assert(calls[i].score > threshold_before(threshold, calls, i));
    }
    assert forall|i: int, score: int|
        0 <= i < calls.len() && #[trigger] earns(
            scorers@,
            false,
            (#[trigger] calls[i]).doc,
            score,
        ) implies calls[i].score <= score by {
        law_scored_docs(scorers@, calls[i].doc, score);
    }
    assert forall|doc: DocId, score: int| #[trigger]
        earns(scorers@, false, doc, score) && stays_above(
            threshold,
            calls,
            doc,
            score,
        ) implies is_called(calls, doc, score) by {
        law_scored_docs(scorers@, doc, score);
        lemma_called(docs, threshold, calls, doc);
    }
    if never_lowered(threshold, calls) {
        assert forall|i: int| 0 <= i < calls.len() implies earns(
            scorers@,
            false,
            (#[trigger] calls[i]).doc,
            calls[i].score as int,
        ) by {
            assert forall|j: int| 0 <= j < calls.len() implies (#[trigger] calls[j]).threshold
                >= threshold_before(threshold, calls, j) by {
                assert(calls[j].threshold >= in_force(threshold, calls, j));
            }
            lemma_rising_peak(threshold, calls, i);
            assert(calls[i].score > threshold_before(threshold, calls, i));
            law_scored_docs(scorers@, calls[i].doc, calls[i].score as int);
        }
    }
}

/// Pruning by bounds runs on any terms whose highest scores add up to a score.
pub proof fn law_block_wand_runs<'a, C: ScoreCallback>(
    scorers: Vec<TermScorer<'a>>,
    threshold: Score,
    callback: &mut C,
    highest: Seq<int>,
)
    requires
        all_stand(scorers@),
        highest.len() == scorers@.len(),
        forall|i: int|
            0 <= i < highest.len() ==> #[trigger] highest[i] == scorers@[i].list.max_score,
        total(highest) <= i64::MAX,
        old(callback).inv(),
    ensures
        call_requires(block_wand::<C>, (scorers, threshold, callback)),
{
    lemma_all_stand(scorers@);
    lemma_total(scorers@, term_max_score(), highest);
}

/// From the cursor on, the list has a posting of `doc` with `score`.
pub open spec fn stores(scorer: TermScorer, doc: DocId, score: Score) -> bool {
    exists|p: int|
        scorer.cursor <= p < scorer.list.docs@.len() && #[trigger] scorer.list.docs@[p] == doc
            && scorer.list.scores@[p] == score
}

/// The documents of one term are handed over in ascending order, each with the score that is
/// stored with it, exactly if that is not below the threshold in force.
pub proof fn law_single_scorer<'a, C: ScoreCallback>(
    scorer: TermScorer<'a>,
    threshold: Score,
    callback: &mut C,
    calls: Seq<Call>,
)
    requires
        stands(scorer),
        call_ensures(block_wand_single_scorer::<C>, (scorer, threshold, callback), ()),
        calls == final(callback).calls().skip(old(callback).calls().len() as int),
    ensures
        old(callback).inv() ==> call_requires(
            block_wand_single_scorer::<C>,
            (scorer, threshold, callback),
        ),
        extends_by(old(callback).calls(), final(callback).calls(), calls),
        is_rising(calls),
        forall|i: int|
            0 <= i < calls.len() ==> (#[trigger] calls[i]).score >= in_force(threshold, calls, i),
        forall|i: int|
            0 <= i < calls.len() ==> stores(scorer, (#[trigger] calls[i]).doc, calls[i].score),
        forall|p: int|
            scorer.cursor <= p < scorer.list.docs@.len() ==> is_called(
                calls,
                #[trigger] scorer.list.docs@[p],
                scorer.list.scores@[p] as int,
            ) || exists|i: int|
                0 <= i <= calls.len() && (i > 0 ==> calls[i - 1].doc < scorer.list.docs@[p]) && (i
                    < calls.len() ==> scorer.list.docs@[p] < calls[i].doc)
                    && scorer.list.scores@[p] < #[trigger] in_force(threshold, calls, i),
{
    lemma_stands(scorer);
    let docs = scored_docs(seq![scorer]);
    assert forall|p: int| scorer.cursor <= p < scorer.list.docs@.len() implies docs.contains_key(
        #[trigger] scorer.list.docs@[p],
    ) && docs[scorer.list.docs@[p]] == scorer.list.scores@[p] by {
        lemma_single_score(scorer, p);
    }
    assert forall|i: int| 0 <= i < calls.len() implies (#[trigger] calls[i]).score >= in_force(
        threshold,
        calls,
        i,
    ) by {
        assert(calls[i].score >= threshold_before(threshold, calls, i));
    }
    assert forall|i: int| 0 <= i < calls.len() implies stores(
        scorer,
        (#[trigger] calls[i]).doc,
        calls[i].score,
    ) by {
        assert(docs.contains_key(calls[i].doc));
        let s = seq![scorer];
        let j = choose|j: int| 0 <= j < s.len() && (#[trigger] s[j]).matches(calls[i].doc);
        assert(s[j] == scorer);
        let p = scorer.list.position(calls[i].doc);
        assert(scorer.list.docs@[p] == calls[i].doc);
        assert(docs[scorer.list.docs@[p]] == scorer.list.scores@[p]);
    }
    assert forall|p: int| scorer.cursor <= p < scorer.list.docs@.len() implies is_called(
        calls,
        #[trigger] scorer.list.docs@[p],
        scorer.list.scores@[p] as int,
    ) || exists|i: int|
        0 <= i <= calls.len() && (i > 0 ==> calls[i - 1].doc < scorer.list.docs@[p]) && (i
            < calls.len() ==> scorer.list.docs@[p] < calls[i].doc) && scorer.list.scores@[p]
            < #[trigger] in_force(threshold, calls, i) by {
        let doc = scorer.list.docs@[p];
        let i = lemma_place(calls, doc, calls.len() as int);
        if in_gap(calls, i, doc) {
            assert(docs[doc] < threshold_before(threshold, calls, i));
            assert(scorer.list.scores@[p] < in_force(threshold, calls, i));
        } else {
            assert(calls[i].doc == doc);
        }
    }
}

proof fn lemma_single_score(scorer: TermScorer, p: int)
    requires
        stands(scorer),
        scorer.cursor <= p < scorer.list.docs@.len(),
    ensures
        scored_docs(seq![scorer]).contains_key(scorer.list.docs@[p]),
        scored_docs(seq![scorer])[scorer.list.docs@[p]] == scorer.list.scores@[p],
{
    let s = seq![scorer];
    let doc = scorer.list.docs@[p];
    lemma_stands(scorer);
    scorer.list.lemma_position(p);
    assert(s[0].matches(doc));
    assert(s.drop_last() =~= Seq::empty());
    assert(sum_by(s.drop_last(), term_score(doc)) == 0);
    assert(s.last() == scorer);
}

/// `best` is the largest weight among the terms that at least `top_k` documents contain.
pub open spec fn is_best_frequent(scorers: Seq<TermScorer>, top_k: usize, best: Score) -> bool {
    &&& exists|i: int|
        0 <= i < scorers.len() && (#[trigger] scorers[i]).list.global_doc_freq >= top_k
            && scorers[i].list.idf_score == best
    &&& forall|i: int|
        0 <= i < scorers.len() && (#[trigger] scorers[i]).list.global_doc_freq >= top_k
            ==> scorers[i].list.idf_score <= best
}

/// `weights` are those of the terms, one by one.
pub open spec fn are_weights(scorers: Seq<TermScorer>, weights: Seq<int>) -> bool {
    &&& weights.len() == scorers.len()
    &&& forall|i: int|
        0 <= i < weights.len() ==> #[trigger] weights[i] == scorers[i].list.idf_score
}

/// A threshold that is given is kept, and so is a missing one unless a number of documents is asked
/// for and some term is in that many. Then the threshold falls short of the largest weight of such a
/// term by a millionth of the total weight, rounded up.
pub proof fn law_starting_threshold(
    scorers: Seq<TermScorer>,
    threshold: Score,
    top_k: usize,
    weights: Seq<int>,
    best: Score,
)
    requires
        all_stand(scorers),
        are_weights(scorers, weights),
        total(weights) <= i64::MAX,
    ensures
        threshold > i64::MIN ==> starting_threshold(scorers, threshold, top_k) == threshold,
        top_k == 0 ==> starting_threshold(scorers, threshold, top_k) == threshold,
        (forall|i: int|
            0 <= i < scorers.len() ==> (#[trigger] scorers[i]).list.global_doc_freq < top_k)
            ==> starting_threshold(scorers, threshold, top_k) == threshold,
        threshold == i64::MIN && top_k > 0 && is_best_frequent(scorers, top_k, best) ==> {
            let margin = best - starting_threshold(scorers, threshold, top_k);
            total(weights) <= 1_000_000 * margin < total(weights) + 1_000_000
        },
{
    lemma_all_stand(scorers);
    lemma_total(scorers, term_weight(), weights);
    lemma_best_frequent(scorers, top_k as int);
    assert forall|i: int| 0 <= i < scorers.len() implies 0 <= term_weight()(
        #[trigger] scorers[i],
    ) by {
        assert(scorers[i].wf());
    }
    lemma_sum_nonneg(scorers, term_weight());
    if top_k > 0 && is_best_frequent(scorers, top_k, best) {
        let i = choose|i: int|
            0 <= i < scorers.len() && (#[trigger] scorers[i]).list.global_doc_freq >= top_k
                && scorers[i].list.idf_score == best;
        assert(best <= best_frequent_idf(scorers, top_k as int));
        assert(scorers[i].wf());
        let j = choose|j: int|
            0 <= j < scorers.len() && (#[trigger] scorers[j]).list.global_doc_freq >= top_k
                && scorers[j].list.idf_score == best_frequent_idf(scorers, top_k as int);
        assert(scorers[j].list.idf_score <= best);
        let margin = bootstrap_margin(total(weights));
        assert(total(weights) <= 1_000_000 * margin < total(weights) + 1_000_000);
        assert(i64::MIN <= best - margin <= i64::MAX);
    }
}

/// A scan that never lowers its threshold hands over what stays above all of them.
pub proof fn lemma_rising_calls(docs: Map<DocId, int>, start: Score, calls: Seq<Call>)
    requires
        exhaustive_run_rising(docs, start, calls),
    ensures
        forall|i: int|
            0 <= i < calls.len() ==> stays_above(
                start,
                calls,
                (#[trigger] calls[i]).doc,
                calls[i].score as int,
            ),
{
    assert forall|i: int| 0 <= i < calls.len() implies stays_above(
        start,
        calls,
        (#[trigger] calls[i]).doc,
        calls[i].score as int,
    ) by {
        lemma_peak_bounds(start, calls, i);
        assert forall|j: int| 0 <= j < calls.len() && (#[trigger] calls[j]).doc < calls[i].doc implies calls[j].threshold
            < calls[i].score by {
            if j > i {
                assert(calls[i].doc < calls[j].doc);
            }
            assert(calls[j].threshold <= peak(start, calls, i));
        }
    }
}

/// Pruning by weights hands over, in ascending order, exactly the documents of the terms whose
/// weights exceed the first threshold and all answers before them, each with those weights.
pub proof fn law_idf_pruning<'a, C: ScoreCallback>(
    scorers: Vec<TermScorer<'a>>,
    threshold: Score,
    top_k: usize,
    callback: &mut C,
    stats: IdfPruningStats,
    calls: Seq<Call>,
)
    requires
        all_stand(scorers@),
        scorers@.len() > 0,
        call_ensures(idf_pruning::<C>, (scorers, threshold, top_k, callback), stats),
        calls == final(callback).calls().skip(old(callback).calls().len() as int),
    ensures
        extends_by(old(callback).calls(), final(callback).calls(), calls),
        is_rising(calls),
        forall|i: int|
            0 <= i < calls.len() ==> {
                let c = #[trigger] calls[i];
                &&& earns(scorers@, true, c.doc, c.score as int)
                &&& stays_above(stats.initial_threshold, calls, c.doc, c.score as int)
            },
        forall|doc: DocId, score: int| #[trigger]
            earns(scorers@, true, doc, score) && stays_above(
                stats.initial_threshold,
                calls,
                doc,
                score,
            ) ==> is_called(calls, doc, score),
        threshold > i64::MIN || top_k == 0 ==> stats.initial_threshold == threshold,
        stats.initial_threshold == starting_threshold(scorers@, threshold, top_k),
{
    let docs = idf_scored_docs(scorers@);
    let start = stats.initial_threshold;
    assert(exhaustive_run_rising(docs, start, calls));
    law_rising_run_is_pruned(docs, start, calls);
    lemma_rising_calls(docs, start, calls);
    assert forall|i: int| 0 <= i < calls.len() implies {
        let c = #[trigger] calls[i];
        &&& earns(scorers@, true, c.doc, c.score as int)
        &&& stays_above(start, calls, c.doc, c.score as int)
    } by {
        law_scored_docs(scorers@, calls[i].doc, calls[i].score as int);
    }
    assert forall|doc: DocId, score: int| #[trigger]
        earns(scorers@, true, doc, score) && stays_above(start, calls, doc, score) implies is_called(
        calls,
        doc,
        score,
    ) by {
        law_scored_docs(scorers@, doc, score);
        lemma_called(docs, start, calls, doc);
    }
}

/// Without terms, nothing is handed over.
pub proof fn law_idf_pruning_of_nothing<'a, C: ScoreCallback>(
    scorers: Vec<TermScorer<'a>>,
    threshold: Score,
    top_k: usize,
    callback: &mut C,
    stats: IdfPruningStats,
)
    requires
        scorers@.len() == 0,
        call_ensures(idf_pruning::<C>, (scorers, threshold, top_k, callback), stats),
    ensures
        final(callback).calls() == old(callback).calls(),
        stats.num_terms == 0,
        stats.num_seeks == 0,
        stats.num_advances == 0,
        stats.candidates_evaluated == 0,
        stats.candidates_emitted == 0,
        stats.phase1_candidates == 0,
        stats.phase2_candidates == 0,
        stats.num_absolutely_essential_at_end == 0,
        stats.initial_threshold == 0,
        stats.final_threshold == 0,
{
    let calls = new_calls(old(callback).calls(), final(callback).calls());
    let docs = idf_scored_docs(scorers@);
    if calls.len() > 0 {
        assert(docs.contains_key(calls[0].doc));
    }
    assert(old(callback).calls() + calls =~= old(callback).calls());
}

/// Pruning by weights runs on any terms whose weights add up to a score, if 32 bits can count them.
pub proof fn law_idf_pruning_runs<'a, C: ScoreCallback>(
    scorers: Vec<TermScorer<'a>>,
    threshold: Score,
    top_k: usize,
    callback: &mut C,
    weights: Seq<int>,
)
    requires
        all_stand(scorers@),
        scorers@.len() <= u32::MAX,
        are_weights(scorers@, weights),
        total(weights) <= i64::MAX,
        old(callback).inv(),
    ensures
        call_requires(idf_pruning::<C>, (scorers, threshold, top_k, callback)),
{
    lemma_all_stand(scorers@);
    lemma_total(scorers@, term_weight(), weights);
}

/// What the counters of the pruning by weights say, whatever it walks: the terms, the calls, the
/// candidates of both phases, and the thresholds at its start and at its end.
pub proof fn law_idf_counters<'a, C: ScoreCallback>(
    scorers: Vec<TermScorer<'a>>,
    threshold: Score,
    top_k: usize,
    callback: &mut C,
    stats: IdfPruningStats,
    calls: Seq<Call>,
    weights: Seq<int>,
)
    requires
        all_stand(scorers@),
        scorers@.len() > 0,
        are_weights(scorers@, weights),
        call_ensures(idf_pruning::<C>, (scorers, threshold, top_k, callback), stats),
        calls == final(callback).calls().skip(old(callback).calls().len() as int),
    ensures
        stats.num_terms == scorers@.len(),
        stats.candidates_emitted == calls.len(),
        stats.candidates_evaluated == stats.phase1_candidates + stats.phase2_candidates,
        stats.candidates_emitted <= stats.candidates_evaluated <= stats.num_advances,
        stats.initial_threshold <= stats.final_threshold,
        forall|i: int|
            0 <= i < calls.len() ==> (#[trigger] calls[i]).threshold <= stats.final_threshold,
        stats.final_threshold == stats.initial_threshold || exists|i: int|
            0 <= i < calls.len() && (#[trigger] calls[i]).threshold == stats.final_threshold,
        total(weights) <= stats.initial_threshold ==> {
            &&& stats.candidates_evaluated == 0
            &&& stats.num_advances == 0
            &&& stats.num_seeks == 0
            &&& stats.num_absolutely_essential_at_end == 0
            &&& stats.initial_num_essential == 0
            &&& stats.initial_min_essential_matches == 0
        },
        (exists|i: int|
            0 <= i < weights.len() && #[trigger] weights[i] > total(weights)
                - stats.initial_threshold) ==> {
            &&& stats.phase1_candidates == 0
            &&& stats.initial_num_essential == 0
            &&& stats.initial_min_essential_matches == 0
            &&& stats.num_advances == stats.candidates_evaluated
        },
        stats.phase2_candidates > 0 ==> stats.num_absolutely_essential_at_end > 0,
        stats.num_absolutely_essential_at_end <= weights.filter(
            |w: int| w > total(weights) - stats.final_threshold,
        ).len(),
{
    let start = stats.initial_threshold;
    let all = all_terms(scorers@);
    lemma_weights(scorers@, weights);
    lemma_peak_reached(start, calls, calls.len() as int);
    lemma_peak_bounds(start, calls, calls.len() as int);
    lemma_essential_weights(all, weights, stats.final_threshold);
    if exists|i: int|
        0 <= i < weights.len() && #[trigger] weights[i] > total(weights) - start {
        let i = choose|i: int| 0 <= i < weights.len() && #[trigger] weights[i] > total(weights) - start;
        assert(idf_values(all)[i] > total(weights) - start);
        if total(weights) > start {
            let (ranked, split) = choose|ranked: Seq<Term>, split: int| #[trigger]
                is_ranking(all, ranked) && #[trigger] is_prefix_split(
                    idf_values(ranked),
                    start,
                    split,
                ) && pruning_counts(
                    scorers@,
                    total(weights),
                    start,
                    calls,
                    ranked,
                    split,
                    stats.initial_min_essential_matches as int,
                    stats.final_threshold,
                    stats.phase1_candidates as int,
                    stats.phase2_candidates as int,
                    stats.num_advances as int,
                    stats.num_seeks as int,
                    stats.num_absolutely_essential_at_end as int,
                );
            lemma_heaviest_is_essential(all, ranked, split, i, total(weights), start);
        }
    }
}

/// Where a term is heavy, the heaviest one is, and it is essential.
pub proof fn lemma_heaviest_is_essential(
    all: Seq<Term>,
    ranked: Seq<Term>,
    split: int,
    i: int,
    whole: int,
    start: Score,
)
    requires
        is_ranking(all, ranked),
        is_prefix_split(idf_values(ranked), start, split),
        0 <= i < all.len(),
        all[i].idf > whole - start,
        whole == weight(all),
        whole > start,
    ensures
        ranked.skip(split).filter(absolutely_essential(whole, start)).len() > 0,
{
    broadcast use group_to_multiset_ensures;

    assert(ranked.len() == ranked.to_multiset().len() && all.len() == all.to_multiset().len());
    let last = ranked.len() - 1;
    if split == ranked.len() {
        assert(idf_values(ranked).take(split) =~= idf_values(ranked));
        lemma_values_sum(ranked);
        lemma_sum_permutation(ranked, all, idf_fn());
        assert(sum_by(idf_values(ranked).take(split), value_fn()) <= start);
    }
    let j = lemma_permutation_member(ranked, all, i);
    assert(idf_fn()(ranked[j]) <= idf_fn()(ranked[last]));
    let essential = ranked.skip(split);
    assert(essential[last - split] == ranked[last]);
    essential.lemma_filter_contains(absolutely_essential(whole, start), last - split);
    assert(essential.filter(absolutely_essential(whole, start)).contains(ranked[last]));
}

/// The peak is the start or an answer.
proof fn lemma_peak_reached(start: Score, calls: Seq<Call>, i: int)
    requires
        0 <= i <= calls.len(),
    ensures
        peak(start, calls, i) == start || exists|j: int|
            0 <= j < i && (#[trigger] calls[j]).threshold == peak(start, calls, i),
    decreases i,
{
    if i > 0 {
        lemma_peak_reached(start, calls, i - 1);
        assert(peak(start, calls, i) == calls[i - 1].threshold || peak(start, calls, i) == peak(
            start,
            calls,
            i - 1,
        ));
    }
}

pub proof fn lemma_weights(scorers: Seq<TermScorer>, weights: Seq<int>)
    requires
        are_weights(scorers, weights),
    ensures
        idf_values(all_terms(scorers)) == weights,
        total(weights) == sum_by(scorers, term_weight()),
        total(weights) == weight(all_terms(scorers)),
{
    lemma_total(scorers, term_weight(), weights);
    lemma_total(all_terms(scorers), idf_fn(), weights);
    assert(idf_values(all_terms(scorers)) =~= weights);
}

/// Counting heavy terms is counting heavy weights.
proof fn lemma_essential_weights(all: Seq<Term>, weights: Seq<int>, threshold: Score)
    requires
        weights == idf_values(all),
        total(weights) == weight(all),
    ensures
        essential_count(all, threshold) == weights.filter(
            |w: int| w > total(weights) - threshold,
        ).len(),
{
    let whole = total(weights);
    let p = |w: int| w > whole - threshold;
    law_count_by(weights, p);
    let f = indicator(absolutely_essential(whole, threshold));
    lemma_total(all, f, weights.map_values(indicator(p)));
    lemma_total(weights, indicator(p), weights.map_values(indicator(p)));
    assert(p =~= |w: int| w > total(weights) - threshold);
}

/// How the terms are divided before the first document, if none of them outweighs what the total
/// leaves above the threshold: the lightest ones are set aside as long as they add up to the threshold
/// at most. Of the others, a document needs so many that, with all that were set aside, they can
/// exceed it.
pub proof fn law_initial_division<'a, C: ScoreCallback>(
    scorers: Vec<TermScorer<'a>>,
    threshold: Score,
    top_k: usize,
    callback: &mut C,
    stats: IdfPruningStats,
    weights: Seq<int>,
    ranked: Seq<int>,
    aside: int,
)
    requires
        scorers@.len() > 0,
        are_weights(scorers@, weights),
        ranks(weights, ranked),
        call_ensures(idf_pruning::<C>, (scorers, threshold, top_k, callback), stats),
        total(weights) > stats.initial_threshold,
        forall|i: int|
            0 <= i < weights.len() ==> #[trigger] weights[i] <= total(weights)
                - stats.initial_threshold,
        aside == weights.len() - stats.initial_num_essential,
    ensures
        0 <= aside <= weights.len(),
        forall|j: int|
            1 <= j <= aside ==> total(#[trigger] ranked.take(j)) <= stats.initial_threshold,
        aside < weights.len() ==> total(ranked.take(aside + 1)) > stats.initial_threshold,
        stats.initial_min_essential_matches <= stats.initial_num_essential,
        forall|j: int|
            0 <= j < stats.initial_min_essential_matches ==> total(ranked.take(aside)) + total(
                #[trigger] ranked.skip(ranked.len() - j),
            ) <= stats.initial_threshold,
        stats.initial_min_essential_matches < stats.initial_num_essential ==> total(
            ranked.take(aside),
        ) + total(ranked.skip(ranked.len() - stats.initial_min_essential_matches))
            > stats.initial_threshold,
{
    let start = stats.initial_threshold;
    let m = stats.initial_min_essential_matches as int;
    lemma_weights(scorers@, weights);
    lemma_ranks(weights, ranked);
    let essential = ranked.skip(aside);
    assert forall|j: int| 1 <= j <= aside implies total(#[trigger] ranked.take(j)) <= start by {
        law_sum_of_values(ranked.take(j));
    }
    law_sum_of_values(ranked.take(aside + 1));
    law_sums_of_ranked(weights, ranked, aside);
    assert(ranks(essential, essential)) by {
        assert forall|i: int, j: int| 0 <= i < j < essential.len() implies #[trigger] essential[i]
            <= #[trigger] essential[j] by {
            assert(ranked[aside + i] <= ranked[aside + j]);
        }
    }
    assert forall|j: int| 0 <= j <= essential.len() implies #[trigger] top_sum(essential, j)
        == total(ranked.skip(ranked.len() - j)) by {
        law_sums_of_ranked(essential, essential, j);
        assert(essential.skip(essential.len() - j) =~= ranked.skip(ranked.len() - j));
    }
    assert forall|j: int| 0 <= j < m implies total(ranked.take(aside)) + total(
        #[trigger] ranked.skip(ranked.len() - j),
    ) <= start by {
        assert(bottom_sum(weights, aside) + top_sum(essential, j) <= start);
    }
    assert(top_sum(essential, m) == total(ranked.skip(ranked.len() - m)));
}

} // verus!
