//! Scoring by weights alone, with pruning by intersection.
//!
//! When term frequencies are not stored, a term gives its weight to every document that contains
//! it. The bound of a term is then its score, and a term that is heavier than the total weight
//! less the threshold is *absolutely essential*: a document without it is out of reach.
use vstd::prelude::*;
use vstd::seq_lib::{group_to_multiset_ensures, lemma_multiset_commutative};

use crate::idf_bootstrap::{bootstrap_threshold, starting_threshold};
use crate::idf_counts::{is_ranking, pruning_counts};
use crate::idf_intersection::phase2;
use crate::idf_invariant::{lemma_idf_facts, lemma_idf_start};
use crate::idf_lists::{
    absolutely_essential, collect_terms, idf_key, partition_absolutely_essential, prefix_sum_split,
    total_weight,
};
use crate::idf_ranks::{
    ascending, at_most, bottom_sum, idf_values, is_min_matches, is_prefix_split, lemma_sorted_terms,
    lemma_values_sum, value_fn,
};
use crate::idf_stats::{counted, IdfPruningStats};
use crate::idf_steps::{essential_count, lemma_idf_count_nonneg, lemma_parted};
use crate::idf_terms::{
    all_terms, idf_fn, lemma_all_terms, lemma_hits_bounds, lemma_same_terms, lemma_total_weight,
    lemma_weight_nonneg, stand_from, term_weight, weight, Term,
};
use crate::idf_union::phase1;
use crate::idf_walk::lemma_whole_budget;
use crate::pruning::{
    all_ready, continues, exhaustive_run_rising, idf_scored_docs, in_gap, new_calls, peak, Call,
    ScoreCallback,
};
use crate::scorer_set::lemma_permutation_member;
use crate::sorting::{sort_by_key, sorted_by_key};
use crate::sums::{lemma_count_bounds, sum_by};
use crate::term_scorer::TermScorer;
use crate::types::{DocId, Score};

verus! {

/// How the terms were divided before the first document: what the scan started with when no term
/// was absolutely essential.
pub open spec fn initial_division(
    stats: IdfPruningStats,
    values: Seq<int>,
    total_idf: int,
    start: Score,
) -> bool {
    let split = values.len() - stats.initial_num_essential;
    if total_idf <= start || exists|i: int|
        0 <= i < values.len() && #[trigger] values[i] > total_idf - start {
        &&& stats.initial_num_essential == 0
        &&& stats.initial_min_essential_matches == 0
        &&& stats.phase1_candidates == 0
    } else {
        &&& is_prefix_split(ascending(values), start, split)
        &&& is_min_matches(
            ascending(values).skip(split),
            bottom_sum(values, split),
            start,
            stats.initial_min_essential_matches as int,
        )
    }
}

/// Hands the documents that score more than the threshold to `callback`, where each document
/// scores the weights of the terms that it contains.
///
/// Every call is made with the full score of its document, and none is left out: the calls are
/// those of an exhaustive scan that starts with [`starting_threshold`] and ignores answers below
/// its threshold. A document that is skipped lacks so many terms that it cannot exceed the
/// threshold.
///
/// - Without a threshold, the document frequencies of the terms may give one.
/// - As long as no term is absolutely essential, the union of the essential terms is walked.
/// - From there on, the intersection of the absolutely essential terms is walked, and the
///   remaining terms are scored lazily.
///
/// The counters are those of the walks that [`pruning_counts`] describes. Where equally heavy terms
/// leave a choice of which to demote, they are those of one choice.
#[verifier::rlimit(60)]
pub fn idf_pruning<C: ScoreCallback>(
    scorers: Vec<TermScorer>,
    threshold: Score,
    top_k: usize,
    callback: &mut C,
) -> (stats: IdfPruningStats)
    requires
        all_ready(scorers@),
        sum_by(scorers@, term_weight()) <= Score::MAX,
        scorers@.len() <= u32::MAX,
        old(callback).inv(),
    ensures
        final(callback).inv(),
        final(callback).setup() == old(callback).setup(),
        continues(old(callback).calls(), final(callback).calls()),
        exhaustive_run_rising(
            idf_scored_docs(scorers@),
            starting_threshold(scorers@, threshold, top_k),
            new_calls(old(callback).calls(), final(callback).calls()),
        ),
        counted(stats, new_calls(old(callback).calls(), final(callback).calls())),
        stats.num_terms == scorers@.len(),
        scorers@.len() == 0 ==> stats.initial_threshold == 0 && stats.final_threshold == 0,
        scorers@.len() > 0 ==> {
            let start = starting_threshold(scorers@, threshold, top_k);
            let calls = new_calls(old(callback).calls(), final(callback).calls());
            &&& stats.initial_threshold == start
            &&& stats.final_threshold == peak(start, calls, calls.len() as int)
        },
        initial_division(
            stats,
            idf_values(all_terms(scorers@)),
            sum_by(scorers@, term_weight()),
            starting_threshold(scorers@, threshold, top_k),
        ),
        stats.num_absolutely_essential_at_end <= essential_count(
            all_terms(scorers@),
            stats.final_threshold,
        ),
        stats.phase2_candidates > 0 ==> stats.num_absolutely_essential_at_end > 0,
        scorers@.len() == 0 || sum_by(scorers@, term_weight()) <= starting_threshold(
            scorers@,
            threshold,
            top_k,
        ) ==> {
            &&& stats.candidates_evaluated == 0
            &&& stats.num_advances == 0
            &&& stats.num_seeks == 0
            &&& stats.num_absolutely_essential_at_end == 0
        },
        sum_by(scorers@, term_weight()) > starting_threshold(scorers@, threshold, top_k)
            && scorers@.len() > 0 ==> exists|ranked: Seq<Term>, split: int| #[trigger]
            is_ranking(all_terms(scorers@), ranked) && #[trigger] is_prefix_split(
                idf_values(ranked),
                starting_threshold(scorers@, threshold, top_k),
                split,
            ) && pruning_counts(
                scorers@,
                sum_by(scorers@, term_weight()),
                starting_threshold(scorers@, threshold, top_k),
                new_calls(old(callback).calls(), final(callback).calls()),
                ranked,
                split,
                stats.initial_min_essential_matches as int,
                stats.final_threshold,
                stats.phase1_candidates as int,
                stats.phase2_candidates as int,
                stats.num_advances as int,
                stats.num_seeks as int,
                stats.num_absolutely_essential_at_end as int,
            ),
{
    let ghost history = callback.calls();
    let ghost docs = idf_scored_docs(scorers@);
    let ghost none: Seq<Term> = Seq::empty();
    let ghost no_calls: Seq<Call> = Seq::empty();
    let ghost all = all_terms(scorers@);
    let mut scorers_left: Vec<TermScorer> = scorers;
    let mut stats: IdfPruningStats = IdfPruningStats::default();
    stats.num_terms = scorers_left.len() as u32;
    proof {
        assert(history + no_calls =~= history);
        assert(new_calls(history, history) =~= no_calls);
        lemma_all_terms(scorers@);
        lemma_total_weight(scorers@, scorers@.len() as int);
        assert(all.take(scorers@.len() as int) =~= all);
        assert(scorers@.take(scorers@.len() as int) =~= scorers@);
        lemma_weight_nonneg(scorers@, all);
        lemma_idf_count_nonneg(all, 0);
    }
    if scorers_left.len() == 0 {
        proof {
            assert(exhaustive_run_rising(docs, threshold, no_calls));
            lemma_no_terms(stats, idf_values(all), threshold);
        }
        return stats;
    }
    let mut sorted: Vec<Term> = collect_terms(&scorers_left);
    let total_idf: Score = total_weight(&sorted);
    if total_idf <= threshold {
        stats.initial_threshold = threshold;
        stats.final_threshold = threshold;
        proof {
            lemma_nothing_exceeds(scorers@, threshold);
            lemma_idf_count_nonneg(all, threshold);
        }
        return stats;
    }
    sort_by_key(&mut sorted, idf_key, Ghost(idf_fn()));
    let mut current: Score = bootstrap_threshold(
        &sorted,
        &scorers_left,
        total_idf,
        threshold,
        top_k,
    );
    let ghost start = current;
    stats.initial_threshold = current;
    if total_idf <= current {
        stats.final_threshold = current;
        proof {
            lemma_nothing_exceeds(scorers@, current);
            lemma_idf_count_nonneg(all, current);
        }
        return stats;
    }

    proof {
        lemma_same_terms(scorers@, sorted@, all);
        lemma_sorted_terms(all, sorted@);
    }
    let split: usize = prefix_sum_split(&sorted, current);
    let ghost ranked = sorted@;
    let essential: Vec<Term> = sorted.split_off(split);
    let non_essential: Vec<Term> = sorted;
    proof {
        assert(ranked =~= non_essential@ + essential@);
        lemma_multiset_commutative(non_essential@, essential@);
        lemma_multiset_commutative(essential@, non_essential@);
        assert((essential@ + non_essential@).to_multiset() =~= ranked.to_multiset());
        assert(essential@ + non_essential@ + none =~= essential@ + non_essential@);
        lemma_idf_start(current, scorers@, essential@, non_essential@);
        lemma_idf_facts(
            docs,
            start,
            no_calls,
            current,
            scorers@,
            essential@,
            non_essential@,
            none,
        );
        lemma_values_sum(ranked.take(split as int));
        assert(idf_values(ranked).take(split as int) =~= idf_values(ranked.take(split as int)));
        assert(ranked.take(split as int) =~= non_essential@);
        assert(ranked.skip(split as int) =~= essential@);
        assert(idf_values(ranked).skip(split as int) =~= idf_values(essential@));
        if split == ranked.len() {
            assert(idf_values(ranked).take(split as int) =~= idf_values(ranked));
            lemma_values_sum(ranked);
            assert(sum_by(idf_values(ranked).take(split as int), value_fn()) <= current);
        }
        assert(stand_from(scorers@, essential@, 0));
    }
    let non_essential_idf_sum: Score = total_weight(&non_essential);
    let parts: (Vec<Term>, Vec<Term>) = partition_absolutely_essential(
        &essential,
        total_idf,
        current,
    );
    let abs: Vec<Term> = parts.0;
    if abs.len() > 0 {
        let mut remaining: Vec<Term> = parts.1;
        let ghost rest = remaining@;
        let ghost light = non_essential@;
        let mut lightest: Vec<Term> = non_essential;
        remaining.append(&mut lightest);
        proof {
            lemma_parted(
                docs,
                start,
                no_calls,
                current,
                scorers@,
                essential@,
                light,
                none,
                abs@,
                rest,
                0,
            );
            assert(remaining@ =~= rest + light);
            lemma_heavy_term(all, essential@, light, abs@, total_idf as int, current);
            lemma_whole_budget(scorers@.len() as int);
        }
        phase2(
            &mut scorers_left,
            total_idf,
            abs,
            remaining,
            &mut current,
            callback,
            &mut stats,
            Ghost(docs),
            Ghost(start),
            Ghost(history),
            Ghost(none),
            Ghost(0),
        );
        proof {
            lemma_count_bounds(rest + light, absolutely_essential(total_idf as int, current));
        }
    } else {
        proof {
            lemma_no_heavy_term(
                all,
                ranked,
                split as int,
                abs@,
                total_idf as int,
                current,
            );
            lemma_whole_budget(scorers@.len() as int);
        }
        phase1(
            &mut scorers_left,
            total_idf,
            essential,
            non_essential,
            non_essential_idf_sum,
            &mut current,
            callback,
            &mut stats,
            Ghost(docs),
            Ghost(start),
        );
    }
    stats.final_threshold = current;
    proof {
        lemma_idf_count_nonneg(all, current);
        assert(is_ranking(all, ranked));
        assert(is_prefix_split(idf_values(ranked), start, split as int));
    }
    stats
}

/// Without terms there is nothing to divide.
proof fn lemma_no_terms(stats: IdfPruningStats, values: Seq<int>, start: Score)
    requires
        values.len() == 0,
        stats.initial_num_essential == 0,
        stats.initial_min_essential_matches == 0,
        stats.phase1_candidates == 0,
    ensures
        initial_division(stats, values, 0, start),
{
    values.lemma_sort_by_ensures(at_most());
    broadcast use group_to_multiset_ensures;

    assert(ascending(values).len() == ascending(values).to_multiset().len());
    assert(values.len() == values.to_multiset().len());
    assert(ascending(values).skip(0) =~= ascending(values));
}

/// No document scores more than the total weight.
proof fn lemma_nothing_exceeds(scorers: Seq<TermScorer>, start: Score)
    requires
        all_ready(scorers),
        scorers.len() <= usize::MAX,
        weight(all_terms(scorers)) <= start,
    ensures
        exhaustive_run_rising(idf_scored_docs(scorers), start, Seq::empty()),
{
    let docs = idf_scored_docs(scorers);
    let none: Seq<Call> = Seq::empty();
    lemma_all_terms(scorers);
    assert forall|i: int, d: DocId| #[trigger]
        in_gap(none, i, d) && docs.contains_key(d) implies docs[d] <= peak(start, none, i) by {
        lemma_hits_bounds(scorers, all_terms(scorers), d);
    }
}

/// An absolutely essential term is among all terms.
proof fn lemma_heavy_term(
    all: Seq<Term>,
    essential: Seq<Term>,
    non_essential: Seq<Term>,
    abs: Seq<Term>,
    total_idf: int,
    threshold: Score,
)
    requires
        (essential + non_essential).to_multiset() == all.to_multiset(),
        abs == essential.filter(absolutely_essential(total_idf, threshold)),
        abs.len() > 0,
    ensures
        exists|i: int|
            0 <= i < idf_values(all).len() && #[trigger] idf_values(all)[i] > total_idf - threshold,
{
    essential.lemma_filter_pred(absolutely_essential(total_idf, threshold), 0);
    essential.lemma_filter_contains_rev(absolutely_essential(total_idf, threshold), abs[0]);
    let j = choose|j: int| 0 <= j < essential.len() && essential[j] == abs[0];
    assert((essential + non_essential)[j] == essential[j]);
    let i = lemma_permutation_member(all, essential + non_essential, j);
    assert(idf_values(all)[i] > total_idf - threshold);
}

/// Where no essential term is absolutely essential, no term is.
proof fn lemma_no_heavy_term(
    all: Seq<Term>,
    ranked: Seq<Term>,
    split: int,
    abs: Seq<Term>,
    total_idf: int,
    threshold: Score,
)
    requires
        ranked.to_multiset() == all.to_multiset(),
        sorted_by_key(ranked, idf_fn()),
        0 <= split < ranked.len(),
        abs == ranked.skip(split).filter(absolutely_essential(total_idf, threshold)),
        abs.len() == 0,
    ensures
        forall|i: int|
            0 <= i < idf_values(all).len() ==> #[trigger] idf_values(all)[i] <= total_idf
                - threshold,
{
    let essential = ranked.skip(split);
    let last = ranked.len() - 1;
    assert(essential[last - split] == ranked[last]);
    if ranked[last].idf > total_idf - threshold {
        essential.lemma_filter_contains(
            absolutely_essential(total_idf, threshold),
            last - split,
        );
        assert(abs.contains(ranked[last]));
    }
    assert forall|i: int| 0 <= i < idf_values(all).len() implies #[trigger] idf_values(all)[i]
        <= total_idf - threshold by {
        let j = lemma_permutation_member(ranked, all, i);
        assert(idf_fn()(ranked[j]) <= idf_fn()(ranked[last]));
    }
}

} // verus!
