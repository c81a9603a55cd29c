//! The first phase of the pruning by weights: walking a union.
use vstd::prelude::*;
use vstd::seq_lib::{group_to_multiset_ensures, lemma_multiset_commutative};

use crate::idf_counts::{
    is_walk, lemma_has_heavy, lemma_is_pivot, lemma_scored_permuted, lemma_threshold_at,
    lemma_threshold_at_later, lemma_union_left, lemma_walk_extended, lemma_walk_on,
    lemma_walk_starts, seeks_of, steps_of, turns_heavy, union_counts, walks_on, Union,
};
use crate::idf_intersection::phase2;
use crate::idf_invariant::{
    dismissed_below, idf_inv, lemma_idf_ends, lemma_idf_facts, lemma_idf_reparted, lemma_idf_step,
    lemma_idf_visit,
};
use crate::idf_lists::{
    absolutely_essential, compute_min_essential_matches, demotes, dispensable, lemma_bottom_nonneg,
    lemma_demoted, lemma_filter_parts, partition_absolutely_essential, rebalance, summable,
};
use crate::idf_ranks::{bottom_sum, idf_values, is_min_matches};
use crate::idf_stats::{counted_since, has_room, lemma_has_room, offer, run_ends, IdfPruningStats};
use crate::idf_steps::{
    essential_count, lemma_matches_computed, lemma_parted, lemma_pivot_dismisses, lemma_rebalanced,
    lemma_reselected, lemma_spent_more, matches_needed,
};
use crate::idf_terms::{
    all_terms, disjoint_terms, exhausted, hits, idf_fn, lemma_hits_bounds, lemma_hits_stepped,
    lemma_hits_untouched, lemma_joined_terms, lemma_same_terms, lemma_stand_stepped,
    lemma_standing_match, lemma_stepped_chain, lemma_stepped_refl, met, stand_from, stepped,
    term_moved, valid_terms, weight, Term,
};
use crate::idf_walk::{
    caught_up, contains_doc, from_heaviest, is_live_term, is_spent_term, lemma_seek_budget,
    moved_past, retain_live, score_and_advance, score_lazily, score_terms, seek_lagging, select_nth,
};
use crate::pruning::{continues, lemma_peak_bounds, new_calls, peak, Call, ScoreCallback};
use crate::scorer_set::lemma_permutation_member;
use crate::sums::{
    indicator, lemma_count_bounds, lemma_sum_append, lemma_sum_element, lemma_sum_eq,
    lemma_sum_nonneg, lemma_sum_permutation,
};
use crate::term_scorer::TermScorer;
use crate::types::{DocId, Score, TERMINATED};
use crate::wand_invariant::after_calls;

verus! {

/// Visits `pivot`: moves the first `lagging` essential terms up to it, scores it, leaves it
/// behind, and hands it over if it exceeds the threshold. Essential terms without documents left
/// are dropped; they are returned along with whether the threshold was raised.
#[verifier::rlimit(60)]
fn visit_pivot<C: ScoreCallback>(
    scorers: &mut Vec<TermScorer>,
    essential: &mut Vec<Term>,
    lagging: usize,
    pivot: DocId,
    non_essential: &Vec<Term>,
    non_essential_idf_sum: Score,
    threshold: &mut Score,
    callback: &mut C,
    stats: &mut IdfPruningStats,
    Ghost(docs): Ghost<Map<DocId, int>>,
    Ghost(start): Ghost<Score>,
    Ghost(history): Ghost<Seq<Call>>,
    Ghost(dropped): Ghost<Seq<Term>>,
) -> (result: (bool, Ghost<Seq<Term>>))
    requires
        old(callback).inv(),
        continues(history, old(callback).calls()),
        idf_inv(
            docs,
            start,
            new_calls(history, old(callback).calls()),
            *old(threshold),
            old(scorers)@,
            old(essential)@,
            non_essential@,
            dropped,
        ),
        dismissed_below(
            docs,
            new_calls(history, old(callback).calls()),
            *old(threshold),
            pivot,
        ),
        after_calls(new_calls(history, old(callback).calls()), pivot),
        old(scorers)@.len() <= u32::MAX,
        non_essential_idf_sum == weight(non_essential@),
        lagging < old(essential)@.len(),
        forall|j: int|
            lagging <= j < old(essential)@.len() ==> old(scorers)@[(
            #[trigger] old(essential)@[j]).index as int].doc() >= pivot,
        old(scorers)@[old(essential)@[lagging as int].index as int].doc() == pivot,
        pivot < TERMINATED,
        has_room(*old(stats), old(scorers)@.len() as int, pivot as int),
    ensures
        final(callback).inv(),
        final(callback).setup() == old(callback).setup(),
        continues(history, final(callback).calls()),
        continues(old(callback).calls(), final(callback).calls()),
        new_calls(old(callback).calls(), final(callback).calls()).len() <= 1,
        forall|i: int|
            0 <= i < new_calls(old(callback).calls(), final(callback).calls()).len() ==> (
            #[trigger] new_calls(old(callback).calls(), final(callback).calls())[i]).doc == pivot,
        *final(threshold) == peak(
            *old(threshold),
            new_calls(old(callback).calls(), final(callback).calls()),
            new_calls(old(callback).calls(), final(callback).calls()).len() as int,
        ),
        result.0 == (*final(threshold) > *old(threshold)),
        *final(threshold) >= *old(threshold),
        idf_inv(
            docs,
            start,
            new_calls(history, final(callback).calls()),
            *final(threshold),
            final(scorers)@,
            final(essential)@,
            non_essential@,
            dropped + result.1@,
        ),
        exhausted(final(scorers)@, result.1@),
        forall|k: int|
            0 <= k < final(essential)@.len() ==> final(scorers)@[(
            #[trigger] final(essential)@[k]).index as int].doc() != TERMINATED,
        final(essential)@.to_multiset().add(result.1@.to_multiset()) == old(essential)@.to_multiset(),
        stepped(old(scorers)@, final(scorers)@, (pivot + 1) as DocId),
        stand_from(final(scorers)@, final(essential)@, pivot + 1),
        new_calls(history, final(callback).calls()).len() > 0 ==> new_calls(
            history,
            final(callback).calls(),
        ).last().doc <= pivot,
        counted_since(
            *old(stats),
            *final(stats),
            new_calls(old(callback).calls(), final(callback).calls()).len() as int,
        ),
        has_room(*final(stats), final(scorers)@.len() as int, pivot + 1),
        final(stats).phase1_candidates == old(stats).phase1_candidates + 1,
        ({
            let state = Union {
                scorers: old(scorers)@,
                essential: old(essential)@,
                light: non_essential@,
                matches: 0,
                threshold: *old(threshold),
                from: pivot,
            };
            &&& final(scorers)@ == state.scored(pivot).scorers
            &&& final(stats).num_advances == old(stats).num_advances + state.steps(pivot)
            &&& final(stats).num_seeks == old(stats).num_seeks + state.seeks(pivot)
        }),
        final(stats).num_terms == old(stats).num_terms,
        final(stats).phase2_candidates == old(stats).phase2_candidates,
        final(stats).num_absolutely_essential_at_end == old(stats).num_absolutely_essential_at_end,
        final(stats).initial_threshold == old(stats).initial_threshold,
        final(stats).initial_num_essential == old(stats).initial_num_essential,
        final(stats).initial_min_essential_matches == old(stats).initial_min_essential_matches,
{
    let ghost n = scorers@.len() as int;
    let ghost next = (pivot + 1) as DocId;
    let ghost calls = new_calls(history, callback.calls());
    let ghost first_threshold = *threshold;
    let ghost s0 = scorers@;
    let ghost listed = essential@;
    proof {
        lemma_idf_facts(docs, start, calls, *threshold, s0, listed, non_essential@, dropped);
        lemma_seek_budget(n, 1, TERMINATED - pivot);
    }
    seek_lagging(scorers, essential, lagging, pivot, &mut stats.num_seeks);
    let ghost s1 = scorers@;
    proof {
        lemma_idf_step(
            docs,
            start,
            calls,
            *threshold,
            s0,
            listed,
            non_essential@,
            dropped,
            pivot,
            s1,
        );
        lemma_idf_facts(docs, start, calls, *threshold, s1, listed, non_essential@, dropped);
        let x = listed[lagging as int].index as int;
        lemma_standing_match(s0[x], pivot);
        assert(term_moved(s0[x], s1[x], pivot));
        assert(s1[x].matches(pivot) <==> s0[x].matches(pivot));
        assert(met(s1, listed, pivot));
        lemma_hits_bounds(s1, listed, pivot);
    }
    let scored: (Score, bool) = score_and_advance(
        scorers,
        essential,
        pivot,
        &mut stats.num_advances,
    );
    let ghost s2 = scorers@;
    proof {
        let on_pivot = contains_doc(s1, pivot);
        assert forall|k: int| 0 <= k < listed.len() implies indicator(on_pivot)(
            #[trigger] listed[k],
        ) == indicator(contains_doc(s0, pivot))(listed[k]) by {
            let i = listed[k].index as int;
            assert(term_moved(s0[i], s1[i], pivot));
        }
        lemma_sum_eq(listed, listed, indicator(on_pivot), indicator(contains_doc(s0, pivot)));
        lemma_count_bounds(listed, on_pivot);
        assert forall|k: int| 0 <= k < listed.len() implies 0 <= indicator(on_pivot)(
            #[trigger] listed[k],
        ) by {}
        lemma_sum_element(listed, lagging as int, indicator(on_pivot));
    }
    let ghost mut newly: Seq<Term> = Seq::empty();
    proof {
        broadcast use group_to_multiset_ensures;

        lemma_hits_stepped(s1, s2, listed, next);
        lemma_hits_stepped(s1, s2, non_essential@, next);
        assert(disjoint_terms(listed, non_essential@));
        lemma_hits_untouched(s1, s2, non_essential@);
        assert(hits(s2, non_essential@, pivot) == hits(s1, non_essential@, pivot));
        assert(listed.to_multiset().add(newly.to_multiset()) =~= listed.to_multiset());
    }
    if scored.1 {
        retain_live(essential, scorers);
        proof {
            newly = listed.filter(is_spent_term(s2));
            lemma_filter_parts(listed, is_live_term(s2), is_spent_term(s2));
            assert forall|k: int| 0 <= k < newly.len() implies s2[(
            #[trigger] newly[k]).index as int].doc() == TERMINATED by {
                listed.lemma_filter_pred(is_spent_term(s2), k);
            }
            assert forall|k: int| 0 <= k < essential@.len() implies s2[(
            #[trigger] essential@[k]).index as int].doc() >= pivot + 1 by {
                listed.lemma_filter_contains_rev(is_live_term(s2), essential@[k]);
                let j = choose|j: int| 0 <= j < listed.len() && listed[j] == essential@[k];
                assert(s2[listed[j].index as int].doc() >= pivot + 1);
                assert(is_live_term(s2)(essential@[k]));
            }
        }
    }
    proof {
        assert forall|k: int| 0 <= k < essential@.len() implies s2[(
        #[trigger] essential@[k]).index as int].doc() != TERMINATED by {
            if scored.1 {
                listed.lemma_filter_pred(is_live_term(s2), k);
            }
        }
    }
    stats.candidates_evaluated = stats.candidates_evaluated + 1;
    stats.phase1_candidates = stats.phase1_candidates + 1;

    let score: Score = score_lazily(
        scorers,
        non_essential,
        true,
        non_essential_idf_sum,
        pivot,
        *threshold,
        scored.0,
        &mut stats.num_seeks,
    );
    let ghost s3 = scorers@;
    let raised: bool = offer(callback, pivot, score, threshold, &mut stats.candidates_emitted);
    proof {
        let answer = callback.calls().last().threshold;
        let calls2 = if score > first_threshold {
            calls.push(Call { doc: pivot, score, threshold: answer })
        } else {
            calls
        };
        let made = new_calls(old(callback).calls(), callback.calls());
        assert(callback.calls() =~= history + calls2);
        assert(new_calls(history, callback.calls()) =~= calls2);
        if score > first_threshold {
            assert(made =~= seq![Call { doc: pivot, score, threshold: answer }]);
            assert(peak(first_threshold, made, 0) == first_threshold);
        } else {
            assert(made =~= Seq::empty());
        }
        assert(callback.calls() =~= old(callback).calls() + made);
        assert(peak(first_threshold, made, made.len() as int) == *threshold);
        reveal(Union::scored);
        lemma_hits_stepped(s0, s1, listed, pivot);
        assert(hits(s1, listed, pivot) == hits(s0, listed, pivot));
        assert(s1 == caught_up(s0, listed, pivot));
        assert(s2 == moved_past(s1, listed, pivot));
        let scored_terms = score_terms(
            s2,
            from_heaviest(non_essential@, true),
            pivot,
            first_threshold,
            scored.0 as int,
        );
        assert(s3 == scored_terms.scorers);
        lemma_has_room(*old(stats), *stats, n, pivot as int, pivot + 1);
        lemma_idf_visit(
            docs,
            start,
            calls,
            first_threshold,
            s1,
            listed,
            non_essential@,
            dropped,
            pivot,
            score,
            calls2,
            answer,
            *threshold,
        );
        lemma_stepped_refl(s3, next);
        lemma_stepped_chain(s2, s3, s3, pivot, next);
        lemma_stepped_chain(s1, s2, s3, next, next);
        lemma_stepped_chain(s0, s1, s3, pivot, next);
        lemma_idf_step(
            docs,
            start,
            calls2,
            *threshold,
            s1,
            listed,
            non_essential@,
            dropped,
            next,
            s3,
        );
        assert(valid_terms(s2, newly) && valid_terms(s2, essential@)) by {
            lemma_multiset_commutative(essential@, newly);
            lemma_same_terms(s2, essential@ + newly, listed);
            lemma_joined_terms(s2, essential@, newly);
        }
        lemma_stand_stepped(s2, s3, newly, pivot, 0);
        lemma_stand_stepped(s2, s3, essential@, pivot, pivot + 1);
        assert forall|k: int| 0 <= k < essential@.len() implies s3[(
        #[trigger] essential@[k]).index as int].doc() != TERMINATED by {
            let i = essential@[k].index as int;
            assert(s2[i].doc() >= pivot + 1);
            assert(s2[i].doc() != TERMINATED);
            assert(term_moved(s2[i], s3[i], pivot));
            s2[i].lemma_landed(s2[i], next);
            s2[i].lemma_landed(s3[i], next);
        }
        assert(essential@.to_multiset().add(non_essential@.to_multiset()).add(
            newly.to_multiset(),
        ) =~= listed.to_multiset().add(non_essential@.to_multiset()));
        lemma_idf_reparted(
            docs,
            start,
            calls2,
            *threshold,
            s3,
            listed,
            non_essential@,
            dropped,
            essential@,
            non_essential@,
            newly,
        );
    }
    (raised, Ghost(newly))
}

/// Finds the pivot: the first document by which enough of the essential terms have one. Returns how
/// many terms are put before the one that stands on it, and the pivot.
fn find_pivot(
    essential: &mut Vec<Term>,
    scorers: &Vec<TermScorer>,
    min_essential_matches: usize,
    Ghost(docs): Ghost<Map<DocId, int>>,
    Ghost(start): Ghost<Score>,
    Ghost(calls): Ghost<Seq<Call>>,
    Ghost(threshold): Ghost<Score>,
    Ghost(non_essential): Ghost<Seq<Term>>,
    Ghost(dropped): Ghost<Seq<Term>>,
    Ghost(spent): Ghost<Seq<Term>>,
    Ghost(sorted): Ghost<Seq<Term>>,
    Ghost(state): Ghost<Union>,
) -> (found: (usize, DocId))
    requires
        idf_inv(
            docs,
            start,
            calls,
            threshold,
            scorers@,
            old(essential)@,
            non_essential,
            dropped,
        ),
        matches_needed(
            scorers@,
            old(essential)@,
            spent,
            sorted,
            min_essential_matches as int,
            weight(non_essential),
            threshold,
        ),
        non_essential.len() > 0 ==> weight(non_essential) <= threshold,
        0 < old(essential)@.len(),
        state.scorers == scorers@,
        state.essential == old(essential)@,
        state.matches == min_essential_matches,
        stand_from(scorers@, old(essential)@, state.from as int),
    ensures
        idf_inv(
            docs,
            start,
            calls,
            threshold,
            scorers@,
            final(essential)@,
            non_essential,
            dropped,
        ),
        final(essential)@.to_multiset() == old(essential)@.to_multiset(),
        (final(essential)@ + spent).to_multiset() == sorted.to_multiset(),
        stand_from(scorers@, final(essential)@, state.from as int),
        valid_terms(scorers@, final(essential)@),
        found.0 < final(essential)@.len(),
        scorers@[final(essential)@[found.0 as int].index as int].doc() == found.1,
        forall|j: int|
            found.0 <= j < final(essential)@.len() ==> scorers@[(
            #[trigger] final(essential)@[j]).index as int].doc() >= found.1,
        state.from <= found.1 <= TERMINATED,
        dismissed_below(docs, calls, threshold, found.1),
        state.is_pivot(found.1),
{
    let needed: usize = if min_essential_matches < 1 {
        1
    } else {
        min_essential_matches
    };
    let k: usize = if needed < essential.len() {
        needed
    } else {
        essential.len()
    };
    let ghost listed = essential@;
    proof {
        lemma_idf_facts(
            docs,
            start,
            calls,
            threshold,
            scorers@,
            listed,
            non_essential,
            dropped,
        );
    }
    select_nth(essential, scorers, k - 1);
    proof {
        lemma_reselected(
            docs,
            start,
            calls,
            threshold,
            scorers@,
            listed,
            non_essential,
            dropped,
            essential@,
            spent,
            sorted,
            state.from as int,
        );
        scorers@[essential@[k - 1].index as int].lemma_matches();
    }
    let pivot: DocId = scorers[essential[k - 1].index].doc();
    proof {
        lemma_pivot_dismisses(
            docs,
            start,
            calls,
            threshold,
            scorers@,
            essential@,
            non_essential,
            dropped,
            spent,
            sorted,
            min_essential_matches as int,
            k as int,
            pivot,
        );
        lemma_is_pivot(state, essential@, pivot);
    }
    (k - 1, pivot)
}

/// Divides the essential terms anew under a higher threshold, and returns how many of those that
/// stay essential are needed.
fn regroup(
    essential: &mut Vec<Term>,
    non_essential: &mut Vec<Term>,
    non_essential_idf_sum: &mut Score,
    threshold: Score,
    Ghost(state): Ghost<Union>,
    Ghost(scorers): Ghost<Seq<TermScorer>>,
    Ghost(from): Ghost<DocId>,
) -> (matches: usize)
    requires
        summable(old(essential)@),
        *old(non_essential_idf_sum) == weight(old(non_essential)@),
        *old(non_essential_idf_sum) + weight(old(essential)@) <= Score::MAX,
        old(non_essential)@.len() > 0 ==> *old(non_essential_idf_sum) <= threshold,
        state.threshold < threshold,
        state.light == old(non_essential)@,
    ensures
        state.divides(
            old(essential)@,
            (Union {
                scorers,
                essential: final(essential)@,
                light: final(non_essential)@,
                matches: matches as int,
                threshold,
                from,
            }),
        ),
        exists|demoted: Seq<Term>| #[trigger]
            demotes(
                old(essential)@,
                old(non_essential)@,
                final(essential)@,
                final(non_essential)@,
                demoted,
            ),
        *final(non_essential_idf_sum) == weight(final(non_essential)@),
        final(non_essential)@.len() > 0 ==> *final(non_essential_idf_sum) <= threshold,
        summable(final(essential)@),
        is_min_matches(
            idf_values(final(essential)@),
            *final(non_essential_idf_sum) as int,
            threshold,
            matches as int,
        ),
{
    let ghost live = essential@;
    let ghost light = non_essential@;
    proof {
        assert forall|j: int| 0 <= j <= live.len() implies *non_essential_idf_sum
            + #[trigger] bottom_sum(idf_values(live), j) >= Score::MIN by {
            lemma_bottom_nonneg(live, j);
        }
    }
    rebalance(essential, non_essential, non_essential_idf_sum, threshold);
    proof {
        broadcast use group_to_multiset_ensures;

        let demoted = choose|demoted: Seq<Term>| #[trigger]
            demotes(live, light, essential@, non_essential@, demoted);
        let parts = lemma_demoted(live, light, essential@, non_essential@, demoted);
        lemma_multiset_commutative(light, demoted);
        lemma_sum_permutation(light + demoted, non_essential@, idf_fn());
        lemma_sum_append(light, demoted, idf_fn());
        lemma_multiset_commutative(essential@, demoted);
        lemma_sum_permutation(essential@ + demoted, live, idf_fn());
        lemma_sum_append(essential@, demoted, idf_fn());
        assert forall|k: int| 0 <= k < essential@.len() implies 0 <= (
        #[trigger] essential@[k]).idf by {
            assert((essential@ + demoted)[k] == essential@[k]);
            let j = lemma_permutation_member(live, essential@ + demoted, k);
        }
        assert forall|k: int| 0 <= k < demoted.len() implies 0 <= idf_fn()(
            #[trigger] demoted[k],
        ) by {
            assert((essential@ + demoted)[essential@.len() + k] == demoted[k]);
            let j = lemma_permutation_member(live, essential@ + demoted, essential@.len() + k);
        }
        lemma_sum_nonneg(demoted, idf_fn());
        assert(non_essential@.len() == light.len() + demoted.len()) by {
            assert((light + demoted).len() == (light + demoted).to_multiset().len());
            assert(non_essential@.len() == non_essential@.to_multiset().len());
        }
    }
    compute_min_essential_matches(essential, *non_essential_idf_sum, threshold)
}

/// Walks the documents that contain enough essential terms, until some terms are absolutely
/// essential.
#[verifier::rlimit(100)]
#[verifier::spinoff_prover]
pub(crate) fn phase1<C: ScoreCallback>(
    scorers: &mut Vec<TermScorer>,
    total_idf: Score,
    essential_terms: Vec<Term>,
    non_essential_terms: Vec<Term>,
    idf_sum: Score,
    threshold: &mut Score,
    callback: &mut C,
    stats: &mut IdfPruningStats,
    Ghost(docs): Ghost<Map<DocId, int>>,
    Ghost(start): Ghost<Score>,
)
    requires
        old(callback).inv(),
        idf_inv(
            docs,
            start,
            Seq::empty(),
            *old(threshold),
            old(scorers)@,
            essential_terms@,
            non_essential_terms@,
            Seq::empty(),
        ),
        forall|d: DocId| #[trigger] docs.contains_key(d) ==> d < TERMINATED,
        total_idf == weight(all_terms(old(scorers)@)),
        old(scorers)@.len() <= u32::MAX,
        idf_sum == weight(non_essential_terms@),
        non_essential_terms@.len() > 0 ==> idf_sum <= *old(threshold),
        has_room(*old(stats), old(scorers)@.len() as int, 0),
    ensures
        final(callback).inv(),
        final(callback).setup() == old(callback).setup(),
        continues(old(callback).calls(), final(callback).calls()),
        run_ends(
            docs,
            start,
            new_calls(old(callback).calls(), final(callback).calls()),
            *final(threshold),
        ),
        counted_since(
            *old(stats),
            *final(stats),
            new_calls(old(callback).calls(), final(callback).calls()).len() as int,
        ),
        exists|walk: Seq<Union>| #[trigger]
            is_walk(
                total_idf as int,
                new_calls(old(callback).calls(), final(callback).calls()),
                walk,
            ) && walk[0] == (Union {
                scorers: old(scorers)@,
                essential: essential_terms@,
                light: non_essential_terms@,
                matches: final(stats).initial_min_essential_matches as int,
                threshold: *old(threshold),
                from: 0,
            }) && union_counts(
                total_idf as int,
                new_calls(old(callback).calls(), final(callback).calls()),
                walk,
                *final(threshold),
                final(stats).phase1_candidates - old(stats).phase1_candidates,
                final(stats).phase2_candidates - old(stats).phase2_candidates,
                final(stats).num_advances - old(stats).num_advances,
                final(stats).num_seeks - old(stats).num_seeks,
                old(stats).num_absolutely_essential_at_end as int,
                final(stats).num_absolutely_essential_at_end as int,
            ),
        final(stats).num_terms == old(stats).num_terms,
        final(stats).initial_threshold == old(stats).initial_threshold,
        final(stats).initial_num_essential == essential_terms@.len(),
        is_min_matches(
            idf_values(essential_terms@),
            idf_sum as int,
            *old(threshold),
            final(stats).initial_min_essential_matches as int,
        ),
        final(stats).num_absolutely_essential_at_end
            == old(stats).num_absolutely_essential_at_end
            || final(stats).num_absolutely_essential_at_end <= essential_count(
            all_terms(old(scorers)@),
            *final(threshold),
        ),
        final(stats).phase2_candidates > old(stats).phase2_candidates
            ==> final(stats).num_absolutely_essential_at_end > 0,
{
    let ghost history = callback.calls();
    let ghost all = all_terms(scorers@);
    let ghost n = scorers@.len() as int;
    let ghost mut calls: Seq<Call> = Seq::empty();
    let ghost mut dropped: Seq<Term> = Seq::empty();
    let ghost mut spent: Seq<Term> = Seq::empty();
    let ghost mut floor: int = 0;
    let ghost entry_stats = *stats;
    let mut essential: Vec<Term> = essential_terms;
    let mut non_essential: Vec<Term> = non_essential_terms;
    let mut non_essential_idf_sum: Score = idf_sum;
    proof {
        lemma_idf_facts(
            docs,
            start,
            calls,
            *threshold,
            scorers@,
            essential@,
            non_essential@,
            dropped,
        );
        assert(new_calls(history, callback.calls()) =~= calls);
        assert(history + calls =~= history);
    }
    let mut min_essential_matches: usize = compute_min_essential_matches(
        &essential,
        non_essential_idf_sum,
        *threshold,
    );
    let ghost mut sorted: Seq<Term> = lemma_matches_computed(
        scorers@,
        essential@,
        min_essential_matches as int,
        non_essential_idf_sum as int,
        *threshold,
    );
    stats.initial_min_essential_matches = min_essential_matches as u32;
    stats.initial_num_essential = essential.len() as u32;
    let ghost mut walk: Seq<Union> = seq![
        Union {
            scorers: scorers@,
            essential: essential@,
            light: non_essential@,
            matches: min_essential_matches as int,
            threshold: *threshold,
            from: 0,
        },
    ];
    proof {
        lemma_walk_starts(total_idf as int, calls, walk[0]);
    }

    let mut abs: Vec<Term> = Vec::new();
    let mut rest: Vec<Term> = Vec::new();
    loop
        invariant_except_break
            abs@.len() == 0,
            !turns_heavy(walk, walk.len() - 1, total_idf as int),
            walk.last() == (Union {
                scorers: scorers@,
                essential: essential@,
                light: non_essential@,
                matches: min_essential_matches as int,
                threshold: *threshold,
                from: floor as DocId,
            }),
        invariant
            callback.inv(),
            callback.setup() == old(callback).setup(),
            history == old(callback).calls(),
            callback.calls() == history + calls,
            idf_inv(
                docs,
                start,
                calls,
                *threshold,
                scorers@,
                essential@,
                non_essential@,
                dropped,
            ),
            forall|d: DocId| #[trigger] docs.contains_key(d) ==> d < TERMINATED,
            all == all_terms(scorers@),
            all == all_terms(old(scorers)@),
            total_idf == weight(all),
            n == scorers@.len(),
            n <= u32::MAX,
            non_essential_idf_sum == weight(non_essential@),
            non_essential@.len() > 0 ==> non_essential_idf_sum <= *threshold,
            matches_needed(
                scorers@,
                essential@,
                spent,
                sorted,
                min_essential_matches as int,
                non_essential_idf_sum as int,
                *threshold,
            ),
            valid_terms(scorers@, spent),
            0 <= floor <= TERMINATED,
            stand_from(scorers@, essential@, floor),
            calls.len() > 0 ==> calls.last().doc < floor,
            entry_stats == *old(stats),
            walk.len() > 0,
            walk[0] == (Union {
                scorers: old(scorers)@,
                essential: essential_terms@,
                light: non_essential_terms@,
                matches: stats.initial_min_essential_matches as int,
                threshold: *old(threshold),
                from: 0,
            }),
            walks_on(total_idf as int, calls, walk, floor),
            stats.phase1_candidates == entry_stats.phase1_candidates + (walk.len() - 1),
            stats.num_advances == entry_stats.num_advances + steps_of(walk),
            stats.num_seeks == entry_stats.num_seeks + seeks_of(walk),
            counted_since(entry_stats, *stats, calls.len() as int),
            has_room(*stats, n, floor),
            stats.num_terms == old(stats).num_terms,
            stats.num_absolutely_essential_at_end == entry_stats.num_absolutely_essential_at_end,
            stats.phase2_candidates == entry_stats.phase2_candidates,
            stats.initial_threshold == old(stats).initial_threshold,
            stats.initial_num_essential == essential_terms@.len(),
            is_min_matches(
                idf_values(essential_terms@),
                idf_sum as int,
                *old(threshold),
                stats.initial_min_essential_matches as int,
            ),
        ensures
            abs@.len() == 0 ==> {
                &&& run_ends(docs, start, calls, *threshold)
                &&& walk.last().is_over()
                &&& !turns_heavy(walk, walk.len() - 1, total_idf as int)
            },
            abs@.len() > 0 ==> {
                &&& turns_heavy(walk, walk.len() - 1, total_idf as int)
                &&& walk.last() == (Union {
                    scorers: scorers@,
                    essential: essential@,
                    light: non_essential@,
                    matches: min_essential_matches as int,
                    threshold: *threshold,
                    from: floor as DocId,
                })
                &&& abs@ == essential@.filter(
                    absolutely_essential(total_idf as int, *threshold),
                )
                &&& rest@ == essential@.filter(dispensable(total_idf as int, *threshold))
            },
        decreases TERMINATED - floor,
    {
        proof {
            lemma_idf_facts(
                docs,
                start,
                calls,
                *threshold,
                scorers@,
                essential@,
                non_essential@,
                dropped,
            );
        }
        if essential.len() == 0 {
            proof {
                lemma_pivot_dismisses(
                    docs,
                    start,
                    calls,
                    *threshold,
                    scorers@,
                    essential@,
                    non_essential@,
                    dropped,
                    spent,
                    sorted,
                    min_essential_matches as int,
                    0,
                    TERMINATED,
                );
                lemma_idf_ends(
                    docs,
                    start,
                    calls,
                    *threshold,
                    scorers@,
                    essential@,
                    non_essential@,
                    dropped,
                );
            }
            break ;
        }
        let found: (usize, DocId) = find_pivot(
            &mut essential,
            scorers,
            min_essential_matches,
            Ghost(docs),
            Ghost(start),
            Ghost(calls),
            Ghost(*threshold),
            Ghost(non_essential@),
            Ghost(dropped),
            Ghost(spent),
            Ghost(sorted),
            Ghost(walk.last()),
        );
        let lagging: usize = found.0;
        let pivot: DocId = found.1;
        if pivot == TERMINATED {
            proof {
                lemma_idf_ends(
                    docs,
                    start,
                    calls,
                    *threshold,
                    scorers@,
                    essential@,
                    non_essential@,
                    dropped,
                );
            }
            break ;
        }
        let ghost selected = essential@;
        let ghost before = scorers@;
        let ghost next = (pivot + 1) as DocId;
        proof {
            assert(new_calls(history, callback.calls()) =~= calls);
            lemma_seek_budget(n, TERMINATED - pivot, TERMINATED - floor);
            lemma_peak_bounds(start, calls, calls.len() as int);
        }
        let ghost earlier = calls;
        let ghost called = callback.calls();
        let ghost old_threshold = *threshold;
        let visited: (bool, Ghost<Seq<Term>>) = visit_pivot(
            scorers,
            &mut essential,
            lagging,
            pivot,
            &non_essential,
            non_essential_idf_sum,
            threshold,
            callback,
            stats,
            Ghost(docs),
            Ghost(start),
            Ghost(history),
            Ghost(dropped),
        );
        let ghost newly = visited.1@;
        let ghost made = new_calls(called, callback.calls());
        let ghost walked = floor;
        proof {
            calls = new_calls(history, callback.calls());
            assert(calls =~= earlier + made);
            lemma_walk_extended(total_idf as int, earlier, made, walk, floor);
            lemma_threshold_at_later(old_threshold, earlier, made, next as int);
            lemma_threshold_at(old_threshold, made, next as int);
            dropped = dropped + newly;
            floor = pivot + 1;
            lemma_hits_stepped(before, scorers@, spent, next);
            lemma_hits_stepped(before, scorers@, selected, next);
            lemma_stand_stepped(before, scorers@, spent, next, 0);
            lemma_idf_facts(
                docs,
                start,
                calls,
                *threshold,
                scorers@,
                essential@,
                non_essential@,
                dropped,
            );
            lemma_spent_more(scorers@, selected, essential@, spent, newly);
            spent = spent + newly;
            let state = Union {
                scorers: before,
                essential: selected,
                light: non_essential@,
                matches: 0,
                threshold: old_threshold,
                from: pivot,
            };
            lemma_scored_permuted(state, walk.last(), pivot);
            assert(walk.last().retains(scorers@, essential@, newly));
        }
        let ghost live = essential@;
        let ghost light = non_essential@;
        if visited.0 {
            min_essential_matches = regroup(
                &mut essential,
                &mut non_essential,
                &mut non_essential_idf_sum,
                *threshold,
                Ghost(walk.last()),
                Ghost(scorers@),
                Ghost(next),
            );
            proof {
                let demoted = choose|demoted: Seq<Term>| #[trigger]
                    demotes(live, light, essential@, non_essential@, demoted);
                lemma_rebalanced(
                    docs,
                    start,
                    calls,
                    *threshold,
                    scorers@,
                    live,
                    light,
                    dropped,
                    essential@,
                    non_essential@,
                    demoted,
                    floor,
                );
                lemma_idf_facts(
                    docs,
                    start,
                    calls,
                    *threshold,
                    scorers@,
                    essential@,
                    non_essential@,
                    dropped,
                );
                sorted = lemma_matches_computed(
                    scorers@,
                    essential@,
                    min_essential_matches as int,
                    non_essential_idf_sum as int,
                    *threshold,
                );
                spent = Seq::empty();
                let next_state = Union {
                    scorers: scorers@,
                    essential: essential@,
                    light: non_essential@,
                    matches: min_essential_matches as int,
                    threshold: *threshold,
                    from: next,
                };
                lemma_walk_on(
                    total_idf as int,
                    calls,
                    walk,
                    walked,
                    next_state,
                    live,
                    newly,
                );
                walk = walk.push(next_state);
            }
            let parts: (Vec<Term>, Vec<Term>) = partition_absolutely_essential(
                &essential,
                total_idf,
                *threshold,
            );
            proof {
                lemma_has_heavy(walk.last(), parts.0@, total_idf as int);
            }
            if parts.0.len() > 0 {
                abs = parts.0;
                rest = parts.1;
                break ;
            }
        } else {
            proof {
                let next_state = Union {
                    scorers: scorers@,
                    essential: essential@,
                    light: non_essential@,
                    matches: min_essential_matches as int,
                    threshold: *threshold,
                    from: next,
                };
                assert(walk.last().divides(live, next_state));
                lemma_walk_on(
                    total_idf as int,
                    calls,
                    walk,
                    walked,
                    next_state,
                    live,
                    newly,
                );
                walk = walk.push(next_state);
            }
        }
    }
    proof {
        assert(new_calls(history, callback.calls()) =~= calls);
    }
    if abs.len() > 0 {
        let mut remaining: Vec<Term> = rest;
        let ghost others = remaining@;
        let ghost heavy = essential@;
        let ghost light = non_essential@;
        let ghost mid = scorers@;
        let ghost mid_called = callback.calls();
        let ghost mid_threshold = *threshold;
        let ghost mid_seeks = stats.num_seeks as int;
        let ghost abs_listed = abs@;
        remaining.append(&mut non_essential);
        proof {
            lemma_parted(
                docs,
                start,
                calls,
                *threshold,
                scorers@,
                heavy,
                light,
                dropped,
                abs@,
                others,
                floor,
            );
            assert(remaining@ =~= others + light);
        }
        phase2(
            scorers,
            total_idf,
            abs,
            remaining,
            threshold,
            callback,
            stats,
            Ghost(docs),
            Ghost(start),
            Ghost(history),
            Ghost(dropped),
            Ghost(floor),
        );
        proof {
            let fresh = new_calls(mid_called, callback.calls());
            assert(new_calls(history, callback.calls()) =~= calls + fresh);
            lemma_peak_bounds(start, calls, calls.len() as int);
            lemma_idf_facts(
                docs,
                start,
                calls,
                mid_threshold,
                mid,
                abs_listed,
                others + light,
                dropped,
            );
            lemma_union_left(
                total_idf as int,
                calls,
                fresh,
                walk,
                abs_listed,
                others + light,
                *threshold,
                stats.phase2_candidates - entry_stats.phase2_candidates,
                stats.num_seeks - mid_seeks,
                entry_stats.num_absolutely_essential_at_end as int,
                stats.num_absolutely_essential_at_end as int,
            );
            lemma_count_bounds(
                others + light,
                absolutely_essential(total_idf as int, *threshold),
            );
        }
    } else {
        proof {
            reveal(walks_on);
            assert(is_walk(total_idf as int, calls, walk));
        }
    }
}

} // verus!
