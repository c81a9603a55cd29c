//! The second phase of the pruning by weights: walking an intersection.
use vstd::prelude::*;
use vstd::seq_lib::group_to_multiset_ensures;

use crate::idf_align::{align_absolutely_essential, lemma_alignment_budget, misses};
use crate::idf_counts::{
    candidates_between, intersection_counts, lemma_candidates_push, lemma_found_candidate,
    lemma_promoted_count, lemma_promoted_more, lemma_skipped_candidates, lemma_threshold_at,
    lemma_threshold_at_later, promoted_since,
};
use crate::idf_invariant::{
    idf_inv, lemma_idf_ends, lemma_idf_facts, lemma_idf_reparted, lemma_idf_step, lemma_idf_visit,
};
use crate::idf_lists::{
    absolutely_essential, promote_to_absolutely_essential, promotion, sort_heaviest_first,
    total_weight,
};
use crate::idf_seeks::{
    lemma_meeting_extended, lemma_meeting_on, lemma_meeting_starts, meet_on, meets_with,
    seeks_before, Meeting,
};
use crate::idf_stats::{counted_since, has_room, lemma_has_room, offer, run_ends, IdfPruningStats};
use crate::idf_steps::{
    essential_count, lemma_aligned, lemma_all_hit, lemma_essential_count, lemma_promoted,
};
use crate::idf_terms::{
    all_terms, hits, lemma_hits_stepped, lemma_listed_terms, lemma_stand_stepped,
    lemma_standing_match, lemma_stepped_chain, lemma_stepped_one, lemma_stepped_refl, met, parts_of,
    stand_from, stepped, term_moved, weight, Term,
};
use crate::idf_walk::{choose_driver, lemma_seek_budget, score_lazily};
use crate::pruning::{
    continues, lemma_peak_bounds, lemma_peak_prefix, new_calls, peak, Call, ScoreCallback,
};
use crate::scorer_set::lemma_permutation_member;
use crate::term_scorer::TermScorer;
use crate::types::{DocId, Score, TERMINATED};

verus! {

/// Walks the documents that contain all absolutely essential terms, and scores the remaining
/// terms lazily.
#[verifier::rlimit(60)]
pub(crate) fn phase2<C: ScoreCallback>(
    scorers: &mut Vec<TermScorer>,
    total_idf: Score,
    abs_terms: Vec<Term>,
    remaining_terms: Vec<Term>,
    threshold: &mut Score,
    callback: &mut C,
    stats: &mut IdfPruningStats,
    Ghost(docs): Ghost<Map<DocId, int>>,
    Ghost(start): Ghost<Score>,
    Ghost(history): Ghost<Seq<Call>>,
    Ghost(dropped): Ghost<Seq<Term>>,
    Ghost(floor): Ghost<int>,
)
    requires
        old(callback).inv(),
        continues(history, old(callback).calls()),
        idf_inv(
            docs,
            start,
            new_calls(history, old(callback).calls()),
            *old(threshold),
            old(scorers)@,
            abs_terms@,
            remaining_terms@,
            dropped,
        ),
        forall|d: DocId| #[trigger] docs.contains_key(d) ==> d < TERMINATED,
        total_idf == weight(all_terms(old(scorers)@)),
        old(scorers)@.len() <= u32::MAX,
        0 < abs_terms@.len(),
        forall|k: int|
            0 <= k < abs_terms@.len() ==> (#[trigger] abs_terms@[k]).idf > total_idf - *old(threshold),
        0 <= floor <= TERMINATED,
        stand_from(old(scorers)@, abs_terms@, floor),
        new_calls(history, old(callback).calls()).len() > 0 ==> new_calls(
            history,
            old(callback).calls(),
        ).last().doc < floor,
        has_room(*old(stats), old(scorers)@.len() as int, floor),
    ensures
        final(callback).inv(),
        final(callback).setup() == old(callback).setup(),
        continues(history, final(callback).calls()),
        continues(old(callback).calls(), final(callback).calls()),
        run_ends(docs, start, new_calls(history, final(callback).calls()), *final(threshold)),
        forall|i: int|
            0 <= i < new_calls(old(callback).calls(), final(callback).calls()).len() ==> (
            #[trigger] new_calls(old(callback).calls(), final(callback).calls())[i]).doc >= floor,
        counted_since(
            *old(stats),
            *final(stats),
            new_calls(old(callback).calls(), final(callback).calls()).len() as int,
        ),
        final(stats).num_advances - old(stats).num_advances == final(stats).phase2_candidates
            - old(stats).phase2_candidates,
        exists|states: Seq<Meeting>| #[trigger]
            meets_with(
                total_idf as int,
                new_calls(old(callback).calls(), final(callback).calls()),
                states,
                final(stats).num_seeks - old(stats).num_seeks,
            ) && states[0].starts(
                old(scorers)@,
                abs_terms@,
                remaining_terms@,
                *old(threshold),
            ),
        intersection_counts(
            old(scorers)@,
            abs_terms@,
            remaining_terms@,
            total_idf as int,
            *old(threshold),
            new_calls(old(callback).calls(), final(callback).calls()),
            floor,
            *final(threshold),
            final(stats).phase2_candidates - old(stats).phase2_candidates,
            final(stats).num_absolutely_essential_at_end as int,
        ),
        final(stats).num_terms == old(stats).num_terms,
        final(stats).phase1_candidates == old(stats).phase1_candidates,
        final(stats).initial_threshold == old(stats).initial_threshold,
        final(stats).initial_num_essential == old(stats).initial_num_essential,
        final(stats).initial_min_essential_matches == old(stats).initial_min_essential_matches,
        final(stats).num_absolutely_essential_at_end <= essential_count(
            all_terms(old(scorers)@),
            *final(threshold),
        ),
{
    let ghost all = all_terms(scorers@);
    let ghost n = scorers@.len() as int;
    let ghost entry = scorers@;
    let ghost entry_stats = *stats;
    let ghost entry_threshold = *threshold;
    let ghost earlier = new_calls(history, callback.calls());
    let ghost mut calls = earlier;
    let ghost mut fresh: Seq<Call> = Seq::empty();
    let ghost mut promoted: Seq<Term> = Seq::empty();
    let mut abs_essential: Vec<Term> = abs_terms;
    let mut remaining: Vec<Term> = remaining_terms;
    let ghost first_abs = abs_essential@;
    let ghost first_remaining = remaining@;
    proof {
        lemma_idf_facts(
            docs,
            start,
            calls,
            *threshold,
            scorers@,
            abs_essential@,
            remaining@,
            dropped,
        );
    }
    sort_heaviest_first(&mut remaining);
    choose_driver(&mut abs_essential, scorers);
    proof {
        broadcast use group_to_multiset_ensures;

        let none: Seq<Term> = Seq::empty();
        assert(abs_essential@.to_multiset().add(remaining@.to_multiset()).add(none.to_multiset())
            =~= first_abs.to_multiset().add(first_remaining.to_multiset()));
        lemma_idf_reparted(
            docs,
            start,
            calls,
            *threshold,
            scorers@,
            first_abs,
            first_remaining,
            dropped,
            abs_essential@,
            remaining@,
            none,
        );
        assert(dropped + none =~= dropped);
        assert forall|k: int| 0 <= k < abs_essential@.len() implies (
        #[trigger] abs_essential@[k]).idf > total_idf - *threshold by {
            let j = lemma_permutation_member(first_abs, abs_essential@, k);
        }
        let j = lemma_permutation_member(first_abs, abs_essential@, 0);
        let driver_doc = scorers@[abs_essential@[0].index as int].doc();
        lemma_idf_facts(
            docs,
            start,
            calls,
            *threshold,
            scorers@,
            abs_essential@,
            remaining@,
            dropped,
        );
        scorers@[abs_essential@[0].index as int].lemma_matches();
        assert(driver_doc >= floor);
        lemma_seek_budget(n, TERMINATED - driver_doc, TERMINATED - floor);
        assert(earlier + fresh =~= calls);
        assert(first_abs + promoted =~= first_abs);
        assert(promoted + remaining@ =~= remaining@);
        lemma_stepped_refl(scorers@, floor as DocId);
        lemma_stepped_refl(scorers@, driver_doc);
        assert forall|d: DocId| floor <= d < driver_doc implies #[trigger] misses(
            scorers@,
            abs_essential@,
            d,
        ) by {
            assert(!scorers@[abs_essential@[0].index as int].matches(d));
        }
        lemma_skipped_candidates(
            entry,
            scorers@,
            first_abs,
            first_remaining,
            abs_essential@,
            remaining@,
            promoted,
            total_idf as int,
            entry_threshold,
            fresh,
            floor,
            floor as DocId,
            driver_doc,
        );
    }
    let ghost mut states: Seq<Meeting> = seq![
        Meeting {
            scorers: scorers@,
            abs: abs_essential@,
            rest: remaining@,
            threshold: *threshold,
        },
    ];
    proof {
        lemma_meeting_starts(
            total_idf as int,
            fresh,
            states,
            scorers@[abs_essential@[0].index as int].doc() as int,
        );
        assert(states[0].starts(entry, first_abs, first_remaining, entry_threshold));
    }
    loop
        invariant_except_break
            states.last() == (Meeting {
                scorers: scorers@,
                abs: abs_essential@,
                rest: remaining@,
                threshold: *threshold,
            }),
            meet_on(
                total_idf as int,
                fresh,
                states,
                scorers@[abs_essential@[0].index as int].doc() as int,
            ),
            stats.num_seeks == entry_stats.num_seeks + seeks_before(states),
            idf_inv(
                docs,
                start,
                calls,
                *threshold,
                scorers@,
                abs_essential@,
                remaining@,
                dropped,
            ),
            callback.inv(),
            calls.len() > 0 ==> calls.last().doc < scorers@[abs_essential@[0].index as int].doc(),
            forall|i: int|
                0 <= i < fresh.len() ==> (#[trigger] fresh[i]).doc
                    < scorers@[abs_essential@[0].index as int].doc(),
            has_room(*stats, n, scorers@[abs_essential@[0].index as int].doc() as int),
            all == all_terms(scorers@),
            stepped(entry, scorers@, scorers@[abs_essential@[0].index as int].doc()),
            floor <= scorers@[abs_essential@[0].index as int].doc(),
            stats.phase2_candidates == entry_stats.phase2_candidates + candidates_between(
                entry,
                first_abs,
                first_remaining,
                total_idf as int,
                entry_threshold,
                fresh,
                floor,
                scorers@[abs_essential@[0].index as int].doc() as int,
            ),
        invariant
            states.len() > 0,
            states[0].starts(entry, first_abs, first_remaining, entry_threshold),
            entry == old(scorers)@,
            entry_stats == *old(stats),
            entry_threshold == *old(threshold),
            earlier == new_calls(history, old(callback).calls()),
            old(callback).calls() == history + earlier,
            calls == earlier + fresh,
            0 <= floor <= TERMINATED,
            promoted_since(
                first_abs,
                first_remaining,
                abs_essential@,
                remaining@,
                promoted,
                total_idf as int,
                entry_threshold,
                *threshold,
            ),
            *threshold == peak(entry_threshold, fresh, fresh.len() as int),
            forall|i: int| 0 <= i < fresh.len() ==> (#[trigger] fresh[i]).doc >= floor,
            counted_since(entry_stats, *stats, fresh.len() as int),
            stats.num_advances - entry_stats.num_advances == stats.phase2_candidates
                - entry_stats.phase2_candidates,
            callback.setup() == old(callback).setup(),
            callback.calls() == history + calls,
            forall|d: DocId| #[trigger] docs.contains_key(d) ==> d < TERMINATED,
            total_idf == weight(all),
            all == all_terms(old(scorers)@),
            n == scorers@.len(),
            n <= u32::MAX,
            0 < abs_essential@.len(),
            forall|k: int|
                0 <= k < abs_essential@.len() ==> (#[trigger] abs_essential@[k]).idf > total_idf
                    - *threshold,
            stats.num_terms == old(stats).num_terms,
            stats.phase1_candidates == old(stats).phase1_candidates,
            stats.initial_threshold == old(stats).initial_threshold,
            stats.initial_num_essential == old(stats).initial_num_essential,
            stats.initial_min_essential_matches == old(stats).initial_min_essential_matches,
        ensures
            callback.inv(),
            meets_with(
                total_idf as int,
                fresh,
                states,
                stats.num_seeks - entry_stats.num_seeks,
            ),
            run_ends(docs, start, calls, *threshold),
            stats.phase2_candidates == entry_stats.phase2_candidates + candidates_between(
                entry,
                first_abs,
                first_remaining,
                total_idf as int,
                entry_threshold,
                fresh,
                floor,
                TERMINATED as int,
            ),
            parts_of(old(scorers)@, abs_essential@, remaining@, dropped),
            abs_essential@.len() <= n,
        decreases TERMINATED - scorers@[abs_essential@[0].index as int].doc(),
    {
        let ghost s0 = scorers@;
        let ghost driver_doc = s0[abs_essential@[0].index as int].doc();
        proof {
            lemma_idf_facts(
                docs,
                start,
                calls,
                *threshold,
                scorers@,
                abs_essential@,
                remaining@,
                dropped,
            );
            s0[abs_essential@[0].index as int].lemma_matches();
            lemma_alignment_budget(s0, abs_essential@, n);
        }
        let ghost loop_stats = *stats;
        let aligned: Option<DocId> = align_absolutely_essential(
            scorers,
            &abs_essential,
            &mut stats.num_seeks,
        );
        let candidate: DocId = match aligned {
            Some(doc) => doc,
            None => {
                proof {
                    lemma_aligned(
                        docs,
                        start,
                        calls,
                        *threshold,
                        s0,
                        abs_essential@,
                        remaining@,
                        dropped,
                        TERMINATED,
                    );
                    reveal(meet_on);
                    lemma_hits_stepped(entry, s0, Seq::empty(), driver_doc);
                    lemma_listed_terms(entry, s0, abs_essential@);
                    lemma_skipped_candidates(
                        entry,
                        s0,
                        first_abs,
                        first_remaining,
                        abs_essential@,
                        remaining@,
                        promoted,
                        total_idf as int,
                        entry_threshold,
                        fresh,
                        floor,
                        driver_doc,
                        TERMINATED,
                    );
                    lemma_idf_ends(
                        docs,
                        start,
                        calls,
                        *threshold,
                        s0,
                        abs_essential@,
                        remaining@,
                        dropped,
                    );
                }
                break ;
            },
        };
        let ghost s1 = scorers@;
        proof {
            lemma_aligned(
                docs,
                start,
                calls,
                *threshold,
                s0,
                abs_essential@,
                remaining@,
                dropped,
                candidate,
            );
            lemma_hits_stepped(s0, s1, abs_essential@, candidate);
            lemma_idf_step(
                docs,
                start,
                calls,
                *threshold,
                s0,
                abs_essential@,
                remaining@,
                dropped,
                candidate,
                s1,
            );
            lemma_idf_facts(
                docs,
                start,
                calls,
                *threshold,
                s1,
                abs_essential@,
                remaining@,
                dropped,
            );
            lemma_all_hit(s1, abs_essential@, candidate);
            lemma_seek_budget(n, candidate + 1 - driver_doc, TERMINATED - driver_doc);
            lemma_hits_stepped(entry, s0, Seq::empty(), driver_doc);
            lemma_listed_terms(entry, s0, abs_essential@);
            lemma_skipped_candidates(
                entry,
                s0,
                first_abs,
                first_remaining,
                abs_essential@,
                remaining@,
                promoted,
                total_idf as int,
                entry_threshold,
                fresh,
                floor,
                driver_doc,
                candidate,
            );
            lemma_stepped_chain(entry, s0, s1, driver_doc, candidate);
            assert(!misses(s1, abs_essential@, candidate)) by {
                assert forall|k: int| 0 <= k < abs_essential@.len() implies s1[(
                #[trigger] abs_essential@[k]).index as int].matches(candidate) by {
                    lemma_standing_match(s1[abs_essential@[k].index as int], candidate);
                }
            }
            lemma_found_candidate(
                entry,
                s1,
                first_abs,
                first_remaining,
                abs_essential@,
                remaining@,
                promoted,
                total_idf as int,
                entry_threshold,
                fresh,
                floor,
                candidate,
            );
        }

        let abs_score: Score = total_weight(&abs_essential);
        let remaining_max: Score = total_weight(&remaining);
        let score: Score = score_lazily(
            scorers,
            &remaining,
            false,
            remaining_max,
            candidate,
            *threshold,
            abs_score,
            &mut stats.num_seeks,
        );
        let ghost s2 = scorers@;
        proof {
            lemma_idf_step(
                docs,
                start,
                calls,
                *threshold,
                s1,
                abs_essential@,
                remaining@,
                dropped,
                candidate,
                s2,
            );
            lemma_hits_stepped(s1, s2, abs_essential@, candidate);
            lemma_hits_stepped(s1, s2, remaining@, candidate);
            assert(hits(s2, abs_essential@, candidate) == hits(s1, abs_essential@, candidate));
            assert(hits(s2, remaining@, candidate) == hits(s1, remaining@, candidate));
            assert(met(s2, abs_essential@, candidate) == met(s1, abs_essential@, candidate));
        }
        stats.candidates_evaluated = stats.candidates_evaluated + 1;
        stats.phase2_candidates = stats.phase2_candidates + 1;

        let ghost old_threshold = *threshold;
        let ghost old_calls = calls;
        let ghost old_fresh = fresh;
        let ghost mut made: Seq<Call> = Seq::empty();
        let raised: bool = offer(
            callback,
            candidate,
            score,
            threshold,
            &mut stats.candidates_emitted,
        );
        proof {
            let answer = callback.calls().last().threshold;
            if score > old_threshold {
                let call = Call { doc: candidate, score, threshold: answer };
                calls = calls.push(call);
                assert(callback.calls() =~= history + calls);
                lemma_candidates_push(
                    entry,
                    first_abs,
                    first_remaining,
                    total_idf as int,
                    entry_threshold,
                    fresh,
                    call,
                    floor,
                    candidate + 1,
                );
                lemma_peak_prefix(entry_threshold, fresh, fresh.push(call), fresh.len() as int);
                made = made.push(call);
                fresh = fresh.push(call);
                assert(calls =~= earlier + fresh);
            }
            lemma_idf_visit(
                docs,
                start,
                old_calls,
                old_threshold,
                s2,
                abs_essential@,
                remaining@,
                dropped,
                candidate,
                score,
                calls,
                answer,
                *threshold,
            );
        }
        let ghost listed_abs = abs_essential@;
        let ghost listed_remaining = remaining@;
        if raised {
            promote_to_absolutely_essential(
                &mut abs_essential,
                &mut remaining,
                total_idf,
                *threshold,
            );
            proof {
                lemma_promoted(
                    docs,
                    start,
                    calls,
                    *threshold,
                    s2,
                    listed_abs,
                    listed_remaining,
                    dropped,
                    abs_essential@,
                    remaining@,
                );
                lemma_promoted_more(
                    first_abs,
                    first_remaining,
                    listed_abs,
                    listed_remaining,
                    promoted,
                    total_idf as int,
                    entry_threshold,
                    old_threshold,
                    *threshold,
                    abs_essential@,
                    remaining@,
                );
                promoted = promoted + promotion(
                    listed_remaining,
                    0,
                    absolutely_essential(total_idf as int, *threshold),
                ).0;
            }
        }
        let ghost driver = abs_essential@[0];
        assert(driver == listed_abs[0]);

        let index: usize = abs_essential[0].index;
        let mut scorer: TermScorer = scorers[index];
        proof {
            lemma_standing_match(s1[index as int], candidate);
            assert(term_moved(s1[index as int], s2[index as int], candidate));
            assert(s2[index as int].matches(candidate) <==> s1[index as int].matches(candidate));
            s2[index as int].lemma_matches();
            lemma_stand_stepped(s1, s2, listed_abs, candidate, candidate as int);
            lemma_standing_match(s2[index as int], candidate);
            assert(scorer.doc() == candidate);
        }
        scorer.advance();
        scorers[index] = scorer;
        stats.num_advances = stats.num_advances + 1;
        proof {
            let next = (candidate + 1) as DocId;
            lemma_stepped_one(s2, index as int, scorer, next);
            assert(scorers@ =~= s2.update(index as int, scorer));
            lemma_idf_step(
                docs,
                start,
                calls,
                *threshold,
                s2,
                abs_essential@,
                remaining@,
                dropped,
                next,
                scorers@,
            );
            lemma_hits_stepped(s2, scorers@, Seq::empty(), next);
            scorer.lemma_matches();
            lemma_has_room(loop_stats, *stats, n, driver_doc as int, next as int);
            lemma_seek_budget(n, TERMINATED - scorer.doc(), TERMINATED - next);
            lemma_idf_facts(
                docs,
                start,
                calls,
                *threshold,
                scorers@,
                abs_essential@,
                remaining@,
                dropped,
            );
            lemma_stepped_chain(entry, s1, s2, candidate, candidate);
            lemma_stepped_chain(entry, s2, scorers@, candidate, next);
            lemma_listed_terms(entry, scorers@, abs_essential@);
            assert forall|d: DocId| next <= d < scorer.doc() implies #[trigger] misses(
                scorers@,
                abs_essential@,
                d,
            ) by {
                assert(!scorers@[abs_essential@[0].index as int].matches(d));
            }
            lemma_skipped_candidates(
                entry,
                scorers@,
                first_abs,
                first_remaining,
                abs_essential@,
                remaining@,
                promoted,
                total_idf as int,
                entry_threshold,
                fresh,
                floor,
                next,
                scorer.doc(),
            );
            lemma_stepped_refl(scorers@, scorer.doc());
            lemma_stepped_chain(entry, scorers@, scorers@, next, scorer.doc());
            assert(fresh =~= old_fresh + made);
            lemma_peak_bounds(entry_threshold, old_fresh, old_fresh.len() as int);
            lemma_threshold_at_later(old_threshold, old_fresh, made, candidate + 1);
            lemma_threshold_at(old_threshold, made, candidate + 1);
            assert(peak(old_threshold, made, 0) == old_threshold);
            assert(peak(old_threshold, made, made.len() as int) == *threshold);
            lemma_meeting_extended(
                total_idf as int,
                old_fresh,
                made,
                states,
                driver_doc as int,
            );
            let next_state = Meeting {
                scorers: scorers@,
                abs: abs_essential@,
                rest: remaining@,
                threshold: *threshold,
            };
            assert(states.last().goes_on(total_idf as int, fresh, next_state));
            lemma_meeting_on(
                total_idf as int,
                fresh,
                states,
                driver_doc as int,
                next_state,
                scorer.doc() as int,
            );
            states = states.push(next_state);
        }
        if scorer.doc() == TERMINATED {
            proof {
                reveal(meet_on);
                lemma_aligned(
                    docs,
                    start,
                    calls,
                    *threshold,
                    scorers@,
                    abs_essential@,
                    remaining@,
                    dropped,
                    TERMINATED,
                );
                lemma_idf_ends(
                    docs,
                    start,
                    calls,
                    *threshold,
                    scorers@,
                    abs_essential@,
                    remaining@,
                    dropped,
                );
            }
            break ;
        }
    }
    stats.num_absolutely_essential_at_end = abs_essential.len() as u32;
    proof {
        lemma_essential_count(old(scorers)@, abs_essential@, remaining@, dropped, *threshold);
        assert(new_calls(history, callback.calls()) =~= calls);
        assert(callback.calls() =~= old(callback).calls() + fresh);
        assert(new_calls(old(callback).calls(), callback.calls()) =~= fresh);
        lemma_promoted_count(
            first_abs,
            first_remaining,
            abs_essential@,
            remaining@,
            promoted,
            total_idf as int,
            entry_threshold,
            *threshold,
        );
    }
}

} // verus!
