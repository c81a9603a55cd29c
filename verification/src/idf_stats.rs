//! The counters of the pruning by weights, and what both of its phases share.
use vstd::prelude::*;

use crate::idf_walk::{lemma_seek_budget, seek_budget};
use crate::pruning::{exhaustive_run_rising, peak, Call, ScoreCallback};
use crate::types::{DocId, Score, TERMINATED};

verus! {


/// Statistics collected while pruning.
#[derive(Debug)]
pub struct IdfPruningStats {
    pub num_seeks: u64,
    pub num_advances: u64,
    pub candidates_evaluated: u64,
    pub candidates_emitted: u64,
    pub phase1_candidates: u64,
    pub phase2_candidates: u64,
    pub num_terms: u32,
    pub num_absolutely_essential_at_end: u32,
    pub initial_min_essential_matches: u32,
    pub initial_num_essential: u32,
    pub initial_threshold: Score,
    pub final_threshold: Score,
}

impl Default for IdfPruningStats {
    fn default() -> (stats: IdfPruningStats)
        ensures
            stats.num_seeks == 0,
            stats.num_advances == 0,
            stats.candidates_evaluated == 0,
            stats.candidates_emitted == 0,
            stats.phase1_candidates == 0,
            stats.phase2_candidates == 0,
            stats.num_terms == 0,
            stats.num_absolutely_essential_at_end == 0,
            stats.initial_min_essential_matches == 0,
            stats.initial_num_essential == 0,
            stats.initial_threshold == 0,
            stats.final_threshold == 0,
    {
        IdfPruningStats {
            num_seeks: 0,
            num_advances: 0,
            candidates_evaluated: 0,
            candidates_emitted: 0,
            phase1_candidates: 0,
            phase2_candidates: 0,
            num_terms: 0,
            num_absolutely_essential_at_end: 0,
            initial_min_essential_matches: 0,
            initial_num_essential: 0,
            initial_threshold: 0,
            final_threshold: 0,
        }
    }
}

/// Hands `doc` over if it scores more than the threshold, and raises the threshold if the answer
/// is higher. Says whether the threshold was raised.
pub(crate) fn offer<C: ScoreCallback>(
    callback: &mut C,
    doc: DocId,
    score: Score,
    threshold: &mut Score,
    emitted: &mut u64,
) -> (raised: bool)
    requires
        old(callback).inv(),
        *old(emitted) < u64::MAX,
    ensures
        final(callback).inv(),
        final(callback).setup() == old(callback).setup(),
        raised == (*final(threshold) > *old(threshold)),
        score <= *old(threshold) ==> {
            &&& final(callback).calls() == old(callback).calls()
            &&& *final(threshold) == *old(threshold)
            &&& *final(emitted) == *old(emitted)
        },
        score > *old(threshold) ==> {
            let answer = final(callback).calls().last().threshold;
            &&& final(callback).calls() == old(callback).calls().push(
                (Call { doc, score, threshold: answer }),
            )
            &&& *final(threshold) == (if answer > *old(threshold) {
                answer
            } else {
                *old(threshold)
            })
            &&& *final(emitted) == *old(emitted) + 1
        },
{
    if score > *threshold {
        let new_threshold: Score = callback.call(doc, score);
        *emitted = *emitted + 1;
        if new_threshold > *threshold {
            *threshold = new_threshold;
            return true;
        }
    }
    false
}

/// What the counters say: each call was an evaluated candidate, and each candidate advanced a
/// scorer.
pub open spec fn counted(stats: IdfPruningStats, calls: Seq<Call>) -> bool {
    &&& stats.candidates_emitted == calls.len()
    &&& stats.candidates_evaluated == stats.phase1_candidates + stats.phase2_candidates
    &&& stats.candidates_emitted <= stats.candidates_evaluated <= stats.num_advances
}

/// What the counters say of `emitted` calls that were made between `before` and `after`.
pub open spec fn counted_since(
    before: IdfPruningStats,
    after: IdfPruningStats,
    emitted: int,
) -> bool {
    &&& after.candidates_emitted == before.candidates_emitted + emitted
    &&& after.candidates_evaluated - before.candidates_evaluated == (after.phase1_candidates
        - before.phase1_candidates) + (after.phase2_candidates - before.phase2_candidates)
    &&& emitted <= after.candidates_evaluated - before.candidates_evaluated <= after.num_advances
        - before.num_advances
    &&& before.num_seeks <= after.num_seeks
}

/// No counter overflows while `n` scorers pass the documents from `floor` on.
pub open spec fn has_room(stats: IdfPruningStats, n: int, floor: int) -> bool {
    &&& stats.num_seeks + seek_budget(n, TERMINATED - floor) + n <= u64::MAX
    &&& stats.num_advances + seek_budget(n, TERMINATED - floor) <= u64::MAX
    &&& stats.candidates_evaluated + (TERMINATED - floor) <= u64::MAX
    &&& stats.candidates_emitted + (TERMINATED - floor) <= u64::MAX
    &&& stats.phase1_candidates + (TERMINATED - floor) <= u64::MAX
    &&& stats.phase2_candidates + (TERMINATED - floor) <= u64::MAX
}

/// There is room for one document when the counters rose by what it takes to visit it.
pub proof fn lemma_has_room(
    before: IdfPruningStats,
    after: IdfPruningStats,
    n: int,
    floor: int,
    later: int,
)
    requires
        has_room(before, n, floor),
        0 <= n,
        0 <= floor < later <= TERMINATED,
        after.num_seeks <= before.num_seeks + seek_budget(n, later - floor),
        after.num_advances <= before.num_advances + n,
        after.candidates_evaluated <= before.candidates_evaluated + 1,
        after.candidates_emitted <= before.candidates_emitted + 1,
        after.phase1_candidates <= before.phase1_candidates + 1,
        after.phase2_candidates <= before.phase2_candidates + 1,
    ensures
        has_room(after, n, later),
{
    lemma_seek_budget(n, TERMINATED - later, TERMINATED - floor);
    let x = later - floor;
    let y = TERMINATED - later;
    assert(2 * n * x + 2 * n * y == 2 * n * (x + y)) by (nonlinear_arith);
}

/// Both loops find the calls of an exhaustive scan.
pub open spec fn run_ends(
    docs: Map<DocId, int>,
    start: Score,
    calls: Seq<Call>,
    threshold: Score,
) -> bool {
    &&& exhaustive_run_rising(docs, start, calls)
    &&& threshold == peak(start, calls, calls.len() as int)
}

} // verus!
