//! Moving scorers to the next document that all of them contain.
use vstd::prelude::*;

use crate::idf_terms::{
    lemma_hits_stepped, lemma_stepped_chain, lemma_stepped_one, lemma_stepped_refl, stepped,
    term_moved, valid_terms, Term,
};
use crate::idf_walk::{lemma_seek_budget, seek_budget};
use crate::pruning::all_ready;
use crate::term_scorer::TermScorer;
use crate::types::{DocId, TERMINATED};

verus! {

/// One of the terms does not contain `doc`.
pub open spec fn misses(scorers: Seq<TermScorer>, terms: Seq<Term>, doc: DocId) -> bool {
    exists|k: int|
        0 <= k < terms.len() && !scorers[(#[trigger] terms[k]).index as int].matches(doc)
}

/// What one round of an alignment comes to.
pub struct Round<'a> {
    pub scorers: Seq<TermScorer<'a>>,
    pub max_doc: DocId,
    pub seeks: int,
    pub ended: bool,
}

/// One round over the terms from place `k` on: whoever is behind `target` seeks it. The round ends
/// early when a scorer has no document left.
pub open spec fn align_round<'a>(
    scorers: Seq<TermScorer<'a>>,
    terms: Seq<Term>,
    target: DocId,
    k: int,
    max_doc: DocId,
    seeks: int,
) -> Round<'a>
    decreases terms.len() - k,
{
    if k >= terms.len() {
        Round { scorers, max_doc, seeks, ended: false }
    } else {
        let i = terms[k].index as int;
        let behind = scorers[i].doc() < target;
        let scorer = if behind {
            scorers[i].sought(target)
        } else {
            scorers[i]
        };
        let now = if behind {
            scorers.update(i, scorer)
        } else {
            scorers
        };
        let count = if behind {
            seeks + 1
        } else {
            seeks
        };
        if behind && scorer.doc() == TERMINATED {
            Round { scorers: now, max_doc, seeks: count, ended: true }
        } else {
            align_round(
                now,
                terms,
                target,
                k + 1,
                if scorer.doc() > max_doc {
                    scorer.doc()
                } else {
                    max_doc
                },
                count,
            )
        }
    }
}

/// What an alignment comes to.
pub struct Alignment<'a> {
    pub scorers: Seq<TermScorer<'a>>,
    pub seeks: int,
    pub found: Option<DocId>,
}

/// Rounds from `target` on: each one is led by the furthest document of the one before, until all
/// scorers stand on it.
pub open spec fn align_rounds<'a>(
    scorers: Seq<TermScorer<'a>>,
    terms: Seq<Term>,
    target: DocId,
) -> Alignment<'a>
    decreases TERMINATED - target,
{
    let round = align_round(scorers, terms, target, 0, target, 0);
    if round.ended {
        Alignment { scorers: round.scorers, seeks: round.seeks, found: None }
    } else if round.max_doc <= target || round.max_doc > TERMINATED {
        Alignment { scorers: round.scorers, seeks: round.seeks, found: Some(target) }
    } else {
        let rest = align_rounds(round.scorers, terms, round.max_doc);
        Alignment { scorers: rest.scorers, seeks: round.seeks + rest.seeks, found: rest.found }
    }
}

/// The alignment of the terms, led by the first one.
pub open spec fn alignment<'a>(scorers: Seq<TermScorer<'a>>, terms: Seq<Term>) -> Alignment<'a> {
    let driver_doc = scorers[terms[0].index as int].doc();
    if driver_doc == TERMINATED {
        Alignment { scorers, seeks: 0, found: None }
    } else {
        align_rounds(scorers, terms, driver_doc)
    }
}

/// A round moves each scorer at most once.
pub proof fn lemma_round_bounds(
    scorers: Seq<TermScorer>,
    terms: Seq<Term>,
    target: DocId,
    k: int,
    max_doc: DocId,
    seeks: int,
)
    requires
        0 <= k <= terms.len(),
    ensures
        seeks <= align_round(scorers, terms, target, k, max_doc, seeks).seeks <= seeks + (
        terms.len() - k),
        max_doc <= align_round(scorers, terms, target, k, max_doc, seeks).max_doc,
    decreases terms.len() - k,
{
    if k < terms.len() {
        let i = terms[k].index as int;
        let behind = scorers[i].doc() < target;
        let scorer = if behind {
            scorers[i].sought(target)
        } else {
            scorers[i]
        };
        let now = if behind {
            scorers.update(i, scorer)
        } else {
            scorers
        };
        lemma_round_bounds(
            now,
            terms,
            target,
            k + 1,
            if scorer.doc() > max_doc {
                scorer.doc()
            } else {
                max_doc
            },
            if behind {
                seeks + 1
            } else {
                seeks
            },
        );
    }
}

/// An alignment takes at most one round per document.
pub proof fn lemma_rounds_bounds(scorers: Seq<TermScorer>, terms: Seq<Term>, target: DocId)
    requires
        target <= TERMINATED,
    ensures
        0 <= align_rounds(scorers, terms, target).seeks,
        align_rounds(scorers, terms, target).found is Some ==> target <= align_rounds(
            scorers,
            terms,
            target,
        ).found->0 <= TERMINATED && align_rounds(scorers, terms, target).seeks <= terms.len() * (
        align_rounds(scorers, terms, target).found->0 - target + 1),
        align_rounds(scorers, terms, target).seeks <= terms.len() * (TERMINATED - target + 1),
    decreases TERMINATED - target,
{
    let n = terms.len() as int;
    let round = align_round(scorers, terms, target, 0, target, 0);
    lemma_round_bounds(scorers, terms, target, 0, target, 0);
    assert(n <= n * (TERMINATED - target + 1)) by (nonlinear_arith)
        requires
            0 <= n,
            target <= TERMINATED,
    ;
    if !round.ended && target < round.max_doc <= TERMINATED {
        let rest = align_rounds(round.scorers, terms, round.max_doc);
        lemma_rounds_bounds(round.scorers, terms, round.max_doc);
        lemma_one_more_round(n, target as int, round.max_doc as int, TERMINATED as int);
        if rest.found is Some {
            lemma_one_more_round(n, target as int, round.max_doc as int, rest.found->0 as int);
        }
    } else if !round.ended {
        assert(n * (target - target + 1) == n) by (nonlinear_arith);
    }
}

proof fn lemma_one_more_round(n: int, target: int, next: int, last: int)
    by (nonlinear_arith)
    requires
        0 <= n,
        target < next <= last,
    ensures
        n + n * (last - next + 1) <= n * (last - target + 1),
{
}

/// An alignment stays within the moves that the passed documents allow.
pub proof fn lemma_alignment_budget(scorers: Seq<TermScorer>, terms: Seq<Term>, n: int)
    requires
        0 < terms.len() <= n,
        scorers[terms[0].index as int].doc() <= TERMINATED,
    ensures
        0 <= alignment(scorers, terms).seeks,
        alignment(scorers, terms).seeks <= seek_budget(
            n,
            TERMINATED - scorers[terms[0].index as int].doc(),
        ) + n,
        alignment(scorers, terms).found is Some ==> alignment(scorers, terms).seeks + n
            <= seek_budget(
            n,
            alignment(scorers, terms).found->0 + 1 - scorers[terms[0].index as int].doc(),
        ),
{
    let doc = scorers[terms[0].index as int].doc();
    if doc < TERMINATED {
        let seeks = alignment(scorers, terms).seeks;
        lemma_rounds_bounds(scorers, terms, doc);
        let len = terms.len() as int;
        let steps = TERMINATED - doc;
        assert(len * (steps + 1) <= 2 * n * steps + n) by (nonlinear_arith)
            requires
                0 <= len <= n,
                0 <= steps,
        ;
        if alignment(scorers, terms).found is Some {
            let passed = alignment(scorers, terms).found->0 - doc + 1;
            assert(len * passed + n <= 2 * n * passed) by (nonlinear_arith)
                requires
                    0 <= len <= n,
                    1 <= passed,
            ;
        }
    } else {
        lemma_seek_budget(n, 0, 0);
    }
}

/// Moves all absolutely essential terms to the next document that contains every one of them.
pub(crate) fn align_absolutely_essential(
    scorers: &mut Vec<TermScorer>,
    abs_essential: &Vec<Term>,
    num_seeks: &mut u64,
) -> (candidate: Option<DocId>)
    requires
        all_ready(old(scorers)@),
        valid_terms(old(scorers)@, abs_essential@),
        0 < abs_essential@.len(),
        *old(num_seeks) + alignment(old(scorers)@, abs_essential@).seeks <= u64::MAX,
    ensures
        all_ready(final(scorers)@),
        candidate == alignment(old(scorers)@, abs_essential@).found,
        final(scorers)@ == alignment(old(scorers)@, abs_essential@).scorers,
        *final(num_seeks) == *old(num_seeks) + alignment(old(scorers)@, abs_essential@).seeks,
        *final(num_seeks) >= *old(num_seeks),
        final(scorers)@.len() == old(scorers)@.len(),
        forall|i: int|
            0 <= i < old(scorers)@.len() && (forall|k: int|
                0 <= k < abs_essential@.len() ==> (#[trigger] abs_essential@[k]).index != i)
                ==> #[trigger] final(scorers)@[i] == old(scorers)@[i],
        match candidate {
            Some(doc) => {
                &&& old(scorers)@[abs_essential@[0].index as int].doc() <= doc < TERMINATED
                &&& stepped(old(scorers)@, final(scorers)@, doc)
                &&& forall|k: int|
                    0 <= k < abs_essential@.len() ==> final(scorers)@[(
                    #[trigger] abs_essential@[k]).index as int].doc() == doc
                &&& forall|d: DocId|
                    old(scorers)@[abs_essential@[0].index as int].doc() <= d < doc
                        ==> #[trigger] misses(old(scorers)@, abs_essential@, d)
            },
            None => forall|d: DocId|
                old(scorers)@[abs_essential@[0].index as int].doc() <= d < TERMINATED
                    ==> #[trigger] misses(old(scorers)@, abs_essential@, d),
        },
{
    let ghost first = scorers@;
    let ghost terms = abs_essential@;
    let ghost whole = alignment(first, terms);
    let ghost start_seeks = *num_seeks as int;
    let driver: usize = abs_essential[0].index;
    let ghost origin = first[driver as int].doc();
    let mut target: DocId = scorers[driver].doc();
    proof {
        first[driver as int].lemma_matches();
        lemma_stepped_refl(scorers@, target);
    }
    if target == TERMINATED {
        return None;
    }
    loop
        invariant
            first == old(scorers)@,
            terms == abs_essential@,
            start_seeks == *old(num_seeks),
            all_ready(first),
            all_ready(scorers@),
            valid_terms(first, terms),
            valid_terms(scorers@, terms),
            0 < terms.len(),
            driver == terms[0].index,
            origin == first[driver as int].doc(),
            origin <= target <= TERMINATED,
            scorers@[driver as int].doc() < TERMINATED,
            stepped(first, scorers@, target),
            forall|d: DocId| origin <= d < target ==> #[trigger] misses(first, terms, d),
            forall|i: int|
                0 <= i < first.len() && (forall|k: int|
                    0 <= k < terms.len() ==> (#[trigger] terms[k]).index != i)
                    ==> #[trigger] scorers@[i] == first[i],
            whole == alignment(first, terms),
            whole.scorers == align_rounds(scorers@, terms, target).scorers,
            whole.found == align_rounds(scorers@, terms, target).found,
            start_seeks + whole.seeks == *num_seeks + align_rounds(scorers@, terms, target).seeks,
            start_seeks <= *num_seeks,
            start_seeks + whole.seeks <= u64::MAX,
        decreases TERMINATED - target,
    {
        let mut max_doc: DocId = target;
        let mut i: usize = 0;
        let ghost mut holder: int = 0;
        let ghost before_round = *num_seeks as int;
        let ghost round = align_round(scorers@, terms, target, 0, target, 0);
        let ghost rest = align_rounds(scorers@, terms, target);
        proof {
            lemma_rounds_bounds(scorers@, terms, target);
            lemma_round_bounds(scorers@, terms, target, 0, target, 0);
            if !round.ended && target < round.max_doc <= TERMINATED {
                lemma_rounds_bounds(round.scorers, terms, round.max_doc);
            }
            assert(round.seeks <= rest.seeks);
        }
        while i < abs_essential.len()
            invariant
                first == old(scorers)@,
                terms == abs_essential@,
                all_ready(first),
                all_ready(scorers@),
                scorers@.len() == first.len(),
                valid_terms(first, terms),
                valid_terms(scorers@, terms),
                0 < terms.len(),
                driver == terms[0].index,
                origin == first[driver as int].doc(),
                origin <= target <= TERMINATED,
                scorers@[driver as int].doc() < TERMINATED,
                stepped(first, scorers@, target),
                forall|d: DocId| origin <= d < target ==> #[trigger] misses(first, terms, d),
                forall|i: int|
                    0 <= i < first.len() && (forall|k: int|
                        0 <= k < terms.len() ==> (#[trigger] terms[k]).index != i)
                        ==> #[trigger] scorers@[i] == first[i],
                i <= terms.len(),
                target <= max_doc <= TERMINATED,
                forall|k: int|
                    0 <= k < i ==> target <= scorers@[(#[trigger] terms[k]).index as int].doc()
                        <= max_doc,
                max_doc > target ==> 0 <= holder < i
                    && scorers@[terms[holder].index as int].doc() == max_doc,
                round == align_round(
                    scorers@,
                    terms,
                    target,
                    i as int,
                    max_doc,
                    *num_seeks - before_round,
                ),
                before_round <= *num_seeks,
                start_seeks <= before_round,
                start_seeks == *old(num_seeks),
                before_round + round.seeks <= u64::MAX,
                round.ended ==> before_round + round.seeks == start_seeks + whole.seeks
                    && whole.scorers == round.scorers && whole.found is None,
                whole == alignment(first, terms),
            decreases terms.len() - i,
        {
            let index: usize = abs_essential[i].index;
            let ghost before = scorers@;
            let mut scorer: TermScorer = scorers[index];
            proof {
                scorer.lemma_matches();
                lemma_round_bounds(
                    scorers@,
                    terms,
                    target,
                    i as int,
                    max_doc,
                    *num_seeks - before_round,
                );
            }
            if scorer.doc() < target {
                proof {
                    let now = before.update(index as int, scorer.sought(target));
                    let doc = scorer.sought(target).doc();
                    lemma_round_bounds(
                        now,
                        terms,
                        target,
                        i + 1,
                        if doc > max_doc {
                            doc
                        } else {
                            max_doc
                        },
                        *num_seeks - before_round + 1,
                    );
                }
                let new_doc: DocId = scorer.seek(target);
                scorers[index] = scorer;
                *num_seeks = *num_seeks + 1;
                proof {
                    scorer.lemma_matches();
                    lemma_stepped_one(before, index as int, scorer, target);
                    lemma_stepped_chain(first, before, scorers@, target, target);
                    lemma_hits_stepped(before, scorers@, terms, target);
                    assert forall|k: int| 0 <= k < i implies scorers@[(
                    #[trigger] terms[k]).index as int] == before[terms[k].index as int] by {
                        assert(before[terms[k].index as int].doc() >= target);
                    }
                    assert forall|n: int|
                        0 <= n < first.len() && (forall|k: int|
                            0 <= k < terms.len() ==> (#[trigger] terms[k]).index
                                != n) implies #[trigger] scorers@[n] == first[n] by {
                        assert(terms[i as int].index != n);
                        assert(before[n] == first[n]);
                    }
                }
                if new_doc == TERMINATED {
                    proof {
                        assert forall|d: DocId| origin <= d < TERMINATED implies #[trigger] misses(
                            first,
                            terms,
                            d,
                        ) by {
                            if d >= target {
                                assert(term_moved(
                                    first[index as int],
                                    scorers@[index as int],
                                    target,
                                ));
                                assert(!scorers@[index as int].matches(d));
                                assert(!first[terms[i as int].index as int].matches(d));
                            }
                        }
                    }
                    return None;
                }
                if new_doc > max_doc {
                    max_doc = new_doc;
                    proof {
                        holder = i as int;
                    }
                }
            } else if scorer.doc() > max_doc {
                max_doc = scorer.doc();
                proof {
                    holder = i as int;
                }
            }
            i = i + 1;
        }
        if max_doc == target {
            proof {
                assert(scorers@[terms[0].index as int].doc() == target);
            }
            return Some(target);
        }
        proof {
            let h = terms[holder].index as int;
            scorers@[h].lemma_matches();
            lemma_stepped_chain(first, scorers@, scorers@, target, max_doc);
            assert forall|d: DocId| origin <= d < max_doc implies #[trigger] misses(
                first,
                terms,
                d,
            ) by {
                if d >= target {
                    assert(term_moved(first[h], scorers@[h], target));
                    assert(!scorers@[h].matches(d));
                    assert(!first[terms[holder].index as int].matches(d));
                }
            }
        }
        target = max_doc;
    }
}

} // verus!
