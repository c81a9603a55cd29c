//! Moving the scorers of terms over documents.
use vstd::prelude::*;

use crate::idf_terms::{
    disjoint_terms, distinct_terms, hit_fn, hits, idf_fn, lemma_hits_bounds, lemma_hits_stepped,
    lemma_standing_match, lemma_stepped_chain, lemma_stepped_one, lemma_stepped_refl,
    lemma_weight_nonneg, stand_from, stepped, term_moved, untouched, valid_terms, weight, Term,
};
use crate::pruning::all_ready;
use crate::sorting::{lemma_move_permutes, lemma_swap_permutes};
use crate::sums::{
    count_by, indicator, lemma_count_bounds, lemma_sum_permutation, lemma_sum_split, lemma_sum_take,
    lemma_sum_take_le, lemma_sum_zero, sum_by,
};
use crate::term_scorer::TermScorer;
use crate::types::{DocId, Score, TERMINATED};

verus! {

/// Puts the term with the `n`-th smallest document in place `n`. The terms before it stand at
/// that document or before, those after it stand there or later.
pub(crate) fn select_nth(essential: &mut Vec<Term>, scorers: &Vec<TermScorer>, n: usize)
    requires
        valid_terms(scorers@, old(essential)@),
        n < old(essential)@.len(),
    ensures
        final(essential)@.to_multiset() == old(essential)@.to_multiset(),
        final(essential)@.len() == old(essential)@.len(),
        valid_terms(scorers@, final(essential)@),
        forall|j: int|
            0 <= j <= n ==> scorers@[(#[trigger] final(essential)@[j]).index as int].doc()
                <= scorers@[final(essential)@[n as int].index as int].doc(),
        forall|j: int|
            n <= j < final(essential)@.len() ==> scorers@[(
            #[trigger] final(essential)@[j]).index as int].doc()
                >= scorers@[final(essential)@[n as int].index as int].doc(),
{
    let mut i: usize = 0;
    while i <= n
        invariant
            i <= n + 1,
            n < essential.len(),
            essential@.len() == old(essential)@.len(),
            essential@.to_multiset() == old(essential)@.to_multiset(),
            valid_terms(scorers@, essential@),
            forall|a: int, b: int|
                0 <= a < i && a <= b < essential@.len() ==> scorers@[(
                #[trigger] essential@[a]).index as int].doc() <= scorers@[(
                #[trigger] essential@[b]).index as int].doc(),
        decreases n + 1 - i,
    {
        let mut least: usize = i;
        let mut j: usize = i + 1;
        while j < essential.len()
            invariant
                i <= n,
                i < j <= essential@.len(),
                i <= least < j,
                valid_terms(scorers@, essential@),
                forall|b: int|
                    i <= b < j ==> scorers@[essential@[least as int].index as int].doc()
                        <= scorers@[(#[trigger] essential@[b]).index as int].doc(),
            decreases essential@.len() - j,
        {
            if scorers[essential[j].index].doc() < scorers[essential[least].index].doc() {
                least = j;
            }
            j = j + 1;
        }
        let ghost before = essential@;
        let term: Term = essential.remove(least);
        essential.insert(i, term);
        proof {
            let after = essential@;
            lemma_move_permutes(before, least as int, i as int);
            assert forall|b: int| 0 <= b < after.len() implies #[trigger] after[b] == (if b < i {
                before[b]
            } else if b == i {
                before[least as int]
            } else if b <= least {
                before[b - 1]
            } else {
                before[b]
            }) by {}
            assert(valid_terms(scorers@, after));
            assert forall|a: int, b: int|
                0 <= a < i + 1 && a <= b < after.len() implies scorers@[(
            #[trigger] after[a]).index as int].doc() <= scorers@[(
            #[trigger] after[b]).index as int].doc() by {
                let from = if b < i {
                    b
                } else if b == i {
                    least as int
                } else if b <= least {
                    b - 1
                } else {
                    b
                };
                assert(after[b] == before[from]);
                if a < i {
                    assert(after[a] == before[a]);
                } else {
                    assert(after[a] == before[least as int]);
                }
            }
        }
        i = i + 1;
    }
}

/// One of the terms belongs to scorer `i`.
pub open spec fn is_listed(terms: Seq<Term>, i: int) -> bool {
    exists|k: int| 0 <= k < terms.len() && (#[trigger] terms[k]).index == i
}

/// The term's scorer stands before `doc`.
pub open spec fn stands_before(scorers: Seq<TermScorer>, doc: int) -> spec_fn(Term) -> bool {
    |t: Term| scorers[t.index as int].doc() < doc
}

/// The scorers after those of the terms that are behind `doc` have sought it.
pub open spec fn caught_up<'a>(
    scorers: Seq<TermScorer<'a>>,
    terms: Seq<Term>,
    doc: DocId,
) -> Seq<TermScorer<'a>> {
    Seq::new(
        scorers.len(),
        |i: int|
            if is_listed(terms, i) && scorers[i].doc() < doc {
                scorers[i].sought(doc)
            } else {
                scorers[i]
            },
    )
}

/// The scorers after those of the terms that stand on `doc` were advanced.
pub open spec fn moved_past<'a>(
    scorers: Seq<TermScorer<'a>>,
    terms: Seq<Term>,
    doc: DocId,
) -> Seq<TermScorer<'a>> {
    Seq::new(
        scorers.len(),
        |i: int|
            if is_listed(terms, i) && scorers[i].doc() == doc {
                scorers[i].advanced()
            } else {
                scorers[i]
            },
    )
}

/// Moves the first `count` terms to `pivot`, if they are behind it.
pub(crate) fn seek_lagging(
    scorers: &mut Vec<TermScorer>,
    essential: &Vec<Term>,
    count: usize,
    pivot: DocId,
    num_seeks: &mut u64,
)
    requires
        all_ready(old(scorers)@),
        valid_terms(old(scorers)@, essential@),
        count <= essential@.len(),
        forall|j: int|
            count <= j < essential@.len() ==> old(scorers)@[(
            #[trigger] essential@[j]).index as int].doc() >= pivot,
        pivot <= TERMINATED,
        *old(num_seeks) + count <= u64::MAX,
    ensures
        all_ready(final(scorers)@),
        stepped(old(scorers)@, final(scorers)@, pivot),
        stand_from(final(scorers)@, essential@, pivot as int),
        distinct_terms(essential@) ==> final(scorers)@ == caught_up(old(scorers)@, essential@, pivot),
        distinct_terms(essential@) ==> *final(num_seeks) == *old(num_seeks) + count_by(
            essential@,
            stands_before(old(scorers)@, pivot as int),
        ),
        *old(num_seeks) <= *final(num_seeks) <= *old(num_seeks) + count,
{
    let ghost first = scorers@;
    let ghost behind = stands_before(first, pivot as int);
    let mut i: usize = 0;
    proof {
        lemma_stepped_refl(scorers@, pivot);
    }
    while i < count
        invariant
            i <= count <= essential@.len(),
            all_ready(scorers@),
            valid_terms(scorers@, essential@),
            stepped(old(scorers)@, scorers@, pivot),
            forall|j: int|
                0 <= j < essential@.len() && (j < i || count <= j) ==> scorers@[(
                #[trigger] essential@[j]).index as int].doc() >= pivot,
            pivot <= TERMINATED,
            *old(num_seeks) <= *num_seeks <= *old(num_seeks) + i,
            *old(num_seeks) + count <= u64::MAX,
            first == old(scorers)@,
            behind == stands_before(first, pivot as int),
            scorers@.len() == first.len(),
            valid_terms(first, essential@),
            distinct_terms(essential@) ==> *num_seeks == *old(num_seeks) + count_by(
                essential@.take(i as int),
                behind,
            ),
            distinct_terms(essential@) ==> forall|k: int|
                i <= k < essential@.len() ==> scorers@[(#[trigger] essential@[k]).index as int]
                    == first[essential@[k].index as int],
            forall|n: int|
                0 <= n < first.len() ==> #[trigger] scorers@[n] == first[n] || first[n].doc()
                    < pivot && scorers@[n] == first[n].sought(pivot) && scorers@[n].doc() >= pivot
                    && is_listed(essential@, n),
        decreases count - i,
    {
        let index: usize = essential[i].index;
        let ghost before = scorers@;
        let mut scorer: TermScorer = scorers[index];
        proof {
            lemma_sum_take(essential@, i as int, indicator(behind));
            assert(essential@[i as int].index == index);
            assert(is_listed(essential@, index as int));
        }
        if scorer.doc() < pivot {
            scorer.seek(pivot);
            scorers[index] = scorer;
            *num_seeks = *num_seeks + 1;
            proof {
                lemma_stepped_one(before, index as int, scorer, pivot);
                lemma_stepped_chain(old(scorers)@, before, scorers@, pivot, pivot);
                lemma_hits_stepped(before, scorers@, essential@, pivot);
                assert forall|j: int|
                    0 <= j < essential@.len() && (j < i + 1 || count <= j) implies scorers@[(
                #[trigger] essential@[j]).index as int].doc() >= pivot by {
                    if essential@[j].index != index {
                        assert(scorers@[essential@[j].index as int]
                            == before[essential@[j].index as int]);
                    }
                }
                assert(before[index as int] == first[index as int]);
            }
        }
        proof {
            if distinct_terms(essential@) {
                assert forall|k: int| i + 1 <= k < essential@.len() implies scorers@[(
                #[trigger] essential@[k]).index as int] == first[essential@[k].index as int] by {
                    assert(essential@[i as int].index != essential@[k].index);
                    assert(before[essential@[k].index as int] == first[essential@[k].index as int]);
                }
            }
        }
        i = i + 1;
    }
    proof {
        if distinct_terms(essential@) {
            let tail = essential@.skip(count as int);
            lemma_sum_split(essential@, count as int, indicator(behind));
            assert forall|j: int| 0 <= j < tail.len() implies indicator(behind)(
                #[trigger] tail[j],
            ) == 0 by {
                assert(tail[j] == essential@[count + j]);
            }
            lemma_sum_zero(tail, indicator(behind));
            assert forall|n: int| 0 <= n < first.len() implies #[trigger] scorers@[n]
                == caught_up(first, essential@, pivot)[n] by {
                if is_listed(essential@, n) && first[n].doc() < pivot {
                    let k = choose|k: int|
                        0 <= k < essential@.len() && (#[trigger] essential@[k]).index == n;
                    assert(scorers@[essential@[k].index as int].doc() >= pivot);
                }
            }
            assert(scorers@ =~= caught_up(first, essential@, pivot));
        }
    }
}

/// The term contains `doc`.
pub open spec fn contains_doc(scorers: Seq<TermScorer>, doc: DocId) -> spec_fn(Term) -> bool {
    |t: Term| scorers[t.index as int].matches(doc)
}

/// Adds up the weights of the terms that stand on `pivot`, and advances them. Also says whether a
/// term has no document left.
pub(crate) fn score_and_advance(
    scorers: &mut Vec<TermScorer>,
    essential: &Vec<Term>,
    pivot: DocId,
    num_advances: &mut u64,
) -> (result: (Score, bool))
    requires
        all_ready(old(scorers)@),
        valid_terms(old(scorers)@, essential@),
        distinct_terms(essential@),
        weight(essential@) <= Score::MAX,
        stand_from(old(scorers)@, essential@, pivot as int),
        pivot < TERMINATED,
        *old(num_advances) + essential@.len() <= u64::MAX,
    ensures
        all_ready(final(scorers)@),
        result.0 == hits(old(scorers)@, essential@, pivot),
        result.1 == (exists|k: int|
            0 <= k < essential@.len() && final(scorers)@[(
            #[trigger] essential@[k]).index as int].doc() == TERMINATED),
        stepped(old(scorers)@, final(scorers)@, (pivot + 1) as DocId),
        stand_from(final(scorers)@, essential@, pivot + 1),
        final(scorers)@ == moved_past(old(scorers)@, essential@, pivot),
        forall|other: Seq<Term>| #[trigger]
            disjoint_terms(essential@, other) && valid_terms(old(scorers)@, other) ==> untouched(
                old(scorers)@,
                final(scorers)@,
                other,
            ),
        *final(num_advances) == *old(num_advances) + count_by(
            essential@,
            contains_doc(old(scorers)@, pivot),
        ),
{
    let ghost first = scorers@;
    let ghost next = (pivot + 1) as DocId;
    let mut score: Score = 0;
    let mut any_terminated: bool = false;
    let mut i: usize = 0;
    proof {
        lemma_stepped_refl(scorers@, next);
    }
    while i < essential.len()
        invariant
            first == old(scorers)@,
            next == pivot + 1,
            pivot < TERMINATED,
            i <= essential@.len(),
            all_ready(first),
            all_ready(scorers@),
            valid_terms(first, essential@),
            valid_terms(scorers@, essential@),
            distinct_terms(essential@),
            weight(essential@) <= Score::MAX,
            stand_from(first, essential@, pivot as int),
            stepped(first, scorers@, next),
            score == sum_by(essential@.take(i as int), hit_fn(first, pivot)),
            forall|k: int|
                i <= k < essential@.len() ==> scorers@[(#[trigger] essential@[k]).index as int]
                    == first[essential@[k].index as int],
            forall|n: int|
                0 <= n < first.len() && (forall|k: int|
                    0 <= k < essential@.len() ==> (#[trigger] essential@[k]).index != n)
                    ==> #[trigger] scorers@[n] == first[n],
            forall|k: int|
                0 <= k < i ==> scorers@[(#[trigger] essential@[k]).index as int] == (
                if first[essential@[k].index as int].doc() == pivot {
                    first[essential@[k].index as int].advanced()
                } else {
                    first[essential@[k].index as int]
                }),
            forall|k: int|
                0 <= k < i ==> scorers@[(#[trigger] essential@[k]).index as int].doc() > pivot,
            any_terminated == (exists|k: int|
                0 <= k < i && scorers@[(#[trigger] essential@[k]).index as int].doc()
                    == TERMINATED),
            *num_advances == *old(num_advances) + count_by(
                essential@.take(i as int),
                contains_doc(first, pivot),
            ),
            *old(num_advances) + essential@.len() <= u64::MAX,
        decreases essential@.len() - i,
    {
        let term: Term = essential[i];
        let index: usize = term.index;
        let ghost before = scorers@;
        let mut scorer: TermScorer = scorers[index];
        proof {
            assert(scorer == first[index as int]);
            assert(first[index as int].doc() >= pivot);
            lemma_standing_match(scorer, pivot);
            lemma_sum_take(essential@, i as int, hit_fn(first, pivot));
            lemma_sum_take(essential@, i as int, indicator(contains_doc(first, pivot)));
            lemma_count_bounds(essential@.take(i as int), contains_doc(first, pivot));
            lemma_partial_hits(first, essential@, pivot, i as int);
            lemma_partial_hits(first, essential@, pivot, i + 1);
        }
        if scorer.doc() == pivot {
            score = score + term.idf;
            scorer.advance();
            scorers[index] = scorer;
            *num_advances = *num_advances + 1;
            proof {
                lemma_stepped_one(before, index as int, scorer, next);
                lemma_stepped_chain(first, before, scorers@, next, next);
                lemma_hits_stepped(before, scorers@, essential@, next);
            }
        }
        if scorer.doc() == TERMINATED {
            any_terminated = true;
        }
        proof {
            assert(scorers@[index as int] == scorer);
            assert forall|k: int| 0 <= k < essential@.len() && k != i implies scorers@[(
            #[trigger] essential@[k]).index as int] == before[essential@[k].index as int] by {
                if k < i {
                    assert(essential@[k].index != essential@[i as int].index);
                } else {
                    assert(essential@[i as int].index != essential@[k].index);
                }
            }
            assert(essential@[i as int] == term);
            if any_terminated {
                if scorer.doc() != TERMINATED {
                    let k = choose|k: int|
                        0 <= k < i && before[(#[trigger] essential@[k]).index as int].doc()
                            == TERMINATED;
                    assert(scorers@[essential@[k].index as int].doc() == TERMINATED);
                } else {
                    assert(scorers@[essential@[i as int].index as int].doc() == TERMINATED);
                }
            } else {
                assert forall|k: int| 0 <= k < i + 1 implies scorers@[(
                #[trigger] essential@[k]).index as int].doc() != TERMINATED by {
                    if k < i {
                        assert(before[essential@[k].index as int].doc() != TERMINATED);
                    }
                }
            }
        }
        i = i + 1;
    }
    proof {
        assert(essential@.take(i as int) =~= essential@);
        assert forall|n: int| 0 <= n < first.len() implies #[trigger] scorers@[n] == moved_past(
            first,
            essential@,
            pivot,
        )[n] by {
            if is_listed(essential@, n) {
                let k = choose|k: int|
                    0 <= k < essential@.len() && (#[trigger] essential@[k]).index == n;
                assert(scorers@[essential@[k].index as int] == scorers@[n]);
            } else {
                assert forall|k: int| 0 <= k < essential@.len() implies (
                #[trigger] essential@[k]).index != n by {
                    if essential@[k].index == n {
                        assert(is_listed(essential@, n));
                    }
                }
            }
        }
        assert(scorers@ =~= moved_past(first, essential@, pivot));
        assert forall|other: Seq<Term>| #[trigger]
            disjoint_terms(essential@, other) && valid_terms(first, other) implies untouched(
            first,
            scorers@,
            other,
        ) by {
            assert forall|k: int| 0 <= k < other.len() implies scorers@[(
            #[trigger] other[k]).index as int] == first[other[k].index as int] by {
                let n = other[k].index as int;
                assert forall|j: int| 0 <= j < essential@.len() implies (
                #[trigger] essential@[j]).index != n by {}
                assert(scorers@[n] == first[n]);
            }
        }
    }
    (score, any_terminated)
}

/// What some of the terms give to a document is a score.
pub proof fn lemma_partial_hits(scorers: Seq<TermScorer>, terms: Seq<Term>, doc: DocId, i: int)
    requires
        valid_terms(scorers, terms),
        0 <= i <= terms.len(),
    ensures
        0 <= sum_by(terms.take(i), hit_fn(scorers, doc)) <= weight(terms),
{
    let part = terms.take(i);
    assert(valid_terms(scorers, part)) by {
        assert forall|k: int| 0 <= k < part.len() implies part[k] == #[trigger] terms[k] by {}
    }
    lemma_hits_bounds(scorers, part, doc);
    assert forall|n: int| 0 <= n < terms.len() implies 0 <= idf_fn()(#[trigger] terms[n]) by {}
    lemma_sum_take_le(terms, i, terms.len() as int, idf_fn());
    assert(terms.take(terms.len() as int) =~= terms);
}

pub open spec fn is_live_term(scorers: Seq<TermScorer>) -> spec_fn(Term) -> bool {
    |t: Term| scorers[t.index as int].doc() != TERMINATED
}

pub open spec fn is_spent_term(scorers: Seq<TermScorer>) -> spec_fn(Term) -> bool {
    |t: Term| scorers[t.index as int].doc() == TERMINATED
}

/// Keeps the terms that have documents left.
pub(crate) fn retain_live(essential: &mut Vec<Term>, scorers: &Vec<TermScorer>)
    requires
        valid_terms(scorers@, old(essential)@),
    ensures
        final(essential)@ == old(essential)@.filter(is_live_term(scorers@)),
{
    let ghost all = essential@;
    let mut live: Vec<Term> = Vec::new();
    let mut i: usize = 0;
    proof {
        reveal(Seq::filter);
        assert(all.take(0).filter(is_live_term(scorers@)) =~= Seq::empty());
    }
    while i < essential.len()
        invariant
            i <= essential@.len(),
            essential@ == all,
            valid_terms(scorers@, all),
            live@ == all.take(i as int).filter(is_live_term(scorers@)),
        decreases essential@.len() - i,
    {
        proof {
            reveal(Seq::filter);
            assert(all.take(i + 1).drop_last() =~= all.take(i as int));
        }
        let term: Term = essential[i];
        if scorers[term.index].doc() != TERMINATED {
            live.push(term);
        }
        i = i + 1;
    }
    proof {
        assert(all.take(i as int) =~= all);
    }
    *essential = live;
}

/// What scoring some terms comes to: where the scorers are left, the score, and how often they were
/// moved.
pub struct Scored<'a> {
    pub scorers: Seq<TermScorer<'a>>,
    pub score: int,
    pub seeks: int,
}

/// Adds the weights of the terms that contain `doc` to `score`, one after the other, until what is
/// left cannot lift it above the threshold. A term that has passed `doc` is not moved.
pub open spec fn score_terms<'a>(
    scorers: Seq<TermScorer<'a>>,
    terms: Seq<Term>,
    doc: DocId,
    threshold: Score,
    score: int,
) -> Scored<'a>
    decreases terms.len(),
{
    if terms.len() == 0 || score + weight(terms) <= threshold {
        Scored { scorers, score, seeks: 0 }
    } else {
        let i = terms[0].index as int;
        let rest = terms.skip(1);
        if scorers[i].doc() > doc {
            score_terms(scorers, rest, doc, threshold, score)
        } else {
            let scorer = scorers[i].sought(doc);
            let more = if scorer.doc() == doc {
                score + terms[0].idf
            } else {
                score
            };
            let after = score_terms(scorers.update(i, scorer), rest, doc, threshold, more);
            Scored { scorers: after.scorers, score: after.score, seeks: after.seeks + 1 }
        }
    }
}

/// The terms from the heaviest one on, which is the last one or the first one.
pub open spec fn from_heaviest(terms: Seq<Term>, heaviest_last: bool) -> Seq<Term> {
    if heaviest_last {
        terms.reverse()
    } else {
        terms
    }
}

/// Adds the weights of the terms that contain `candidate` to `base`, the heaviest term first,
/// which is the last one or the first one. Stops as soon as what is left cannot lift the score
/// above the threshold.
pub(crate) fn score_lazily(
    scorers: &mut Vec<TermScorer>,
    terms: &Vec<Term>,
    heaviest_last: bool,
    terms_weight: Score,
    candidate: DocId,
    threshold: Score,
    base: Score,
    num_seeks: &mut u64,
) -> (score: Score)
    requires
        all_ready(old(scorers)@),
        valid_terms(old(scorers)@, terms@),
        terms_weight == weight(terms@),
        0 <= base,
        base + weight(terms@) <= Score::MAX,
        candidate < TERMINATED,
        *old(num_seeks) + terms@.len() <= u64::MAX,
    ensures
        all_ready(final(scorers)@),
        stepped(old(scorers)@, final(scorers)@, candidate),
        base <= score <= base + hits(old(scorers)@, terms@, candidate),
        base + hits(old(scorers)@, terms@, candidate) > threshold ==> score == base + hits(
            old(scorers)@,
            terms@,
            candidate,
        ),
        *old(num_seeks) <= *final(num_seeks) <= *old(num_seeks) + terms@.len(),
        ({
            let scored = score_terms(
                old(scorers)@,
                from_heaviest(terms@, heaviest_last),
                candidate,
                threshold,
                base as int,
            );
            &&& final(scorers)@ == scored.scorers
            &&& score == scored.score
            &&& *final(num_seeks) == *old(num_seeks) + scored.seeks
        }),
{
    let ghost first = scorers@;
    let ghost f = hit_fn(first, candidate);
    let ghost order = from_heaviest(terms@, heaviest_last);
    let ghost whole = score_terms(first, order, candidate, threshold, base as int);
    let mut score: Score = base;
    let mut remaining: Score = terms_weight;
    let len: usize = terms.len();
    let mut i: usize = 0;
    proof {
        lemma_stepped_refl(scorers@, candidate);
        lemma_weight_nonneg(first, terms@);
        terms@.lemma_reverse_to_multiset();
        lemma_sum_permutation(order, terms@, idf_fn());
        lemma_sum_permutation(order, terms@, f);
        assert(order.take(0) =~= Seq::empty());
        assert(order.skip(0) =~= order);
    }
    while i < len && score + remaining > threshold
        invariant
            first == old(scorers)@,
            f == hit_fn(first, candidate),
            order == from_heaviest(terms@, heaviest_last),
            whole.scorers == score_terms(
                scorers@,
                order.skip(i as int),
                candidate,
                threshold,
                score as int,
            ).scorers,
            whole.score == score_terms(
                scorers@,
                order.skip(i as int),
                candidate,
                threshold,
                score as int,
            ).score,
            *old(num_seeks) + whole.seeks == *num_seeks + score_terms(
                scorers@,
                order.skip(i as int),
                candidate,
                threshold,
                score as int,
            ).seeks,
            i <= len == terms@.len(),
            all_ready(first),
            all_ready(scorers@),
            valid_terms(first, terms@),
            valid_terms(scorers@, terms@),
            valid_terms(first, order),
            stepped(first, scorers@, candidate),
            candidate < TERMINATED,
            0 <= base,
            base + weight(terms@) <= Score::MAX,
            remaining == weight(order.skip(i as int)),
            0 <= remaining,
            score == base + sum_by(order.take(i as int), f),
            base <= score,
            score + remaining <= Score::MAX,
            *old(num_seeks) <= *num_seeks <= *old(num_seeks) + i,
            *old(num_seeks) + len <= u64::MAX,
        decreases len - i,
    {
        let at: usize = if heaviest_last {
            len - 1 - i
        } else {
            i
        };
        let term: Term = terms[at];
        remaining = remaining - term.idf;
        proof {
            assert(order[i as int] == term);
            assert(order.skip(i as int)[0] == term);
            assert(order.skip(i as int).skip(1) =~= order.skip(i + 1));
            lemma_sum_split(order, i as int, idf_fn());
            lemma_sum_split(order, i + 1, idf_fn());
            lemma_sum_take(order, i as int, idf_fn());
            lemma_sum_take(order, i as int, f);
            assert(valid_terms(first, order.skip(i + 1))) by {
                assert forall|k: int| 0 <= k < len - (i + 1) implies order.skip(i + 1)[k]
                    == #[trigger] order[k + i + 1] by {}
            }
            lemma_weight_nonneg(first, order.skip(i + 1));
            assert(term_moved(first[term.index as int], scorers@[term.index as int], candidate));
            assert(scorers@[term.index as int].matches(candidate)
                <==> first[term.index as int].matches(candidate));
            scorers@[term.index as int].lemma_matches();
        }
        let ghost before = scorers@;
        let mut scorer: TermScorer = scorers[term.index];
        if scorer.doc() <= candidate {
            let doc: DocId = scorer.seek(candidate);
            scorers[term.index] = scorer;
            *num_seeks = *num_seeks + 1;
            proof {
                lemma_standing_match(scorer, candidate);
                assert(scorer.matches(candidate) <==> before[term.index as int].matches(candidate));
                lemma_stepped_one(before, term.index as int, scorer, candidate);
                lemma_stepped_chain(first, before, scorers@, candidate, candidate);
                lemma_hits_stepped(before, scorers@, terms@, candidate);
            }
            if doc == candidate {
                score = score + term.idf;
            }
        }
        i = i + 1;
    }
    proof {
        lemma_sum_split(order, i as int, f);
        let part = order.skip(i as int);
        assert(valid_terms(first, part)) by {
            assert forall|k: int| 0 <= k < len - i implies part[k] == #[trigger] order[k + i] by {}
        }
        lemma_hits_bounds(first, part, candidate);
        if i == len {
            assert(part =~= Seq::empty());
        }
    }
    score
}

/// How often `n` scorers can be moved while `steps` documents are passed.
pub open spec fn seek_budget(n: int, steps: int) -> int {
    2 * n * steps
}

pub proof fn lemma_seek_budget(n: int, steps: int, more: int)
    requires
        0 <= n,
        0 <= steps <= more,
    ensures
        0 <= seek_budget(n, steps),
        seek_budget(n, steps) <= seek_budget(n, more),
        steps < more ==> seek_budget(n, steps) + 2 * n <= seek_budget(n, more),
{
    assert(0 <= 2 * n * steps) by (nonlinear_arith)
        requires
            0 <= n,
            0 <= steps,
    ;
    assert(2 * n * steps <= 2 * n * more) by (nonlinear_arith)
        requires
            0 <= n,
            steps <= more,
    ;
    if steps < more {
        assert(2 * n * steps + 2 * n <= 2 * n * more) by (nonlinear_arith)
            requires
                0 <= n,
                steps + 1 <= more,
        ;
    }
}

/// All scorers of a segment can be moved over all its documents.
pub proof fn lemma_whole_budget(n: int)
    requires
        0 <= n <= u32::MAX,
    ensures
        0 <= seek_budget(n, TERMINATED as int),
        seek_budget(n, TERMINATED as int) + n <= u64::MAX,
{
    assert(0 <= 2 * n * 0x7fff_ffff + n <= 2 * 0xffff_ffff * 0x7fff_ffff + 0xffff_ffff)
        by (nonlinear_arith)
        requires
            0 <= n <= 0xffff_ffff,
    ;
}

/// The place of the first of the terms with the fewest postings.
pub open spec fn is_driver(scorers: Seq<TermScorer>, terms: Seq<Term>, place: int) -> bool {
    &&& 0 <= place < terms.len()
    &&& forall|k: int|
        0 <= k < terms.len() ==> scorers[terms[place].index as int].list.docs@.len()
            <= scorers[(#[trigger] terms[k]).index as int].list.docs@.len()
    &&& forall|k: int|
        0 <= k < place ==> scorers[terms[place].index as int].list.docs@.len() < scorers[(
        #[trigger] terms[k]).index as int].list.docs@.len()
}

/// Exchanges the first term with the first of those that have the fewest postings.
pub(crate) fn choose_driver(abs_essential: &mut Vec<Term>, scorers: &Vec<TermScorer>)
    requires
        valid_terms(scorers@, old(abs_essential)@),
        0 < old(abs_essential)@.len(),
    ensures
        final(abs_essential)@.to_multiset() == old(abs_essential)@.to_multiset(),
        final(abs_essential)@.len() == old(abs_essential)@.len(),
        exists|place: int| #[trigger]
            is_driver(scorers@, old(abs_essential)@, place) && final(abs_essential)@ == old(abs_essential)@.update(place, old(abs_essential)@[0]).update(0, old(abs_essential)@[place]),
{
    let mut driver_pos: usize = 0;
    let mut i: usize = 1;
    while i < abs_essential.len()
        invariant
            *abs_essential == *old(abs_essential),
            valid_terms(scorers@, abs_essential@),
            1 <= i <= abs_essential@.len(),
            driver_pos < i,
            forall|k: int|
                0 <= k < i
                    ==> scorers@[abs_essential@[driver_pos as int].index as int].list.docs@.len()
                    <= scorers@[(#[trigger] abs_essential@[k]).index as int].list.docs@.len(),
            forall|k: int|
                0 <= k < driver_pos
                    ==> scorers@[abs_essential@[driver_pos as int].index as int].list.docs@.len()
                    < scorers@[(#[trigger] abs_essential@[k]).index as int].list.docs@.len(),
        decreases abs_essential@.len() - i,
    {
        if scorers[abs_essential[i].index].size_hint()
            < scorers[abs_essential[driver_pos].index].size_hint() {
            driver_pos = i;
        }
        i = i + 1;
    }
    let ghost before = abs_essential@;
    let driver: Term = abs_essential[driver_pos];
    let displaced: Term = abs_essential[0];
    abs_essential.set(driver_pos, displaced);
    abs_essential.set(0, driver);
    proof {
        assert(is_driver(scorers@, before, driver_pos as int));
        lemma_swap_permutes(before, 0, driver_pos as int);
    }
}

} // verus!
