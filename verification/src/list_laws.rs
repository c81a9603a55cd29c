//! How terms are divided, in plain terms.
//!
//! The laws of this module hold the lists of terms that functions return against those that they are
//! given, by the weights of the terms and by sums of them.
use vstd::prelude::*;
use vstd::relations::{sorted_by, total_ordering};
use vstd::seq_lib::{group_to_multiset_ensures, lemma_sorted_unique};

use crate::block_wand::{compute_non_essential_count, find_pivot_doc};
use crate::idf_lists::{
    absolutely_essential, compute_min_essential_matches, demotes, dispensable, lemma_promotion,
    partition_absolutely_essential, prefix_sum_split, promote_to_absolutely_essential, promotion,
    rebalance,
};
use crate::idf_ranks::{ascending, at_most, bottom_sum, idf_values, top_sum, value_fn};
use crate::idf_terms::{idf_fn, Term};
use crate::plain_laws::{is_sound, lemma_sound, lemma_total, total};
use crate::scorer_set::{
    all_wf, bound_at, bound_fn, lemma_permutation_member, max_score_fn, max_score_sum,
    TermScorerWithMaxScore,
};
use crate::sums::sum_by;
use crate::term_scorer::TermScorer;
use crate::types::{DocId, Score, TERMINATED};

verus! {

/// `weights` are those of `terms`, one by one.
pub open spec fn weigh(terms: Seq<Term>, weights: Seq<int>) -> bool {
    &&& weights.len() == terms.len()
    &&& forall|i: int| 0 <= i < terms.len() ==> #[trigger] weights[i] == terms[i].idf
}

/// `ranked` are the `weights` in rising order.
pub open spec fn ranks(weights: Seq<int>, ranked: Seq<int>) -> bool {
    &&& ranked.to_multiset() == weights.to_multiset()
    &&& forall|i: int, j: int| 0 <= i < j < ranked.len() ==> #[trigger] ranked[i] <= #[trigger] ranked[j]
}

proof fn lemma_weigh(terms: Seq<Term>, weights: Seq<int>)
    requires
        weigh(terms, weights),
    ensures
        weights == idf_values(terms),
{
    assert(weights =~= idf_values(terms));
}

pub proof fn lemma_ranks(weights: Seq<int>, ranked: Seq<int>)
    requires
        ranks(weights, ranked),
    ensures
        ranked == ascending(weights),
        ranked.len() == weights.len(),
{
    broadcast use group_to_multiset_ensures;

    assert(ranked.len() == ranked.to_multiset().len());
    assert(weights.len() == weights.to_multiset().len());
    assert(total_ordering(at_most()));
    weights.lemma_sort_by_ensures(at_most());
    assert forall|i: int, j: int| 0 <= i < j < ranked.len() implies #[trigger] at_most()(
        ranked[i],
        ranked[j],
    ) by {}
    assert(sorted_by(ranked, at_most()));
    lemma_sorted_unique(ranked, ascending(weights), at_most());
}

/// A sum of numbers is what adding them up one by one comes to.
pub proof fn law_sum_of_values(values: Seq<int>)
    ensures
        sum_by(values, value_fn()) == total(values),
{
    lemma_total(values, value_fn(), values);
}

/// The sums of the lightest and of the heaviest terms.
pub proof fn law_sums_of_ranked(weights: Seq<int>, ranked: Seq<int>, m: int)
    requires
        ranks(weights, ranked),
        0 <= m <= weights.len(),
    ensures
        bottom_sum(weights, m) == total(ranked.take(m)),
        top_sum(weights, m) == total(ranked.skip(ranked.len() - m)),
{
    lemma_ranks(weights, ranked);
    law_sum_of_values(ranked.take(m));
    law_sum_of_values(ranked.skip(ranked.len() - m));
}

/// Up to the split, the weights add up to the threshold at most, and with one more they exceed it.
pub proof fn law_prefix_sum_split(
    terms: Vec<Term>,
    threshold: Score,
    split: usize,
    weights: Seq<int>,
)
    requires
        weigh(terms@, weights),
        call_ensures(prefix_sum_split, (&terms, threshold), split),
    ensures
        call_requires(prefix_sum_split, (&terms, threshold)),
        split <= weights.len(),
        forall|j: int| 1 <= j <= split ==> total(#[trigger] weights.take(j)) <= threshold,
        split < weights.len() ==> total(weights.take(split + 1)) > threshold,
{
    lemma_weigh(terms@, weights);
    assert forall|j: int| 1 <= j <= split implies total(#[trigger] weights.take(j))
        <= threshold by {
        law_sum_of_values(weights.take(j));
    }
    law_sum_of_values(weights.take(split + 1));
}

/// A term goes to the one part or to the other by whether it weighs more than the total less the
/// threshold. Both parts keep the order of the terms.
pub proof fn law_partition(
    terms: Vec<Term>,
    total_idf: Score,
    threshold: Score,
    parts: (Vec<Term>, Vec<Term>),
)
    requires
        call_ensures(partition_absolutely_essential, (&terms, total_idf, threshold), parts),
    ensures
        call_requires(partition_absolutely_essential, (&terms, total_idf, threshold)),
        parts.0@ == terms@.filter(|t: Term| t.idf > total_idf - threshold),
        parts.1@ == terms@.filter(|t: Term| t.idf <= total_idf - threshold),
{
    let heavy = |t: Term| t.idf > total_idf - threshold;
    let light = |t: Term| t.idf <= total_idf - threshold;
    assert(heavy =~= absolutely_essential(total_idf as int, threshold));
    assert(light =~= dispensable(total_idf as int, threshold));
}

/// Fewer of the heaviest terms, on top of the others, do not exceed the threshold; that many do, or
/// they are all.
pub proof fn law_min_matches(
    essential: Vec<Term>,
    others: Score,
    threshold: Score,
    m: usize,
    weights: Seq<int>,
    ranked: Seq<int>,
)
    requires
        weigh(essential@, weights),
        ranks(weights, ranked),
        call_ensures(compute_min_essential_matches, (&essential, others, threshold), m),
    ensures
        call_requires(compute_min_essential_matches, (&essential, others, threshold)),
        m <= essential@.len(),
        forall|j: int|
            0 <= j < m ==> others + total(#[trigger] ranked.skip(ranked.len() - j)) <= threshold,
        m < essential@.len() ==> others + total(ranked.skip(ranked.len() - m)) > threshold,
{
    lemma_weigh(essential@, weights);
    lemma_ranks(weights, ranked);
    assert forall|j: int| 0 <= j < m implies others + total(
        #[trigger] ranked.skip(ranked.len() - j),
    ) <= threshold by {
        law_sums_of_ranked(weights, ranked, j);
        assert(others + top_sum(weights, j) <= threshold);
    }
    law_sums_of_ranked(weights, ranked, m as int);
}

/// The terms `moved` go from `from` to `to`, which are then `from2` and `to2`. None of them is heavier than
/// one that stays.
pub open spec fn moves_over(
    from: Seq<Term>,
    to: Seq<Term>,
    from2: Seq<Term>,
    to2: Seq<Term>,
    moved: Seq<Term>,
) -> bool {
    &&& from2.to_multiset().add(moved.to_multiset()) == from.to_multiset()
    &&& to.to_multiset().add(moved.to_multiset()) == to2.to_multiset()
    &&& forall|i: int, j: int|
        0 <= i < moved.len() && 0 <= j < from2.len() ==> (#[trigger] moved[i]).idf <= (
        #[trigger] from2[j]).idf
}

/// The lightest essential terms go over as long as they fit under the threshold on top of the others.
/// No term is lost, none that goes over is heavier than one that stays, and none that stays would fit.
pub proof fn law_rebalance(
    essential: &mut Vec<Term>,
    non_essential: &mut Vec<Term>,
    sum: &mut Score,
    threshold: Score,
    weights: Seq<int>,
    ranked: Seq<int>,
    count: int,
)
    requires
        weigh(old(essential)@, weights),
        ranks(weights, ranked),
        count == old(essential)@.len() - final(essential)@.len(),
        call_ensures(rebalance, (essential, non_essential, sum, threshold), ()),
    ensures
        (forall|j: int|
            0 <= j <= ranked.len() ==> *old(sum) + total(#[trigger] ranked.take(j)) >= i64::MIN)
            ==> call_requires(rebalance, (essential, non_essential, sum, threshold)),
        0 <= count <= ranked.len(),
        forall|j: int|
            1 <= j <= count ==> *old(sum) + total(#[trigger] ranked.take(j)) <= threshold,
        count < ranked.len() ==> *old(sum) + total(ranked.take(count + 1)) > threshold,
        *final(sum) == *old(sum) + total(ranked.take(count)),
        exists|moved: Seq<Term>| #[trigger]
            moves_over(
                old(essential)@,
                old(non_essential)@,
                final(essential)@,
                final(non_essential)@,
                moved,
            ),
        forall|j: int|
            0 <= j < final(essential)@.len() ==> *final(sum) + (
            #[trigger] final(essential)@[j]).idf > threshold,
        count > 0 ==> forall|i: int, j: int|
            0 <= i < j < final(non_essential)@.len() ==> (#[trigger] final(non_essential)@[i]).idf
                <= (#[trigger] final(non_essential)@[j]).idf,
        count == 0 ==> final(essential)@ == old(essential)@ && final(non_essential)@
            == old(non_essential)@,
{
    lemma_weigh(old(essential)@, weights);
    lemma_ranks(weights, ranked);
    if forall|j: int|
        0 <= j <= ranked.len() ==> *old(sum) + total(#[trigger] ranked.take(j)) >= i64::MIN {
        assert forall|j: int| 0 <= j <= old(essential)@.len() implies *old(sum)
            + #[trigger] bottom_sum(idf_values(old(essential)@), j) >= Score::MIN by {
            law_sums_of_ranked(weights, ranked, j);
            assert(*old(sum) + total(ranked.take(j)) >= i64::MIN);
        }
    }
    assert forall|j: int| 1 <= j <= count implies *old(sum) + total(#[trigger] ranked.take(j))
        <= threshold by {
        law_sums_of_ranked(weights, ranked, j);
        assert(*old(sum) + bottom_sum(weights, j) <= threshold);
    }
    if count < ranked.len() {
        law_sums_of_ranked(weights, ranked, count + 1);
    }
    law_sums_of_ranked(weights, ranked, count);
    if count > 0 {
        assert forall|i: int, j: int| 0 <= i < j < final(non_essential)@.len() implies (
        #[trigger] final(non_essential)@[i]).idf <= (#[trigger] final(non_essential)@[j]).idf by {
            assert(idf_fn()(final(non_essential)@[i]) <= idf_fn()(final(non_essential)@[j]));
        }
    }
    let moved = choose|moved: Seq<Term>| #[trigger]
        demotes(
            old(essential)@,
            old(non_essential)@,
            final(essential)@,
            final(non_essential)@,
            moved,
        );
    assert(moves_over(
        old(essential)@,
        old(non_essential)@,
        final(essential)@,
        final(non_essential)@,
        moved,
    ));
}

/// The terms that weigh more than the total less the threshold go over, behind those that are there.
/// The others stay, the heaviest one first.
pub proof fn law_promote(
    abs: &mut Vec<Term>,
    remaining: &mut Vec<Term>,
    total_idf: Score,
    threshold: Score,
) -> (promoted: Seq<Term>)
    requires
        call_ensures(promote_to_absolutely_essential, (abs, remaining, total_idf, threshold), ()),
    ensures
        call_requires(promote_to_absolutely_essential, (abs, remaining, total_idf, threshold)),
        final(abs)@ == old(abs)@ + promoted,
        promoted.to_multiset().add(final(remaining)@.to_multiset()) == old(remaining)@.to_multiset(),
        forall|i: int|
            0 <= i < promoted.len() ==> (#[trigger] promoted[i]).idf > total_idf - threshold,
        forall|i: int|
            0 <= i < final(remaining)@.len() ==> (#[trigger] final(remaining)@[i]).idf <= total_idf
                - threshold,
        forall|i: int, j: int|
            0 <= i < j < final(remaining)@.len() ==> (#[trigger] final(remaining)@[i]).idf >= (
            #[trigger] final(remaining)@[j]).idf,
{
    let heavy = absolutely_essential(total_idf as int, threshold);
    let parts = promotion(old(remaining)@, 0, heavy);
    lemma_promotion(old(remaining)@, 0, heavy);
    assert forall|i: int| 0 <= i < parts.0.len() implies (#[trigger] parts.0[i]).idf > total_idf
        - threshold by {
        assert(heavy(parts.0[i]));
    }
    assert forall|i: int| 0 <= i < final(remaining)@.len() implies (
    #[trigger] final(remaining)@[i]).idf <= total_idf - threshold by {
        let j = lemma_permutation_member(parts.1, final(remaining)@, i);
        assert(!heavy(parts.1[j]));
    }
    parts.0
}

/// `highest` are the maximum scores of the scorers, one by one.
pub open spec fn are_highest(scorers: Seq<TermScorerWithMaxScore>, highest: Seq<int>) -> bool {
    &&& highest.len() == scorers.len()
    &&& forall|i: int| 0 <= i < scorers.len() ==> #[trigger] highest[i] == scorers[i].max_score
}

/// Scorers on postings of sound lists, each with the maximum score of its list.
pub open spec fn are_sound(scorers: Seq<TermScorerWithMaxScore>) -> bool {
    forall|i: int|
        0 <= i < scorers.len() ==> {
            let s = #[trigger] scorers[i];
            &&& is_sound(*s.scorer.list)
            &&& s.scorer.cursor <= s.scorer.list.docs@.len()
            &&& s.scorer.cursor / 128 <= s.scorer.block <= s.scorer.list.docs@.len() / 128
            &&& s.max_score == s.scorer.list.max_score
        }
}

/// The document of a scorer.
pub open spec fn doc_of(s: TermScorerWithMaxScore) -> int {
    if s.scorer.cursor < s.scorer.list.docs@.len() {
        s.scorer.list.docs@[s.scorer.cursor as int] as int
    } else {
        0x7fff_ffff
    }
}

proof fn lemma_are_sound(scorers: Seq<TermScorerWithMaxScore>)
    requires
        are_sound(scorers),
    ensures
        all_wf(scorers),
{
    assert forall|i: int| 0 <= i < scorers.len() implies (#[trigger] scorers[i]).wf() by {
        lemma_sound(*scorers[i].scorer.list);
    }
}

/// The maximum scores up to the count add up to the threshold at most, and with one more they exceed
/// it.
pub proof fn law_non_essential_count(
    scorers: Vec<TermScorerWithMaxScore>,
    threshold: Score,
    count: usize,
    highest: Seq<int>,
)
    requires
        are_highest(scorers@, highest),
        call_ensures(compute_non_essential_count, (&scorers, threshold), count),
    ensures
        are_sound(scorers@) && total(highest) <= i64::MAX ==> call_requires(
            compute_non_essential_count,
            (&scorers, threshold),
        ),
        count <= highest.len(),
        forall|j: int| 1 <= j <= count ==> total(#[trigger] highest.take(j)) <= threshold,
        count < highest.len() ==> total(highest.take(count + 1)) > threshold,
{
    lemma_total(scorers@, max_score_fn(), highest);
    if are_sound(scorers@) {
        lemma_are_sound(scorers@);
    }
    assert forall|j: int| 1 <= j <= count implies total(#[trigger] highest.take(j))
        <= threshold by {
        lemma_total(scorers@.take(j), max_score_fn(), highest.take(j));
        assert(max_score_sum(scorers@.take(j)) <= threshold);
    }
    if count < highest.len() {
        lemma_total(scorers@.take(count + 1), max_score_fn(), highest.take(count + 1));
    }
}

/// What the scorers that are not past `doc` can give to it: `bounds` has the maximum scores of those,
/// and 0 for the others.
pub open spec fn are_bounds_at(
    scorers: Seq<TermScorerWithMaxScore>,
    doc: int,
    bounds: Seq<int>,
) -> bool {
    &&& bounds.len() == scorers.len()
    &&& forall|i: int|
        0 <= i < scorers.len() ==> #[trigger] bounds[i] == (if doc_of(scorers[i]) <= doc {
            scorers[i].max_score as int
        } else {
            0
        })
}

/// The pivot is the lowest current document whose bound exceeds the threshold. The two lengths count
/// the scorers before it, and those up to it.
pub proof fn law_pivot(
    scorers: Vec<TermScorerWithMaxScore>,
    threshold: Score,
    pivot: Option<(usize, usize, DocId)>,
    i: int,
    bounds: Seq<int>,
    pivot_bounds: Seq<int>,
)
    requires
        are_sound(scorers@),
        call_ensures(find_pivot_doc, (&scorers, threshold), pivot),
        0 <= i < scorers@.len(),
        doc_of(scorers@[i]) < 0x7fff_ffff,
        are_bounds_at(scorers@, doc_of(scorers@[i]), bounds),
        pivot matches Some((before, len, doc)) ==> are_bounds_at(scorers@, doc as int, pivot_bounds),
    ensures
        pivot is None ==> total(bounds) <= threshold,
        pivot matches Some((before, len, doc)) ==> {
            &&& doc < 0x7fff_ffff
            &&& before < len <= scorers@.len()
            &&& total(pivot_bounds) > threshold
            &&& i < before <==> doc_of(scorers@[i]) < doc
            &&& i < len <==> doc_of(scorers@[i]) <= doc
            &&& i < before ==> total(bounds) <= threshold
        },
{
    let s = scorers@;
    lemma_sound(*s[i].scorer.list);
    let d = s[i].scorer.doc();
    assert(d == doc_of(s[i]) && d != TERMINATED);
    lemma_bounds_at(s, d, bounds);
    match pivot {
        Some((before, len, doc)) => {
            lemma_bounds_at(s, doc, pivot_bounds);
            lemma_sound(*s[before as int].scorer.list);
            assert(s[before as int].scorer.doc() == doc);
            if i < before {
                assert(s[i].scorer.doc() < doc);
            } else if i < len {
                assert(s[i].scorer.doc() == doc);
            } else {
                assert(s[i].scorer.doc() > doc);
            }
        },
        None => {
            assert(bound_at(s, s[i].scorer.doc()) <= threshold);
        },
    }
}

proof fn lemma_bounds_at(s: Seq<TermScorerWithMaxScore>, doc: DocId, bounds: Seq<int>)
    requires
        are_bounds_at(s, doc as int, bounds),
    ensures
        bound_at(s, doc) == total(bounds),
{
    lemma_total(s, bound_fn(doc), bounds);
}

/// A pivot can be found among scorers that are sorted by document, if their maximum scores add up to a
/// score.
pub proof fn law_pivot_runs(
    scorers: Vec<TermScorerWithMaxScore>,
    threshold: Score,
    highest: Seq<int>,
)
    requires
        are_sound(scorers@),
        are_highest(scorers@, highest),
        total(highest) <= i64::MAX,
        forall|i: int, j: int|
            0 <= i < j < scorers@.len() ==> doc_of(#[trigger] scorers@[i]) <= doc_of(
                #[trigger] scorers@[j],
            ),
    ensures
        call_requires(find_pivot_doc, (&scorers, threshold)),
{
    lemma_are_sound(scorers@);
    lemma_total(scorers@, max_score_fn(), highest);
    assert forall|i: int, j: int| 0 <= i <= j < scorers@.len() implies (
    #[trigger] scorers@[i]).scorer.doc() <= (#[trigger] scorers@[j]).scorer.doc() by {
        if i < j {
            assert(doc_of(scorers@[i]) <= doc_of(scorers@[j]));
        }
    }
}

/// A scorer comes with the maximum score of its list.
pub proof fn law_with_max_score<'a>(scorer: TermScorer<'a>, result: TermScorerWithMaxScore<'a>)
    requires
        call_ensures(
            <TermScorerWithMaxScore<'a> as From<TermScorer<'a>>>::from,
            (scorer,),
            result,
        ),
    ensures
        result.scorer == scorer,
        result.max_score == scorer.list.max_score,
{
}

} // verus!
