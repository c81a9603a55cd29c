//! The steps of the pruning by weights keep its state.
use vstd::prelude::*;
use vstd::seq_lib::{group_to_multiset_ensures, lemma_multiset_commutative};

use crate::idf_align::misses;
use crate::idf_invariant::{
    dismissed_below, idf_inv, lemma_absent_term, lemma_idf_facts, lemma_idf_reparted, lemma_outside,
};
use crate::idf_lists::{
    absolutely_essential, demotes, dispensable, lemma_filter_parts, lemma_promotion, promotion,
    summable,
};
use crate::idf_ranks::{
    idf_values, is_min_matches, lemma_picked_bound, lemma_sorted_copy, lemma_sorted_sums,
    picked_idf_fn, top_sum,
};
use crate::idf_terms::{
    all_terms, exhausted, hit_fn, hits, idf_fn, lemma_joined_terms, lemma_same_terms,
    lemma_standing_match, met, parts_of, stand_from, valid_terms, weight, Term,
};
use crate::pruning::{all_ready, Call};
use crate::scorer_set::lemma_permutation_member;
use crate::sorting::sorted_by_key;
use crate::sums::{
    count_by, indicator, lemma_count_all, lemma_count_bounds, lemma_sum_append, lemma_sum_eq,
    lemma_sum_le, lemma_sum_nonneg, lemma_sum_permutation, lemma_sum_split, lemma_sum_zero, sum_by,
};
use crate::term_scorer::TermScorer;
use crate::types::{DocId, Score, TERMINATED};
use crate::wand_invariant::after_calls;

verus! {

/// The absolutely essential terms leave out what one of them misses.
pub proof fn lemma_aligned(
    docs: Map<DocId, int>,
    start: Score,
    calls: Seq<Call>,
    threshold: Score,
    scorers: Seq<TermScorer>,
    abs_essential: Seq<Term>,
    remaining: Seq<Term>,
    dropped: Seq<Term>,
    candidate: DocId,
)
    requires
        idf_inv(docs, start, calls, threshold, scorers, abs_essential, remaining, dropped),
        0 < abs_essential.len(),
        forall|k: int|
            0 <= k < abs_essential.len() ==> (#[trigger] abs_essential[k]).idf > weight(
                all_terms(scorers),
            ) - threshold,
        forall|d: DocId|
            scorers[abs_essential[0].index as int].doc() <= d < candidate ==> #[trigger] misses(
                scorers,
                abs_essential,
                d,
            ),
    ensures
        dismissed_below(docs, calls, threshold, candidate),
{
    lemma_idf_facts(docs, start, calls, threshold, scorers, abs_essential, remaining, dropped);
    assert forall|d: DocId| #[trigger]
        docs.contains_key(d) && after_calls(calls, d) && d < candidate implies docs[d]
        <= threshold by {
        let k = if d < scorers[abs_essential[0].index as int].doc() {
            scorers[abs_essential[0].index as int].lemma_matches();
            0
        } else {
            assert(misses(scorers, abs_essential, d));
            choose|k: int|
                0 <= k < abs_essential.len() && !scorers[(
                #[trigger] abs_essential[k]).index as int].matches(d)
        };
        lemma_absent_term(
            docs,
            start,
            calls,
            threshold,
            scorers,
            abs_essential,
            remaining,
            dropped,
            k,
            d,
        );
    }
}

/// Terms that all stand on `doc` give it all their weight.
pub proof fn lemma_all_hit(scorers: Seq<TermScorer>, terms: Seq<Term>, doc: DocId)
    requires
        all_ready(scorers),
        valid_terms(scorers, terms),
        doc < TERMINATED,
        forall|k: int|
            0 <= k < terms.len() ==> scorers[(#[trigger] terms[k]).index as int].doc() == doc,
    ensures
        hits(scorers, terms, doc) == weight(terms),
        terms.len() > 0 ==> met(scorers, terms, doc),
{
    assert forall|k: int| 0 <= k < terms.len() implies hit_fn(scorers, doc)(#[trigger] terms[k])
        == idf_fn()(terms[k]) by {
        lemma_standing_match(scorers[terms[k].index as int], doc);
    }
    lemma_sum_eq(terms, terms, hit_fn(scorers, doc), idf_fn());
    if terms.len() > 0 {
        lemma_standing_match(scorers[terms[0].index as int], doc);
    }
}

/// The number of terms that are absolutely essential.
pub open spec fn essential_count(terms: Seq<Term>, threshold: Score) -> int {
    count_by(terms, absolutely_essential(weight(terms), threshold))
}

/// Absolutely essential terms are counted among all.
pub proof fn lemma_essential_count(
    scorers: Seq<TermScorer>,
    a: Seq<Term>,
    b: Seq<Term>,
    dropped: Seq<Term>,
    threshold: Score,
)
    requires
        parts_of(scorers, a, b, dropped),
        forall|k: int|
            0 <= k < a.len() ==> (#[trigger] a[k]).idf > weight(all_terms(scorers)) - threshold,
    ensures
        a.len() <= essential_count(all_terms(scorers), threshold),
{
    let all = all_terms(scorers);
    let f = indicator(absolutely_essential(weight(all), threshold));
    lemma_sum_permutation(a + b + dropped, all, f);
    lemma_sum_append(a + b, dropped, f);
    lemma_sum_append(a, b, f);
    lemma_sum_nonneg(b, f);
    lemma_sum_nonneg(dropped, f);
    lemma_count_all(a, absolutely_essential(weight(all), threshold));
}

/// Promoting terms keeps the state.
pub proof fn lemma_promoted(
    docs: Map<DocId, int>,
    start: Score,
    calls: Seq<Call>,
    threshold: Score,
    scorers: Seq<TermScorer>,
    a: Seq<Term>,
    b: Seq<Term>,
    dropped: Seq<Term>,
    a2: Seq<Term>,
    b2: Seq<Term>,
)
    requires
        idf_inv(docs, start, calls, threshold, scorers, a, b, dropped),
        0 < a.len(),
        forall|k: int|
            0 <= k < a.len() ==> (#[trigger] a[k]).idf > weight(all_terms(scorers)) - threshold,
        a2 == a + promotion(b, 0, absolutely_essential(weight(all_terms(scorers)), threshold)).0,
        b2.to_multiset() == promotion(
            b,
            0,
            absolutely_essential(weight(all_terms(scorers)), threshold),
        ).1.to_multiset(),
    ensures
        idf_inv(docs, start, calls, threshold, scorers, a2, b2, dropped),
        a2[0] == a[0],
        forall|k: int|
            0 <= k < a2.len() ==> (#[trigger] a2[k]).idf > weight(all_terms(scorers)) - threshold,
{
    broadcast use group_to_multiset_ensures;

    let total = weight(all_terms(scorers));
    let promoted = promotion(b, 0, absolutely_essential(total, threshold)).0;
    let none: Seq<Term> = Seq::empty();
    lemma_promotion(b, 0, absolutely_essential(total, threshold));
    lemma_multiset_commutative(a, promoted);
    assert(a2.to_multiset().add(b2.to_multiset()).add(none.to_multiset()) =~= a.to_multiset().add(
        b.to_multiset(),
    ));
    lemma_idf_reparted(docs, start, calls, threshold, scorers, a, b, dropped, a2, b2, none);
    assert(dropped + none =~= dropped);
    assert forall|k: int| 0 <= k < a2.len() implies (#[trigger] a2[k]).idf > total - threshold by {
        if k >= a.len() {
            assert(a2[k] == promoted[k - a.len()]);
            assert(absolutely_essential(total, threshold)(promoted[k - a.len()]));
        }
    }
}

/// Fewer than `m` of the essential terms, or none of them, cannot lift a document above the
/// threshold.
///
/// `sorted` holds the terms that were essential when `m` was computed; those of them that are
/// `spent` have no document left.
pub open spec fn matches_needed(
    scorers: Seq<TermScorer>,
    essential: Seq<Term>,
    spent: Seq<Term>,
    sorted: Seq<Term>,
    m: int,
    base: int,
    threshold: Score,
) -> bool {
    &&& (essential + spent).to_multiset() == sorted.to_multiset()
    &&& sorted_by_key(sorted, idf_fn())
    &&& forall|k: int| 0 <= k < sorted.len() ==> 0 <= (#[trigger] sorted[k]).idf
    &&& exhausted(scorers, spent)
    &&& 0 <= m <= sorted.len()
    &&& m > 1 ==> base + weight(sorted.skip(sorted.len() - (m - 1))) <= threshold
}

/// A freshly computed number of matches.
pub proof fn lemma_matches_computed(
    scorers: Seq<TermScorer>,
    essential: Seq<Term>,
    m: int,
    base: int,
    threshold: Score,
) -> (sorted: Seq<Term>)
    requires
        summable(essential),
        is_min_matches(idf_values(essential), base, threshold, m),
    ensures
        matches_needed(scorers, essential, Seq::empty(), sorted, m, base, threshold),
{
    let sorted = lemma_sorted_copy(essential);
    let none: Seq<Term> = Seq::empty();
    assert(essential + none =~= essential);
    lemma_sorted_sums(essential, sorted, 0);
    assert forall|k: int| 0 <= k < sorted.len() implies 0 <= (#[trigger] sorted[k]).idf by {
        let j = lemma_permutation_member(essential, sorted, k);
    }
    if m > 1 {
        lemma_sorted_sums(essential, sorted, sorted.len() - (m - 1));
        assert(base + top_sum(idf_values(essential), m - 1) <= threshold);
    }
    sorted
}

/// The documents before the pivot are out of reach: too few essential terms can contain them.
pub proof fn lemma_pivot_dismisses(
    docs: Map<DocId, int>,
    start: Score,
    calls: Seq<Call>,
    threshold: Score,
    scorers: Seq<TermScorer>,
    essential: Seq<Term>,
    non_essential: Seq<Term>,
    dropped: Seq<Term>,
    spent: Seq<Term>,
    sorted: Seq<Term>,
    m: int,
    k: int,
    pivot: DocId,
)
    requires
        idf_inv(docs, start, calls, threshold, scorers, essential, non_essential, dropped),
        matches_needed(scorers, essential, spent, sorted, m, weight(non_essential), threshold),
        non_essential.len() > 0 ==> weight(non_essential) <= threshold,
        pivot <= TERMINATED,
        essential.len() == 0 || 1 <= k <= essential.len(),
        1 < k ==> k <= m,
        forall|j: int|
            0 <= j < essential.len() && k - 1 <= j ==> scorers[(
            #[trigger] essential[j]).index as int].doc() >= pivot,
    ensures
        dismissed_below(docs, calls, threshold, pivot),
{
    lemma_idf_facts(docs, start, calls, threshold, scorers, essential, non_essential, dropped);
    assert forall|d: DocId| #[trigger]
        docs.contains_key(d) && after_calls(calls, d) && d < pivot implies docs[d]
        <= threshold by {
        let pick = |t: Term| scorers[t.index as int].doc() <= d;
        let f = indicator(pick);
        let g = picked_idf_fn(pick);
        if essential.len() == 0 || k == 1 {
            if met(scorers, essential, d) {
                let j = choose|j: int|
                    0 <= j < essential.len() && scorers[(
                    #[trigger] essential[j]).index as int].matches(d);
                scorers[essential[j].index as int].lemma_matches();
            }
            lemma_outside(
                docs,
                start,
                calls,
                threshold,
                scorers,
                essential,
                non_essential,
                dropped,
                hits(scorers, essential, d),
                d,
            );
        } else {
            let low = essential.take(k - 1);
            let high = essential.skip(k - 1);
            lemma_sum_split(essential, k - 1, f);
            assert forall|j: int| 0 <= j < high.len() implies f(#[trigger] high[j]) == 0 by {
                assert(high[j] == essential[k - 1 + j]);
            }
            lemma_sum_zero(high, f);
            lemma_count_bounds(low, pick);
            assert forall|j: int| 0 <= j < spent.len() implies f(#[trigger] spent[j]) == 0 && g(
                spent[j],
            ) == 0 by {}
            lemma_sum_zero(spent, f);
            lemma_sum_zero(spent, g);
            lemma_sum_append(essential, spent, f);
            lemma_sum_append(essential, spent, g);
            lemma_sum_permutation(essential + spent, sorted, f);
            lemma_sum_permutation(essential + spent, sorted, g);
            assert(sum_by(sorted, f) <= m - 1);
            lemma_picked_bound(sorted, pick, m - 1);
            assert forall|j: int| 0 <= j < essential.len() implies hit_fn(scorers, d)(
                #[trigger] essential[j],
            ) <= g(essential[j]) by {
                scorers[essential[j].index as int].lemma_matches();
            }
            lemma_sum_le(essential, essential, hit_fn(scorers, d), g);
            lemma_outside(
                docs,
                start,
                calls,
                threshold,
                scorers,
                essential,
                non_essential,
                dropped,
                sum_by(essential, g),
                d,
            );
        }
    }
}

pub proof fn lemma_idf_count_nonneg(all: Seq<Term>, threshold: Score)
    ensures
        0 <= essential_count(all, threshold),
{
    lemma_count_bounds(all, absolutely_essential(weight(all), threshold));
}

/// Reordering the essential terms changes nothing.
pub proof fn lemma_reselected(
    docs: Map<DocId, int>,
    start: Score,
    calls: Seq<Call>,
    threshold: Score,
    scorers: Seq<TermScorer>,
    e: Seq<Term>,
    n: Seq<Term>,
    dropped: Seq<Term>,
    e2: Seq<Term>,
    spent: Seq<Term>,
    sorted: Seq<Term>,
    floor: int,
)
    requires
        idf_inv(docs, start, calls, threshold, scorers, e, n, dropped),
        e2.to_multiset() == e.to_multiset(),
        (e + spent).to_multiset() == sorted.to_multiset(),
        stand_from(scorers, e, floor),
    ensures
        idf_inv(docs, start, calls, threshold, scorers, e2, n, dropped),
        (e2 + spent).to_multiset() == sorted.to_multiset(),
        stand_from(scorers, e2, floor),
{
    broadcast use group_to_multiset_ensures;

    let none: Seq<Term> = Seq::empty();
    assert(e2.to_multiset().add(n.to_multiset()).add(none.to_multiset()) =~= e.to_multiset().add(
        n.to_multiset(),
    ));
    lemma_idf_reparted(docs, start, calls, threshold, scorers, e, n, dropped, e2, n, none);
    assert(dropped + none =~= dropped);
    lemma_multiset_commutative(e, spent);
    lemma_multiset_commutative(e2, spent);
    assert forall|k: int| 0 <= k < e2.len() implies scorers[(
    #[trigger] e2[k]).index as int].doc() >= floor by {
        let j = lemma_permutation_member(e, e2, k);
    }
}

/// Essential terms that were dropped add to the spent ones.
pub proof fn lemma_spent_more(
    scorers: Seq<TermScorer>,
    selected: Seq<Term>,
    kept: Seq<Term>,
    spent: Seq<Term>,
    newly: Seq<Term>,
)
    requires
        valid_terms(scorers, spent),
        exhausted(scorers, spent),
        exhausted(scorers, newly),
        kept.to_multiset().add(newly.to_multiset()) == selected.to_multiset(),
        valid_terms(scorers, selected),
    ensures
        (kept + (spent + newly)).to_multiset() == (selected + spent).to_multiset(),
        exhausted(scorers, spent + newly),
        valid_terms(scorers, spent + newly),
        valid_terms(scorers, newly),
        kept.len() <= selected.len(),
{
    broadcast use group_to_multiset_ensures;

    lemma_multiset_commutative(spent, newly);
    lemma_multiset_commutative(kept, spent + newly);
    lemma_multiset_commutative(selected, spent);
    lemma_multiset_commutative(kept, newly);
    assert((kept + (spent + newly)).to_multiset() =~= (selected + spent).to_multiset());
    lemma_same_terms(scorers, kept + newly, selected);
    lemma_joined_terms(scorers, kept, newly);
    lemma_joined_terms(scorers, spent, newly);
}

/// Demoting essential terms keeps the state.
pub proof fn lemma_rebalanced(
    docs: Map<DocId, int>,
    start: Score,
    calls: Seq<Call>,
    threshold: Score,
    scorers: Seq<TermScorer>,
    e: Seq<Term>,
    n: Seq<Term>,
    dropped: Seq<Term>,
    e2: Seq<Term>,
    n2: Seq<Term>,
    demoted: Seq<Term>,
    floor: int,
)
    requires
        idf_inv(docs, start, calls, threshold, scorers, e, n, dropped),
        demotes(e, n, e2, n2, demoted),
        stand_from(scorers, e, floor),
    ensures
        idf_inv(docs, start, calls, threshold, scorers, e2, n2, dropped),
        stand_from(scorers, e2, floor),
        weight(n2) == weight(n) + weight(demoted),
        weight(e) == weight(e2) + weight(demoted),
{
    broadcast use group_to_multiset_ensures;

    let none: Seq<Term> = Seq::empty();
    lemma_multiset_commutative(n, demoted);
    lemma_sum_permutation(n + demoted, n2, idf_fn());
    lemma_sum_append(n, demoted, idf_fn());
    lemma_multiset_commutative(e2, demoted);
    lemma_sum_permutation(e2 + demoted, e, idf_fn());
    lemma_sum_append(e2, demoted, idf_fn());
    assert(e2.to_multiset().add(n2.to_multiset()).add(none.to_multiset()) =~= e.to_multiset().add(
        n.to_multiset(),
    ));
    lemma_idf_reparted(docs, start, calls, threshold, scorers, e, n, dropped, e2, n2, none);
    assert(dropped + none =~= dropped);
    assert forall|k: int| 0 <= k < e2.len() implies scorers[(
    #[trigger] e2[k]).index as int].doc() >= floor by {
        assert((e2 + demoted)[k] == e2[k]);
        let j = lemma_permutation_member(e, e2 + demoted, k);
        assert(scorers[e[j].index as int].doc() >= floor);
    }
}

/// Setting the absolutely essential terms apart keeps the state.
pub proof fn lemma_parted(
    docs: Map<DocId, int>,
    start: Score,
    calls: Seq<Call>,
    threshold: Score,
    scorers: Seq<TermScorer>,
    e: Seq<Term>,
    n: Seq<Term>,
    dropped: Seq<Term>,
    abs: Seq<Term>,
    rest: Seq<Term>,
    floor: int,
)
    requires
        idf_inv(docs, start, calls, threshold, scorers, e, n, dropped),
        abs == e.filter(absolutely_essential(weight(all_terms(scorers)), threshold)),
        rest == e.filter(dispensable(weight(all_terms(scorers)), threshold)),
        stand_from(scorers, e, floor),
    ensures
        idf_inv(docs, start, calls, threshold, scorers, abs, rest + n, dropped),
        stand_from(scorers, abs, floor),
        forall|k: int|
            0 <= k < abs.len() ==> (#[trigger] abs[k]).idf > weight(all_terms(scorers)) - threshold,
{
    broadcast use group_to_multiset_ensures;

    let total = weight(all_terms(scorers));
    let none: Seq<Term> = Seq::empty();
    lemma_filter_parts(e, absolutely_essential(total, threshold), dispensable(total, threshold));
    lemma_multiset_commutative(rest, n);
    assert(abs.to_multiset().add((rest + n).to_multiset()).add(none.to_multiset())
        =~= e.to_multiset().add(n.to_multiset()));
    lemma_idf_reparted(docs, start, calls, threshold, scorers, e, n, dropped, abs, rest + n, none);
    assert(dropped + none =~= dropped);
    assert forall|k: int| 0 <= k < abs.len() implies (#[trigger] abs[k]).idf > total - threshold
        && scorers[abs[k].index as int].doc() >= floor by {
        e.lemma_filter_pred(absolutely_essential(total, threshold), k);
        e.lemma_filter_contains_rev(absolutely_essential(total, threshold), abs[k]);
        let j = choose|j: int| 0 <= j < e.len() && e[j] == abs[k];
        assert(scorers[e[j].index as int].doc() >= floor);
    }
}

} // verus!
