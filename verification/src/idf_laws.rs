//! Why documents can be skipped when terms count for their weight alone.
use vstd::prelude::*;
use vstd::seq_lib::group_to_multiset_ensures;

use crate::idf_bootstrap::{
    best_frequent_idf, bootstrap_margin, lemma_best_frequent, starting_threshold,
};
use crate::idf_counts::{
    is_walk, is_walk_so_far, lemma_scored_permuted, lemma_threshold_at_later, seeks_of, steps_of,
    turns_heavy, Union,
};
use crate::idf_lists::absolutely_essential;
use crate::idf_ranks::{
    idf_values, is_min_matches, is_prefix_split, lemma_picked_bound, lemma_sorted_copy,
    lemma_sorted_sums, picked_idf_fn, top_sum, value_fn,
};
use crate::idf_terms::{
    all_terms, hit_fn, hits, lemma_all_terms, lemma_hits_bounds, lemma_joined_terms,
    lemma_missing_hit, lemma_same_terms, met, term_weight, weight, Term,
};
use crate::idf_walk::{contains_doc, stands_before};
use crate::pruning::{
    all_ready, answers_follow, answers_rise, any_matches, calls_exceed, exhaustive_run_rising,
    idf_scored_docs, law_order_of_scorers, law_pruned_run_is_exhaustive, law_rising_run_unique,
    pruned_run, scored_docs, term_idf, term_score, Call,
};
use crate::scorer_set::lemma_permutation_member;
use crate::sums::{
    count_by, indicator, lemma_count_bounds, lemma_count_implied, lemma_sum_element, lemma_sum_eq,
    lemma_sum_permutation, sum_by,
};
use crate::term_scorer::TermScorer;
use crate::types::{DocId, Score, TERMINATED};

verus! {

/// An absolutely essential term is in every document that exceeds the threshold.
pub proof fn law_absolutely_essential(
    scorers: Seq<TermScorer>,
    threshold: Score,
    i: int,
    doc: DocId,
)
    requires
        all_ready(scorers),
        scorers.len() <= usize::MAX,
        0 <= i < scorers.len(),
        absolutely_essential(weight(all_terms(scorers)), threshold)(all_terms(scorers)[i]),
        idf_scored_docs(scorers).contains_key(doc),
        idf_scored_docs(scorers)[doc] > threshold,
    ensures
        scorers[i].matches(doc),
{
    lemma_all_terms(scorers);
    let all = all_terms(scorers);
    assert(hits(scorers, all, doc) == idf_scored_docs(scorers)[doc]);
    if !scorers[i].matches(doc) {
        lemma_missing_hit(scorers, all, i, doc);
    }
}

/// A document that exceeds the threshold contains at least the computed number of essential
/// terms, if the other terms alone do not exceed it.
pub proof fn law_min_essential_matches(
    scorers: Seq<TermScorer>,
    essential: Seq<Term>,
    non_essential: Seq<Term>,
    threshold: Score,
    m: int,
    doc: DocId,
)
    requires
        all_ready(scorers),
        scorers.len() <= usize::MAX,
        (essential + non_essential).to_multiset() == all_terms(scorers).to_multiset(),
        non_essential.len() > 0 ==> weight(non_essential) <= threshold,
        is_min_matches(idf_values(essential), weight(non_essential), threshold, m),
        idf_scored_docs(scorers).contains_key(doc),
        idf_scored_docs(scorers)[doc] > threshold,
    ensures
        count_by(essential, contains_doc(scorers, doc)) >= m,
{
    let all = all_terms(scorers);
    let pick = contains_doc(scorers, doc);
    let count = count_by(essential, pick);
    lemma_all_terms(scorers);
    lemma_same_terms(scorers, essential + non_essential, all);
    lemma_joined_terms(scorers, essential, non_essential);
    lemma_hits_bounds(scorers, non_essential, doc);
    assert(hits(scorers, all, doc) == idf_scored_docs(scorers)[doc]);
    assert(hits(scorers, essential + non_essential, doc) == hits(scorers, all, doc));
    lemma_count_bounds(essential, pick);
    if count < m {
        let sorted = lemma_sorted_copy(essential);
        lemma_same_terms(scorers, sorted, essential);
        lemma_sum_permutation(sorted, essential, indicator(pick));
        lemma_sum_permutation(sorted, essential, picked_idf_fn(pick));
        lemma_sum_eq(essential, essential, hit_fn(scorers, doc), picked_idf_fn(pick));
        if m > 1 {
            lemma_picked_bound(sorted, pick, m - 1);
            lemma_sorted_sums(essential, sorted, sorted.len() - (m - 1));
            assert(weight(non_essential) + top_sum(idf_values(essential), m - 1) <= threshold);
        } else {
            lemma_nothing_picked(essential, pick);
            assert(met(scorers, all, doc));
            assert(met(scorers, essential + non_essential, doc));
            if met(scorers, essential, doc) {
                let k = choose|k: int|
                    0 <= k < essential.len() && scorers[(
                    #[trigger] essential[k]).index as int].matches(doc);
                assert(pick(essential[k]));
                assert forall|n: int| 0 <= n < essential.len() implies 0 <= indicator(pick)(
                    #[trigger] essential[n],
                ) by {}
                lemma_sum_element(essential, k, indicator(pick));
            }
        }
    }
}

proof fn lemma_nothing_picked(terms: Seq<Term>, pick: spec_fn(Term) -> bool)
    requires
        count_by(terms, pick) <= 0,
    ensures
        sum_by(terms, picked_idf_fn(pick)) == 0,
    decreases terms.len(),
{
    if terms.len() > 0 {
        lemma_count_bounds(terms.drop_last(), pick);
        lemma_nothing_picked(terms.drop_last(), pick);
    }
}

/// The threshold that the document frequencies give leaves enough documents: if the postings of
/// the term that gives it are all at hand, at least `top_k` documents score more.
pub proof fn law_bootstrap_keeps_top_k(scorers: Seq<TermScorer>, top_k: usize, i: int)
    requires
        all_ready(scorers),
        scorers.len() <= usize::MAX,
        0 < top_k,
        0 < sum_by(scorers, term_weight()) <= Score::MAX,
        0 <= i < scorers.len(),
        scorers[i].list.global_doc_freq >= top_k,
        scorers[i].list.idf_score == best_frequent_idf(scorers, top_k as int),
        scorers[i].left() >= top_k,
    ensures
        exists|kept: Seq<DocId>| #[trigger]
            kept.no_duplicates() && kept.len() >= top_k && forall|j: int|
                0 <= j < kept.len() ==> idf_scored_docs(scorers).contains_key(#[trigger] kept[j])
                    && idf_scored_docs(scorers)[kept[j]] > starting_threshold(
                    scorers,
                    Score::MIN,
                    top_k,
                ),
{
    let docs = idf_scored_docs(scorers);
    let scorer = scorers[i];
    let list = scorer.list;
    let kept = list.docs@.skip(scorer.cursor as int);
    let total = sum_by(scorers, term_weight());
    assert(scorer.wf());
    lemma_best_frequent(scorers, top_k as int);
    assert(starting_threshold(scorers, Score::MIN, top_k) < list.idf_score) by {
        assert(bootstrap_margin(total) >= 1);
        assert(list.idf_score - bootstrap_margin(total) >= Score::MIN);
    }
    assert(kept.no_duplicates()) by {
        assert forall|a: int, b: int| 0 <= a < kept.len() && 0 <= b < kept.len() && a != b implies kept[a]
            != kept[b] by {
            let x = scorer.cursor + a;
            let y = scorer.cursor + b;
            if x < y {
                assert(list.docs@[x] < list.docs@[y]);
            } else {
                assert(list.docs@[y] < list.docs@[x]);
            }
        }
    }
    assert forall|j: int| 0 <= j < kept.len() implies docs.contains_key(#[trigger] kept[j])
        && docs[kept[j]] > starting_threshold(scorers, Score::MIN, top_k) by {
        let d = kept[j];
        list.lemma_position(scorer.cursor + j);
        assert(scorer.matches(d));
        assert(any_matches(scorers, d));
        assert forall|m: int| 0 <= m < scorers.len() implies 0 <= term_idf(d)(
            #[trigger] scorers[m],
        ) by {
            assert(scorers[m].wf());
        }
        lemma_sum_element(scorers, i, term_idf(d));
    }
}

/// As the threshold rises, more terms become non-essential.
pub proof fn law_non_essential_weights_grow(
    values: Seq<int>,
    threshold: Score,
    split: int,
    higher: Score,
    higher_split: int,
)
    requires
        is_prefix_split(values, threshold, split),
        is_prefix_split(values, higher, higher_split),
        threshold <= higher,
    ensures
        split <= higher_split,
{
    if higher_split < split {
        assert(sum_by(values.take(higher_split + 1), value_fn()) <= threshold);
    }
}

/// Where a term gives its weight to every document that contains it, the weights are the scores.
pub proof fn law_constant_scores_are_weights(scorers: Seq<TermScorer>)
    requires
        all_ready(scorers),
        forall|i: int, j: int|
            0 <= i < scorers.len() && 0 <= j < scorers[i].list.scores@.len() ==> (
            #[trigger] scorers[i].list.scores@[j]) == scorers[i].list.idf_score,
    ensures
        scored_docs(scorers) == idf_scored_docs(scorers),
{
    assert forall|d: DocId| any_matches(scorers, d) implies sum_by(scorers, #[trigger] term_score(d))
        == sum_by(scorers, term_idf(d)) by {
        assert forall|i: int| 0 <= i < scorers.len() implies term_score(d)(#[trigger] scorers[i])
            == term_idf(d)(scorers[i]) by {
            assert(scorers[i].wf());
            if scorers[i].matches(d) {
                let j = scorers[i].list.position(d);
                assert(scorers[i].list.docs@[j] == d);
                assert(scorers[i].list.scores@[j] == scorers[i].list.idf_score);
            }
        }
        lemma_sum_eq(scorers, scorers, term_score(d), term_idf(d));
    }
    assert(scored_docs(scorers) =~= idf_scored_docs(scorers));
}

/// The order of the scorers does not change the threshold that a run starts with.
proof fn lemma_start_of_permuted(
    s: Seq<TermScorer>,
    p: Seq<TermScorer>,
    threshold: Score,
    top_k: usize,
)
    requires
        all_ready(s),
        s.to_multiset() == p.to_multiset(),
    ensures
        starting_threshold(s, threshold, top_k) == starting_threshold(p, threshold, top_k),
{
    broadcast use group_to_multiset_ensures;

    assert(s.len() == s.to_multiset().len() && p.len() == p.to_multiset().len());
    lemma_sum_permutation(s, p, term_weight());
    assert forall|i: int| 0 <= i < p.len() implies (#[trigger] p[i]).wf() && p[i].is_loaded() by {
        let j = lemma_permutation_member(s, p, i);
        assert(s[j].wf());
    }
    lemma_best_of_permuted(s, p, top_k as int);
    lemma_best_of_permuted(p, s, top_k as int);
}

proof fn lemma_best_of_permuted(s: Seq<TermScorer>, p: Seq<TermScorer>, top_k: int)
    requires
        all_ready(s),
        all_ready(p),
        s.to_multiset() == p.to_multiset(),
    ensures
        best_frequent_idf(s, top_k) <= best_frequent_idf(p, top_k),
{
    lemma_best_frequent(s, top_k);
    lemma_best_frequent(p, top_k);
    if best_frequent_idf(s, top_k) >= 0 {
        let i = choose|i: int|
            0 <= i < s.len() && (#[trigger] s[i]).list.global_doc_freq >= top_k
                && s[i].list.idf_score == best_frequent_idf(s, top_k);
        let j = lemma_permutation_member(p, s, i);
        assert(p[j].list.global_doc_freq >= top_k);
    }
}

/// Pruning by weights makes the same calls whatever the order of the scorers: `a` and `b` are the
/// calls of two runs whose scorers differ in their order alone, and whose consumers answer alike.
pub proof fn law_idf_calls_ignore_order(
    s: Seq<TermScorer>,
    p: Seq<TermScorer>,
    threshold: Score,
    top_k: usize,
    rule: spec_fn(Seq<Call>, DocId, Score) -> Score,
    a: Seq<Call>,
    b: Seq<Call>,
)
    requires
        all_ready(s),
        s.to_multiset() == p.to_multiset(),
        exhaustive_run_rising(
            idf_scored_docs(s),
            starting_threshold(s, threshold, top_k),
            a,
        ),
        exhaustive_run_rising(
            idf_scored_docs(p),
            starting_threshold(p, threshold, top_k),
            b,
        ),
        answers_follow(rule, a),
        answers_follow(rule, b),
    ensures
        a == b,
{
    law_order_of_scorers(s, p);
    lemma_start_of_permuted(s, p, threshold, top_k);
    law_rising_run_unique(
        idf_scored_docs(s),
        starting_threshold(s, threshold, top_k),
        rule,
        a,
        b,
    );
}

/// Both prunings make the same calls where each document scores the weights of its terms: `a` are
/// the calls of the pruning by weights, without a number of documents to start from, and `b` those
/// of the pruning by bounds, on the same scorers in any order. The consumers answer alike, and never
/// lower the threshold.
pub proof fn law_prunings_agree(
    s: Seq<TermScorer>,
    p: Seq<TermScorer>,
    threshold: Score,
    rule: spec_fn(Seq<Call>, DocId, Score) -> Score,
    a: Seq<Call>,
    b: Seq<Call>,
)
    requires
        all_ready(s),
        s.to_multiset() == p.to_multiset(),
        forall|i: int, j: int|
            0 <= i < s.len() && 0 <= j < s[i].list.scores@.len() ==> (
            #[trigger] s[i].list.scores@[j]) == s[i].list.idf_score,
        exhaustive_run_rising(idf_scored_docs(s), starting_threshold(s, threshold, 0), a),
        pruned_run(scored_docs(p), threshold, b),
        calls_exceed(threshold, b),
        answers_follow(rule, a),
        answers_follow(rule, b),
        answers_rise(threshold, b),
    ensures
        a == b,
{
    law_constant_scores_are_weights(s);
    law_order_of_scorers(s, p);
    law_pruned_run_is_exhaustive(scored_docs(p), threshold, b);
    law_rising_run_unique(idf_scored_docs(s), threshold, rule, a, b);
}

/// Two states of walks over a union differ at most in the order of their essential terms.
pub open spec fn same_state(a: Union, b: Union) -> bool {
    &&& a.scorers == b.scorers
    &&& a.essential.to_multiset() == b.essential.to_multiset()
    &&& a.light == b.light
    &&& a.matches == b.matches
    &&& a.threshold == b.threshold
    &&& a.from == b.from
}

/// A state has one pivot.
proof fn lemma_one_pivot(a: Union, b: Union, p: DocId, q: DocId)
    requires
        same_state(a, b),
        a.is_pivot(p),
        b.is_pivot(q),
    ensures
        p >= q,
{
    broadcast use group_to_multiset_ensures;

    assert(a.essential.len() == a.essential.to_multiset().len());
    assert(b.essential.len() == b.essential.to_multiset().len());
    if p < q {
        let by_p = stands_before(a.scorers, p + 1);
        let by_q = stands_before(a.scorers, q as int);
        lemma_sum_permutation(a.essential, b.essential, indicator(by_p));
        lemma_count_implied(b.essential, by_p, by_q);
    }
}

/// Which terms have documents left is determined.
proof fn lemma_one_rest<'a>(
    scorers: Seq<TermScorer<'a>>,
    a: Union<'a>,
    b: Union<'a>,
    live: Seq<Term>,
    spent: Seq<Term>,
    live2: Seq<Term>,
    spent2: Seq<Term>,
)
    requires
        same_state(a, b),
        a.retains(scorers, live, spent),
        b.retains(scorers, live2, spent2),
    ensures
        live.to_multiset() == live2.to_multiset(),
{
    broadcast use group_to_multiset_ensures;
    broadcast use vstd::multiset::group_multiset_axioms;

    assert forall|t: Term| live.to_multiset().count(t) == live2.to_multiset().count(t) by {
        assert(live.to_multiset().add(spent.to_multiset()).count(t) == live2.to_multiset().add(
            spent2.to_multiset(),
        ).count(t));
        if live.contains(t) || live2.contains(t) {
            assert(!spent.contains(t) && !spent2.contains(t));
        }
        assert(live.contains(t) <==> live.to_multiset().count(t) > 0);
        assert(live2.contains(t) <==> live2.to_multiset().count(t) > 0);
        assert(spent.contains(t) <==> spent.to_multiset().count(t) > 0);
        assert(spent2.contains(t) <==> spent2.to_multiset().count(t) > 0);
    }
    assert(live.to_multiset() =~= live2.to_multiset());
}

/// Walks that start alike go on alike while the threshold stays.
proof fn lemma_walks_agree(
    total_idf: int,
    calls: Seq<Call>,
    v: Seq<Union>,
    w: Seq<Union>,
    i: int,
)
    requires
        is_walk_so_far(total_idf, calls, v),
        is_walk_so_far(total_idf, calls, w),
        v[0] == w[0],
        forall|c: int| 0 <= c < calls.len() ==> (#[trigger] calls[c]).threshold <= v[0].threshold,
        0 <= i < v.len(),
        i < w.len(),
    ensures
        same_state(v[i], w[i]),
        v[i].threshold == v[0].threshold,
        steps_of(v.take(i + 1)) == steps_of(w.take(i + 1)),
        seeks_of(v.take(i + 1)) == seeks_of(w.take(i + 1)),
    decreases i,
{
    if i > 0 {
        lemma_walks_agree(total_idf, calls, v, w, i - 1);
        let (a, b) = (v[i - 1], w[i - 1]);
        let (c, d) = (v[i], w[i]);
        assert(a.visits(calls, c));
        assert(b.visits(calls, d));
        lemma_one_pivot(a, b, (c.from - 1) as DocId, (d.from - 1) as DocId);
        lemma_one_pivot(b, a, (d.from - 1) as DocId, (c.from - 1) as DocId);
        lemma_scored_permuted(a, b, (c.from - 1) as DocId);
        let none: Seq<Call> = Seq::empty();
        lemma_threshold_at_later(a.threshold, calls, none, c.from as int);
        assert(calls + none =~= calls);
        let (live, spent) = choose|live: Seq<Term>, spent: Seq<Term>| #[trigger]
            a.retains(c.scorers, live, spent) && a.divides(live, c);
        let (live2, spent2) = choose|live: Seq<Term>, spent: Seq<Term>| #[trigger]
            b.retains(d.scorers, live, spent) && b.divides(live, d);
        lemma_one_rest(c.scorers, a, b, live, spent, live2, spent2);
        assert(v.take(i + 1).drop_last() =~= v.take(i));
        assert(w.take(i + 1).drop_last() =~= w.take(i));
    }
}

/// What a walk over a union does is determined as long as no answer exceeds its threshold: two
/// walks that start alike visit as many documents, with as many steps and seeks.
pub proof fn law_walk_is_determined(
    total_idf: int,
    calls: Seq<Call>,
    v: Seq<Union>,
    w: Seq<Union>,
)
    requires
        is_walk(total_idf, calls, v),
        is_walk(total_idf, calls, w),
        v[0] == w[0],
        forall|c: int| 0 <= c < calls.len() ==> (#[trigger] calls[c]).threshold <= v[0].threshold,
    ensures
        v.len() == w.len(),
        steps_of(v) == steps_of(w),
        seeks_of(v) == seeks_of(w),
{
    lemma_walk_stops(total_idf, calls, v, w);
    lemma_walk_stops(total_idf, calls, w, v);
    lemma_walks_agree(total_idf, calls, v, w, v.len() - 1);
    assert(v.take(v.len() as int) =~= v);
    assert(w.take(w.len() as int) =~= w);
}

/// A walk does not end where one that started alike goes on.
proof fn lemma_walk_stops(total_idf: int, calls: Seq<Call>, v: Seq<Union>, w: Seq<Union>)
    requires
        is_walk(total_idf, calls, v),
        is_walk_so_far(total_idf, calls, w),
        v[0] == w[0],
        forall|c: int| 0 <= c < calls.len() ==> (#[trigger] calls[c]).threshold <= v[0].threshold,
    ensures
        v.len() >= w.len(),
{
    broadcast use group_to_multiset_ensures;

    let n = v.len() - 1;
    if n + 1 < w.len() {
        lemma_walks_agree(total_idf, calls, v, w, n);
        if n > 0 {
            lemma_walks_agree(total_idf, calls, v, w, n - 1);
        }
        assert(!turns_heavy(v, n, total_idf));
        assert(w[n].visits(calls, w[n + 1]));
        assert(v[n].essential.len() == v[n].essential.to_multiset().len());
        assert(w[n].essential.len() == w[n].essential.to_multiset().len());
        lemma_one_pivot(w[n], v[n], (w[n + 1].from - 1) as DocId, TERMINATED);
    }
}

} // verus!
