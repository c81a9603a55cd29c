//! Which documents the union of all terms visits, in plain terms.
use vstd::prelude::*;
use vstd::seq_lib::{group_to_multiset_ensures, lemma_multiset_commutative};

use crate::collect_laws::law_count_by;
use crate::idf_counts::{
    is_ranking, is_walk, lemma_has_heavy, lemma_threshold_at_later, pruning_counts, seeks_of,
    steps_of, turns_heavy, union_counts, Union,
};
use crate::idf_lists::{absolutely_essential, demotes, dispensable};
use crate::idf_pruning::{idf_pruning, initial_division};
use crate::idf_ranks::{
    bottom_sum, idf_values, is_prefix_split, top_sum, value_fn,
};
use crate::idf_stats::IdfPruningStats;
use crate::idf_terms::{all_terms, hits, weight, Term};
use crate::idf_walk::{
    caught_up, contains_doc, from_heaviest, is_listed, moved_past, score_terms, stands_before,
};
use crate::list_laws::{law_sums_of_ranked, lemma_ranks, ranks};
use crate::plain_laws::{
    all_stand, is_met, lemma_all_stand, lemma_total, meets_at, stands, total,
};
use crate::pruning::{new_calls, Call, ScoreCallback};
use crate::run_laws::{are_weights, lemma_weights};
use crate::scorer_set::lemma_permutation_member;
use crate::sums::{
    count_by, indicator, lemma_count_bounds, lemma_count_none, lemma_sum_append, lemma_sum_element,
    lemma_sum_permutation, lemma_sum_zero, sum_by,
};
use crate::term_scorer::TermScorer;
use crate::types::{DocId, Score, TERMINATED};

verus! {

/// How many postings a cursor has left.
pub open spec fn postings_ahead<'a>() -> spec_fn(TermScorer<'a>) -> int {
    |s: TermScorer<'a>| s.list.docs@.len() - s.cursor
}

/// The cursor stands on `doc`.
spec fn stands_on<'a>(doc: DocId) -> spec_fn(TermScorer<'a>) -> bool {
    |s: TermScorer<'a>| s.doc() == doc
}

/// A state of a walk over all terms: none is set aside, one of them is enough, and those that are not
/// listed any more have no posting left.
spec fn is_open(state: Union, first: Seq<TermScorer>, start: Score, dropped: Seq<Term>) -> bool {
    &&& state.light.len() == 0
    &&& state.matches <= 1
    &&& state.threshold == start
    &&& all_stand(state.scorers)
    &&& state.scorers.len() == first.len()
    &&& forall|i: int| 0 <= i < first.len() ==> (#[trigger] state.scorers[i]).list == first[i].list
    &&& (state.essential + dropped).to_multiset() == all_terms(first).to_multiset()
    &&& forall|k: int|
        0 <= k < dropped.len() ==> state.scorers[(#[trigger] dropped[k]).index as int].doc()
            == TERMINATED
}

/// A cursor that is advanced stands on the next posting.
proof fn lemma_advanced(s: TermScorer)
    requires
        stands(s),
    ensures
        stands(s.advanced()),
        s.advanced().list == s.list,
        s.cursor < s.list.docs@.len() ==> s.advanced().cursor == s.cursor + 1,
        s.doc() == TERMINATED <==> s.cursor == s.list.docs@.len(),
{
    assert(s.list.docs@.len() == s.list.docs.len());
}

/// A scorer that has a document left belongs to a listed term.
proof fn lemma_listed(
    state: Union,
    first: Seq<TermScorer>,
    start: Score,
    dropped: Seq<Term>,
    i: int,
) -> (k: int)
    requires
        is_open(state, first, start, dropped),
        0 <= i < first.len() <= usize::MAX,
        state.scorers[i].doc() != TERMINATED,
    ensures
        0 <= k < state.essential.len(),
        state.essential[k].index == i,
{
    let all = all_terms(first);
    assert(all[i].index == i);
    let k = lemma_permutation_member(state.essential + dropped, all, i);
    if k >= state.essential.len() {
        assert(dropped[k - state.essential.len()].index == i);
    }
    k
}

/// A listed term has a scorer.
proof fn lemma_term_index(
    state: Union,
    first: Seq<TermScorer>,
    start: Score,
    dropped: Seq<Term>,
    k: int,
)
    requires
        is_open(state, first, start, dropped),
        first.len() <= usize::MAX,
        0 <= k < (state.essential + dropped).len(),
    ensures
        (state.essential + dropped)[k].index < first.len(),
{
    let i = lemma_permutation_member(all_terms(first), state.essential + dropped, k);
    assert(all_terms(first)[i].index == i);
}

/// What a visit does to an open state: the cursors on the pivot go on, and no other cursor moves.
proof fn lemma_visit<'a>(
    state: Union<'a>,
    next: Union<'a>,
    first: Seq<TermScorer<'a>>,
    start: Score,
    calls: Seq<Call>,
    dropped: Seq<Term>,
    pivot: DocId,
) -> (dropped2: Seq<Term>)
    requires
        is_open(state, first, start, dropped),
        first.len() <= usize::MAX,
        state.visits(calls, next),
        pivot == next.from - 1,
        forall|c: int| 0 <= c < calls.len() ==> (#[trigger] calls[c]).threshold <= start,
    ensures
        is_open(next, first, start, dropped2),
        pivot < TERMINATED,
        forall|i: int|
            0 <= i < first.len() ==> {
                let s = #[trigger] state.scorers[i];
                &&& s.doc() >= pivot
                &&& next.scorers[i] == (if s.doc() == pivot {
                    s.advanced()
                } else {
                    s
                })
            },
        exists|i: int| 0 <= i < first.len() && (#[trigger] state.scorers[i]).doc() == pivot,
        state.seeks(pivot) == 0,
        state.steps(pivot) == count_by(state.scorers, stands_on(pivot)),
{
    broadcast use group_to_multiset_ensures;

    let e = state.essential;
    let before = stands_before(state.scorers, pivot as int);
    let by = stands_before(state.scorers, pivot + 1);
    assert(state.rank() == 1);
    lemma_count_bounds(e, before);
    assert forall|i: int| 0 <= i < first.len() implies (#[trigger] state.scorers[i]).doc()
        >= pivot by {
        assert(stands(state.scorers[i]));
        if state.scorers[i].doc() < pivot {
            let k = lemma_listed(state, first, start, dropped, i);
            assert(before(e[k]));
            assert forall|j: int| 0 <= j < e.len() implies 0 <= indicator(before)(
                #[trigger] e[j],
            ) by {}
            lemma_sum_element(e, k, indicator(before));
        }
    }
    assert(exists|k: int| 0 <= k < e.len() && by(#[trigger] e[k])) by {
        if forall|k: int| 0 <= k < e.len() ==> !by(#[trigger] e[k]) {
            lemma_count_none(e, by);
        }
    }
    let k = choose|k: int| 0 <= k < e.len() && by(#[trigger] e[k]);
    assert((e + dropped)[k] == e[k]);
    lemma_term_index(state, first, start, dropped, k);
    assert(state.scorers[e[k].index as int].doc() == pivot);
    let caught = caught_up(state.scorers, e, pivot);
    assert(caught =~= state.scorers);
    let past = moved_past(state.scorers, e, pivot);
    assert(state.scored(pivot).scorers == past && state.scored(pivot).seeks == 0) by {
        reveal(Union::scored);
    }
    assert forall|i: int| 0 <= i < first.len() implies #[trigger] next.scorers[i] == (
    if state.scorers[i].doc() == pivot {
        state.scorers[i].advanced()
    } else {
        state.scorers[i]
    }) by {
        if state.scorers[i].doc() == pivot {
            let k = lemma_listed(state, first, start, dropped, i);
            assert(is_listed(e, i));
        }
    }
    let none: Seq<Call> = Seq::empty();
    lemma_threshold_at_later(start, calls, none, next.from as int);
    assert(calls + none =~= calls);
    assert(next.threshold == start);
    let (live, spent) = choose|live: Seq<Term>, spent: Seq<Term>| #[trigger]
        state.retains(next.scorers, live, spent) && state.divides(live, next);
    let dropped2 = spent + dropped;
    assert(all_stand(next.scorers)) by {
        assert forall|i: int| 0 <= i < next.scorers.len() implies stands(
            #[trigger] next.scorers[i],
        ) by {
            assert(stands(state.scorers[i]));
            lemma_advanced(state.scorers[i]);
        }
    }
    lemma_multiset_commutative(live, spent + dropped);
    lemma_multiset_commutative(spent, dropped);
    lemma_multiset_commutative(e, dropped);
    assert((live + dropped2).to_multiset() =~= (e + dropped).to_multiset());
    assert forall|k: int| 0 <= k < dropped2.len() implies next.scorers[(
    #[trigger] dropped2[k]).index as int].doc() == TERMINATED by {
        if k < spent.len() {
            assert(dropped2[k] == spent[k]);
        } else {
            let d = k - spent.len();
            assert(dropped2[k] == dropped[d]);
            assert((e + dropped)[e.len() + d] == dropped[d]);
            lemma_term_index(state, first, start, dropped, e.len() + d);
            assert(state.scorers[dropped[d].index as int].doc() == TERMINATED);
        }
    }
    lemma_steps(state, first, start, dropped, pivot);
    dropped2
}

/// The steps of a visit are the cursors on the pivot.
proof fn lemma_steps(
    state: Union,
    first: Seq<TermScorer>,
    start: Score,
    dropped: Seq<Term>,
    pivot: DocId,
)
    requires
        is_open(state, first, start, dropped),
        first.len() <= usize::MAX,
        pivot < TERMINATED,
        forall|i: int| 0 <= i < first.len() ==> (#[trigger] state.scorers[i]).doc() >= pivot,
    ensures
        state.steps(pivot) == count_by(state.scorers, stands_on(pivot)),
{
    let e = state.essential;
    let all = all_terms(first);
    let p = contains_doc(state.scorers, pivot);
    lemma_all_stand(state.scorers);
    assert forall|i: int| 0 <= i < first.len() implies (#[trigger] state.scorers[i]).matches(pivot)
        == (state.scorers[i].doc() == pivot) by {
        assert(state.scorers[i].wf());
        state.scorers[i].lemma_matches();
    }
    lemma_sum_append(e, dropped, indicator(p));
    assert forall|k: int| 0 <= k < dropped.len() implies !p(#[trigger] dropped[k]) by {
        assert((e + dropped)[e.len() + k] == dropped[k]);
        lemma_term_index(state, first, start, dropped, e.len() + k);
    }
    lemma_count_none(dropped, p);
    lemma_sum_permutation(e + dropped, all, indicator(p));
    let parts = all.map_values(indicator(p));
    assert forall|i: int| 0 <= i < all.len() implies #[trigger] parts[i] == indicator(
        stands_on(pivot),
    )(state.scorers[i]) by {
        assert(all[i].index == i);
        assert(state.scorers[i].matches(pivot) == (state.scorers[i].doc() == pivot));
    }
    lemma_total(all, indicator(p), parts);
    lemma_total(state.scorers, indicator(stands_on(pivot)), parts);
}

/// Each cursor on the pivot has one posting less ahead.
proof fn lemma_ahead<'a>(s: Seq<TermScorer<'a>>, t: Seq<TermScorer<'a>>, pivot: DocId)
    requires
        all_stand(s),
        t.len() == s.len(),
        pivot < TERMINATED,
        forall|i: int|
            0 <= i < s.len() ==> #[trigger] t[i] == (if s[i].doc() == pivot {
                s[i].advanced()
            } else {
                s[i]
            }),
    ensures
        sum_by(t, postings_ahead()) == sum_by(s, postings_ahead()) - count_by(s, stands_on(pivot)),
    decreases s.len(),
{
    if s.len() > 0 {
        let (a, b) = (s.drop_last(), t.drop_last());
        assert forall|i: int| 0 <= i < a.len() implies #[trigger] b[i] == (if a[i].doc() == pivot {
            a[i].advanced()
        } else {
            a[i]
        }) by {
            assert(b[i] == t[i] && a[i] == s[i]);
        }
        assert forall|i: int| 0 <= i < a.len() implies stands(#[trigger] a[i]) by {
            assert(a[i] == s[i]);
        }
        lemma_ahead(a, b, pivot);
        assert(stands(s[s.len() - 1]));
        lemma_advanced(s[s.len() - 1]);
        assert(t[s.len() - 1] == t.last());
    }
}

/// A visit takes the pivot, the lowest document that is met, out of those that are met.
proof fn lemma_met_after<'a>(
    s: Seq<TermScorer<'a>>,
    t: Seq<TermScorer<'a>>,
    pivot: DocId,
    doc: DocId,
)
    requires
        all_stand(s),
        t.len() == s.len(),
        pivot < TERMINATED,
        forall|i: int| 0 <= i < s.len() ==> (#[trigger] s[i]).doc() >= pivot,
        forall|i: int|
            0 <= i < s.len() ==> #[trigger] t[i] == (if s[i].doc() == pivot {
                s[i].advanced()
            } else {
                s[i]
            }),
    ensures
        is_met(s, doc) ==> doc >= pivot,
        is_met(t, doc) <==> is_met(s, doc) && doc != pivot,
{
    if is_met(s, doc) {
        let (i, p) = choose|i: int, p: int| 0 <= i < s.len() && #[trigger] meets_at(s[i], doc, p);
        let docs = s[i].list.docs@;
        assert(stands(s[i]));
        lemma_advanced(s[i]);
        if p > s[i].cursor {
            assert(docs[s[i].cursor as int] < docs[p]);
        }
        if doc != pivot {
            assert(t[i].list == s[i].list);
            assert(meets_at(t[i], doc, p));
        }
    }
    if is_met(t, doc) {
        let (i, p) = choose|i: int, p: int| 0 <= i < t.len() && #[trigger] meets_at(t[i], doc, p);
        let docs = s[i].list.docs@;
        assert(stands(s[i]));
        lemma_advanced(s[i]);
        assert(t[i].list == s[i].list);
        assert(meets_at(s[i], doc, p));
        if p > s[i].cursor {
            assert(docs[s[i].cursor as int] < docs[p]);
        }
    }
}

/// The states of a walk, one by one: after `i` visits, the first `i` documents have been taken.
proof fn lemma_walk<'a>(
    walk: Seq<Union<'a>>,
    first: Seq<TermScorer<'a>>,
    start: Score,
    calls: Seq<Call>,
    docs: Seq<DocId>,
    i: int,
) -> (dropped: Seq<Term>)
    requires
        walk.len() > 0,
        forall|j: int| 0 < j < walk.len() ==> walk[j - 1].visits(calls, #[trigger] walk[j]),
        walk[0].scorers == first,
        is_open(walk[0], first, start, Seq::empty()),
        first.len() <= usize::MAX,
        forall|c: int| 0 <= c < calls.len() ==> (#[trigger] calls[c]).threshold <= start,
        forall|x: int, y: int| 0 <= x < y < docs.len() ==> #[trigger] docs[x] < #[trigger] docs[y],
        forall|d: DocId| docs.contains(d) <==> #[trigger] is_met(first, d),
        0 <= i < walk.len(),
    ensures
        is_open(walk[i], first, start, dropped),
        i <= docs.len(),
        forall|d: DocId| #[trigger] is_met(walk[i].scorers, d) <==> docs.skip(i).contains(d),
        steps_of(walk.take(i + 1)) == sum_by(first, postings_ahead()) - sum_by(
            walk[i].scorers,
            postings_ahead(),
        ),
        seeks_of(walk.take(i + 1)) == 0,
    decreases i,
{
    if i == 0 {
        assert(docs.skip(0) =~= docs);
        Seq::empty()
    } else {
        let dropped = lemma_walk(walk, first, start, calls, docs, i - 1);
        let (s, t) = (walk[i - 1].scorers, walk[i].scorers);
        assert(walk[i - 1].visits(calls, walk[i]));
        let pivot = (walk[i].from - 1) as DocId;
        let dropped2 = lemma_visit(
            walk[i - 1],
            walk[i],
            first,
            start,
            calls,
            dropped,
            pivot,
        );
        lemma_ahead(s, t, pivot);
        let j = choose|j: int| 0 <= j < first.len() && (#[trigger] s[j]).doc() == pivot;
        assert(stands(s[j]));
        assert(meets_at(s[j], pivot, s[j].cursor as int));
        assert(is_met(s, pivot));
        let left = docs.skip(i - 1);
        let x = choose|x: int| 0 <= x < left.len() && left[x] == pivot;
        assert(left.contains(left[0]));
        assert(is_met(s, left[0]));
        lemma_met_after(s, t, pivot, left[0]);
        if x > 0 {
            assert(docs[i - 1] < docs[i - 1 + x]);
        }
        assert(left[0] == pivot);
        let after = docs.skip(i);
        assert forall|d: DocId| #[trigger] is_met(t, d) <==> after.contains(d) by {
            lemma_met_after(s, t, pivot, d);
            assert(is_met(s, d) <==> left.contains(d));
            if after.contains(d) {
                let y = choose|y: int| 0 <= y < after.len() && after[y] == d;
                assert(left[y + 1] == d);
                assert(docs[i - 1] < docs[i + y]);
            }
            if left.contains(d) && d != pivot {
                let y = choose|y: int| 0 <= y < left.len() && left[y] == d;
                assert(after[y - 1] == d);
            }
        }
        assert(walk.take(i + 1).drop_last() =~= walk.take(i));
        dropped2
    }
}

/// A walk over all terms ends when every posting has been passed.
proof fn lemma_walk_over(
    state: Union,
    first: Seq<TermScorer>,
    start: Score,
    dropped: Seq<Term>,
)
    requires
        is_open(state, first, start, dropped),
        first.len() <= usize::MAX,
        state.is_over(),
    ensures
        forall|i: int|
            0 <= i < first.len() ==> (#[trigger] state.scorers[i]).cursor
                == state.scorers[i].list.docs@.len(),
        sum_by(state.scorers, postings_ahead()) == 0,
        forall|d: DocId| !#[trigger] is_met(state.scorers, d),
{
    let e = state.essential;
    let p = stands_before(state.scorers, TERMINATED as int);
    assert forall|i: int| 0 <= i < first.len() implies (#[trigger] state.scorers[i]).cursor
        == state.scorers[i].list.docs@.len() by {
        assert(stands(state.scorers[i]));
        if state.scorers[i].doc() != TERMINATED {
            let k = lemma_listed(state, first, start, dropped, i);
            assert(state.rank() == 1);
            assert(p(e[k]));
            assert forall|j: int| 0 <= j < e.len() implies 0 <= indicator(p)(#[trigger] e[j]) by {}
            lemma_sum_element(e, k, indicator(p));
        }
    }
    lemma_sum_zero(state.scorers, postings_ahead());
}

/// Where every term alone exceeds the threshold, none of them is heavier than what the total leaves
/// above it, and no answer raises it, each document of the terms is evaluated once. Every posting
/// takes one step, and no cursor seeks.
pub proof fn law_union<'a, C: ScoreCallback>(
    scorers: Vec<TermScorer<'a>>,
    threshold: Score,
    top_k: usize,
    callback: &mut C,
    stats: IdfPruningStats,
    calls: Seq<Call>,
    weights: Seq<int>,
    ranked: Seq<int>,
    docs: Seq<DocId>,
    ahead: Seq<int>,
)
    requires
        all_stand(scorers@),
        scorers@.len() > 0,
        are_weights(scorers@, weights),
        ranks(weights, ranked),
        call_ensures(idf_pruning::<C>, (scorers, threshold, top_k, callback), stats),
        calls == final(callback).calls().skip(old(callback).calls().len() as int),
        forall|i: int|
            0 <= i < weights.len() ==> stats.initial_threshold < #[trigger] weights[i] <= total(
                weights,
            ) - stats.initial_threshold,
        total(weights) > stats.initial_threshold,
        forall|c: int|
            0 <= c < calls.len() ==> (#[trigger] calls[c]).threshold <= stats.initial_threshold,
        forall|x: int, y: int| 0 <= x < y < docs.len() ==> #[trigger] docs[x] < #[trigger] docs[y],
        forall|d: DocId| docs.contains(d) <==> #[trigger] is_met(scorers@, d),
        ahead.len() == scorers@.len(),
        forall|i: int|
            0 <= i < ahead.len() ==> #[trigger] ahead[i] == scorers@[i].list.docs@.len()
                - scorers@[i].cursor,
    ensures
        stats.phase1_candidates == docs.len(),
        stats.phase2_candidates == 0,
        stats.candidates_evaluated == docs.len(),
        stats.num_advances == total(ahead),
        stats.num_seeks == 0,
        stats.num_absolutely_essential_at_end == 0,
{
    let start = stats.initial_threshold;
    let whole = total(weights);
    let all = all_terms(scorers@);
    lemma_weights(scorers@, weights);
    lemma_total(scorers@, postings_ahead(), ahead);
    let (order, split) = choose|order: Seq<Term>, split: int| #[trigger]
        is_ranking(all, order) && #[trigger] is_prefix_split(idf_values(order), start, split)
            && pruning_counts(
            scorers@,
            whole,
            start,
            calls,
            order,
            split,
            stats.initial_min_essential_matches as int,
            stats.final_threshold,
            stats.phase1_candidates as int,
            stats.phase2_candidates as int,
            stats.num_advances as int,
            stats.num_seeks as int,
            stats.num_absolutely_essential_at_end as int,
        );
    lemma_all_are_essential(all, order, split, weights, whole, start);
    lemma_few_matches(stats, weights, ranked, whole, start);
    let matches = stats.initial_min_essential_matches as int;
    let entry = Union {
        scorers: scorers@,
        essential: order.skip(split),
        light: order.take(split),
        matches,
        threshold: start,
        from: 0,
    };
    let walk = choose|walk: Seq<Union>| #[trigger]
        is_walk(whole, calls, walk) && walk[0] == entry && union_counts(
            whole,
            calls,
            walk,
            stats.final_threshold,
            stats.phase1_candidates as int,
            stats.phase2_candidates as int,
            stats.num_advances as int,
            stats.num_seeks as int,
            0,
            stats.num_absolutely_essential_at_end as int,
        );
    let none: Seq<Term> = Seq::empty();
    assert(entry.essential + none =~= order);
    assert(is_open(entry, scorers@, start, none));
    assert(scorers@.len() == scorers.len());
    let last = walk.len() - 1;
    let dropped = lemma_walk(walk, scorers@, start, calls, docs, last);
    if last > 0 {
        let earlier = lemma_walk(walk, scorers@, start, calls, docs, last - 1);
    }
    assert(!turns_heavy(walk, last, whole));
    lemma_walk_over(walk[last], scorers@, start, dropped);
    assert(walk.take(last + 1) =~= walk);
    if last < docs.len() {
        let left = docs.skip(last);
        assert(left.contains(left[0]));
        assert(is_met(walk[last].scorers, left[0]));
    }
}

/// Scoring terms moves each of them at most once.
proof fn lemma_scored_seeks(
    scorers: Seq<TermScorer>,
    terms: Seq<Term>,
    doc: DocId,
    threshold: Score,
    score: int,
)
    ensures
        0 <= score_terms(scorers, terms, doc, threshold, score).seeks <= terms.len(),
    decreases terms.len(),
{
    if terms.len() != 0 && score + weight(terms) > threshold {
        let i = terms[0].index as int;
        let rest = terms.skip(1);
        let scorer = scorers[i].sought(doc);
        lemma_scored_seeks(scorers, rest, doc, threshold, score);
        lemma_scored_seeks(scorers.update(i, scorer), rest, doc, threshold, score + terms[0].idf);
        lemma_scored_seeks(scorers.update(i, scorer), rest, doc, threshold, score);
    }
}

/// A visit takes at most one seek and one step of each term, and leaves no more terms.
proof fn lemma_visit_cost(state: Union, next: Union, calls: Seq<Call>, n: int)
    requires
        state.visits(calls, next),
        state.essential.len() + state.light.len() <= n,
    ensures
        next.essential.len() + next.light.len() <= n,
        0 <= state.seeks((next.from - 1) as DocId) <= n,
        0 <= state.steps((next.from - 1) as DocId) <= n,
{
    broadcast use group_to_multiset_ensures;

    let pivot = (next.from - 1) as DocId;
    let e = state.essential;
    lemma_count_bounds(e, stands_before(state.scorers, pivot as int));
    lemma_count_bounds(e, contains_doc(state.scorers, pivot));
    assert(0 <= state.scored(pivot).seeks <= state.light.len()) by {
        reveal(Union::scored);
        lemma_scored_seeks(
            moved_past(caught_up(state.scorers, e, pivot), e, pivot),
            from_heaviest(state.light, true),
            pivot,
            state.threshold,
            hits(state.scorers, e, pivot),
        );
    }
    let (live, spent) = choose|live: Seq<Term>, spent: Seq<Term>| #[trigger]
        state.retains(next.scorers, live, spent) && state.divides(live, next);
    assert(live.to_multiset().add(spent.to_multiset()).len() == e.to_multiset().len());
    assert(live.len() == live.to_multiset().len() && spent.len() == spent.to_multiset().len());
    assert(e.len() == e.to_multiset().len());
    if next.threshold > state.threshold {
        let demoted = choose|demoted: Seq<Term>| #[trigger]
            demotes(live, state.light, next.essential, next.light, demoted);
        let (a, b) = (next.essential, next.light);
        assert(a.len() == a.to_multiset().len() && b.len() == b.to_multiset().len());
        assert(demoted.len() == demoted.to_multiset().len());
        assert(state.light.len() == state.light.to_multiset().len());
        assert(a.to_multiset().add(demoted.to_multiset()).len() == live.to_multiset().len());
        assert(state.light.to_multiset().add(demoted.to_multiset()).len()
            == b.to_multiset().len());
    }
}

proof fn lemma_walk_cost(walk: Seq<Union>, calls: Seq<Call>, n: int, i: int)
    requires
        0 <= i < walk.len(),
        forall|j: int| 0 < j < walk.len() ==> walk[j - 1].visits(calls, #[trigger] walk[j]),
        walk[0].essential.len() + walk[0].light.len() <= n,
    ensures
        walk[i].essential.len() + walk[i].light.len() <= n,
        0 <= seeks_of(walk.take(i + 1)) <= n * i,
        0 <= steps_of(walk.take(i + 1)) <= n * i,
    decreases i,
{
    if i > 0 {
        lemma_walk_cost(walk, calls, n, i - 1);
        assert(walk[i - 1].visits(calls, walk[i]));
        lemma_visit_cost(walk[i - 1], walk[i], calls, n);
        assert(walk.take(i + 1).drop_last() =~= walk.take(i));
        assert(n * i == n * (i - 1) + n) by (nonlinear_arith);
    } else {
        assert(n * 0 == 0);
    }
}

/// As long as no term is absolutely essential, a document that is evaluated takes at most one seek and
/// one step of each term.
pub proof fn law_union_cost<'a, C: ScoreCallback>(
    scorers: Vec<TermScorer<'a>>,
    threshold: Score,
    top_k: usize,
    callback: &mut C,
    stats: IdfPruningStats,
    weights: Seq<int>,
)
    requires
        all_stand(scorers@),
        scorers@.len() > 0,
        are_weights(scorers@, weights),
        call_ensures(idf_pruning::<C>, (scorers, threshold, top_k, callback), stats),
        total(weights) > stats.initial_threshold,
        stats.num_absolutely_essential_at_end == 0,
    ensures
        stats.phase2_candidates == 0,
        stats.num_seeks <= stats.num_terms * stats.candidates_evaluated,
        stats.num_advances <= stats.num_terms * stats.candidates_evaluated,
{
    broadcast use group_to_multiset_ensures;

    let start = stats.initial_threshold;
    let whole = total(weights);
    let all = all_terms(scorers@);
    let calls = new_calls(old(callback).calls(), final(callback).calls());
    lemma_weights(scorers@, weights);
    let (order, split) = choose|order: Seq<Term>, split: int| #[trigger]
        is_ranking(all, order) && #[trigger] is_prefix_split(idf_values(order), start, split)
            && pruning_counts(
            scorers@,
            whole,
            start,
            calls,
            order,
            split,
            stats.initial_min_essential_matches as int,
            stats.final_threshold,
            stats.phase1_candidates as int,
            stats.phase2_candidates as int,
            stats.num_advances as int,
            stats.num_seeks as int,
            stats.num_absolutely_essential_at_end as int,
        );
    assert(order.len() == order.to_multiset().len() && all.len() == all.to_multiset().len());
    let abs = order.skip(split).filter(absolutely_essential(whole, start));
    lemma_count_bounds(
        order.skip(split).filter(dispensable(whole, start)) + order.take(split),
        absolutely_essential(whole, stats.final_threshold),
    );
    assert(abs.len() == 0);
    let entry = Union {
        scorers: scorers@,
        essential: order.skip(split),
        light: order.take(split),
        matches: stats.initial_min_essential_matches as int,
        threshold: start,
        from: 0,
    };
    let walk = choose|walk: Seq<Union>| #[trigger]
        is_walk(whole, calls, walk) && walk[0] == entry && union_counts(
            whole,
            calls,
            walk,
            stats.final_threshold,
            stats.phase1_candidates as int,
            stats.phase2_candidates as int,
            stats.num_advances as int,
            stats.num_seeks as int,
            0,
            stats.num_absolutely_essential_at_end as int,
        );
    let last = walk.len() - 1;
    let end = walk[last];
    if turns_heavy(walk, last, whole) {
        lemma_has_heavy(
            end,
            end.essential.filter(absolutely_essential(whole, end.threshold)),
            whole,
        );
        lemma_count_bounds(
            end.essential.filter(dispensable(whole, end.threshold)) + end.light,
            absolutely_essential(whole, stats.final_threshold),
        );
    }
    lemma_walk_cost(walk, calls, scorers@.len() as int, last);
    assert(walk.take(last + 1) =~= walk);
}

/// Where every weight exceeds the threshold and none is heavy, no term is set aside, and none is
/// absolutely essential.
proof fn lemma_all_are_essential(
    all: Seq<Term>,
    order: Seq<Term>,
    split: int,
    weights: Seq<int>,
    whole: int,
    start: Score,
)
    requires
        weights == idf_values(all),
        is_ranking(all, order),
        is_prefix_split(idf_values(order), start, split),
        forall|i: int| 0 <= i < weights.len() ==> start < #[trigger] weights[i] <= whole - start,
    ensures
        split == 0,
        order.skip(split).filter(absolutely_essential(whole, start)).len() == 0,
{
    let values = idf_values(order);
    let heavy = absolutely_essential(whole, start);
    assert forall|j: int| 0 <= j < order.len() implies start < (#[trigger] order[j]).idf <= whole
        - start by {
        let i = lemma_permutation_member(all, order, j);
        assert(weights[i] == all[i].idf);
    }
    if split >= 1 {
        let one = values.take(1);
        assert(one.drop_last() =~= Seq::empty());
        assert(one.last() == order[0].idf);
        assert(sum_by(one.drop_last(), value_fn()) == 0);
        assert(sum_by(one, value_fn()) == order[0].idf);
    }
    assert(order.skip(0) =~= order);
    law_count_by(order, heavy);
    assert forall|j: int| 0 <= j < order.len() implies !heavy(#[trigger] order[j]) by {}
    lemma_count_none(order, heavy);
}

/// One term is enough to exceed the threshold.
proof fn lemma_few_matches(
    stats: IdfPruningStats,
    weights: Seq<int>,
    ranked: Seq<int>,
    whole: int,
    start: Score,
)
    requires
        initial_division(stats, weights, whole, start),
        ranks(weights, ranked),
        weights.len() > 0,
        whole > start,
        forall|i: int| 0 <= i < weights.len() ==> start < #[trigger] weights[i] <= whole - start,
    ensures
        stats.initial_min_essential_matches <= 1,
{
    lemma_ranks(weights, ranked);
    let split = weights.len() - stats.initial_num_essential;
    let m = stats.initial_min_essential_matches as int;
    assert forall|j: int| 0 <= j < ranked.len() implies start < #[trigger] ranked[j] by {
        let i = lemma_permutation_member(weights, ranked, j);
    }
    if split >= 1 {
        let one = ranked.take(1);
        assert(one.drop_last() =~= Seq::empty());
        assert(sum_by(one.drop_last(), value_fn()) == 0);
        assert(one.last() == ranked[0]);
        assert(sum_by(one, value_fn()) <= start);
    }
    assert(ranked.skip(0) =~= ranked);
    if m >= 2 {
        let last = ranked.len() - 1;
        law_sums_of_ranked(ranked, ranked, 1);
        let one = ranked.skip(last);
        assert(one.drop_last() =~= Seq::empty());
        assert(total(one.drop_last()) == 0);
        assert(one.last() == ranked[last]);
        assert(total(one) == ranked[last]);
        law_sums_of_ranked(weights, ranked, 0);
        assert(ranked.take(0) =~= Seq::empty());
        assert(total(ranked.take(0)) == 0);
        assert(bottom_sum(weights, 0) + top_sum(ranked, 1) <= start);
    }
}

} // verus!
