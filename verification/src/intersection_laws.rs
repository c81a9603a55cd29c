//! Which documents the intersection of heavy terms evaluates, in plain terms.
use vstd::prelude::*;
use vstd::seq_lib::{group_to_multiset_ensures, lemma_multiset_commutative};

use crate::collect_laws::law_count_by;
use crate::idf_counts::{
    candidates_between, is_candidate, is_ranking, pruning_counts, threshold_at,
};
use crate::idf_lists::{absolutely_essential, dispensable, lemma_filter_parts};
use crate::idf_pruning::idf_pruning;
use crate::idf_ranks::{idf_values, is_prefix_split, lemma_values_sum, value_fn};
use crate::idf_stats::IdfPruningStats;
use crate::idf_terms::{all_terms, idf_fn, Term};
use crate::plain_laws::{all_stand, law_score_at, lemma_all_stand, lemma_total, meets_at, total};
use crate::pruning::{lemma_peak_bounds, Call, ScoreCallback};
use crate::sorting::sorted_by_key;
use crate::run_laws::{are_weights, lemma_heaviest_is_essential, lemma_weights};
use crate::scorer_set::lemma_permutation_member;
use crate::sums::{
    count_by, indicator, lemma_count_all, lemma_count_none, lemma_sum_append, lemma_sum_eq,
    lemma_sum_permutation, lemma_sum_split, lemma_sum_take_le, lemma_sum_zero, sum_by,
};
use crate::term_scorer::TermScorer;
use crate::types::{DocId, Score, TERMINATED};

verus! {

/// What the weights up to `cut` are, with 0 for the others.
pub open spec fn up_to(weights: Seq<int>, cut: int) -> Seq<int> {
    weights.map_values(
        |w: int|
            if w <= cut {
                w
            } else {
                0
            },
    )
}

/// The terms that weigh more than `cut` are the essential ones: the others add up to the threshold at
/// most, and with any one more they exceed it.
pub open spec fn cuts(weights: Seq<int>, start: Score, cut: int) -> bool {
    &&& (exists|i: int| 0 <= i < weights.len() && #[trigger] weights[i] <= cut) ==> total(
        up_to(weights, cut),
    ) <= start
    &&& forall|i: int|
        0 <= i < weights.len() && #[trigger] weights[i] > cut ==> total(up_to(weights, cut))
            + weights[i] > start
}

/// A document above the threshold contains every term of this weight: the term is essential and
/// heavier than what the total leaves above the first threshold, or it is heavier than what the total
/// leaves above a higher answer to a document before `doc`.
pub open spec fn is_required(
    weights: Seq<int>,
    start: Score,
    cut: int,
    calls: Seq<Call>,
    doc: DocId,
    w: int,
) -> bool {
    ||| w > cut && w > total(weights) - start
    ||| exists|c: int|
        0 <= c < calls.len() && (#[trigger] calls[c]).doc < doc && calls[c].threshold > start && w
            > total(weights) - calls[c].threshold
}

/// The cursor has a posting of `doc` ahead.
pub open spec fn has(scorer: TermScorer, doc: DocId) -> bool {
    exists|p: int| #[trigger] meets_at(scorer, doc, p)
}

/// `doc` is in every term that is required of it.
pub open spec fn is_common(
    scorers: Seq<TermScorer>,
    weights: Seq<int>,
    start: Score,
    cut: int,
    calls: Seq<Call>,
    doc: DocId,
) -> bool {
    forall|i: int|
        0 <= i < scorers.len() && is_required(
            weights,
            start,
            cut,
            calls,
            doc,
            weights[i],
        ) ==> has(#[trigger] scorers[i], doc)
}

proof fn lemma_threshold_reached(start: Score, calls: Seq<Call>, doc: int)
    ensures
        threshold_at(start, calls, doc) >= start,
        forall|c: int|
            0 <= c < calls.len() && (#[trigger] calls[c]).doc < doc ==> calls[c].threshold
                <= threshold_at(start, calls, doc),
        threshold_at(start, calls, doc) > start ==> exists|c: int|
            0 <= c < calls.len() && (#[trigger] calls[c]).doc < doc && calls[c].threshold
                == threshold_at(start, calls, doc),
    decreases calls.len(),
{
    if calls.len() > 0 {
        let shorter = calls.drop_last();
        lemma_threshold_reached(start, shorter, doc);
        let t = threshold_at(start, calls, doc);
        assert forall|c: int| 0 <= c < calls.len() && (#[trigger] calls[c]).doc < doc implies calls[c].threshold
            <= t by {
            if c < shorter.len() {
                assert(shorter[c] == calls[c]);
            }
        }
        if t > start {
            if t == threshold_at(start, shorter, doc) {
                let c = choose|c: int|
                    0 <= c < shorter.len() && (#[trigger] shorter[c]).doc < doc && shorter[c].threshold
                        == t;
                assert(calls[c] == shorter[c]);
            } else {
                assert(calls[calls.len() - 1].threshold == t);
            }
        }
    }
}

/// The split of ranked terms is where they become heavier than `cut`.
proof fn lemma_cut(ranked: Seq<Term>, all: Seq<Term>, weights: Seq<int>, start: Score, cut: int, split: int)
    requires
        is_ranking(all, ranked),
        weights == idf_values(all),
        forall|i: int| 0 <= i < all.len() ==> 0 <= (#[trigger] all[i]).idf,
        cuts(weights, start, cut),
        is_prefix_split(idf_values(ranked), start, split),
    ensures
        forall|j: int| 0 <= j < split ==> (#[trigger] ranked[j]).idf <= cut,
        forall|j: int| split <= j < ranked.len() ==> (#[trigger] ranked[j]).idf > cut,
{
    broadcast use group_to_multiset_ensures;

    let n = ranked.len() as int;
    assert(ranked.len() == ranked.to_multiset().len() && all.len() == all.to_multiset().len());
    let f = |t: Term|
        if t.idf <= cut {
            t.idf as int
        } else {
            0
        };
    assert forall|j: int| 0 <= j < n implies 0 <= idf_fn()(#[trigger] ranked[j]) by {
        let i = lemma_permutation_member(all, ranked, j);
        assert(all[i].idf >= 0);
    }
    lemma_total(all, f, up_to(weights, cut));
    lemma_sum_permutation(all, ranked, f);
    let c = lemma_first_above(ranked, cut, n);
    let (low, high) = (ranked.take(c), ranked.skip(c));
    lemma_sum_split(ranked, c, f);
    assert forall|j: int| 0 <= j < high.len() implies f(#[trigger] high[j]) == 0 by {
        assert(high[j] == ranked[c + j]);
    }
    lemma_sum_zero(high, f);
    assert forall|j: int| 0 <= j < low.len() implies f(#[trigger] low[j]) == idf_fn()(low[j]) by {
        assert(low[j] == ranked[j]);
    }
    lemma_sum_eq(low, low, f, idf_fn());
    let values = idf_values(ranked);
    if split < c {
        lemma_sum_take_le(ranked, split + 1, c, idf_fn());
        lemma_values_sum(ranked.take(split + 1));
        assert(values.take(split + 1) =~= idf_values(ranked.take(split + 1)));
        let i = lemma_permutation_member(all, ranked, 0);
        assert(weights[i] <= cut);
    }
    if c < split {
        lemma_values_sum(ranked.take(c + 1));
        assert(values.take(c + 1) =~= idf_values(ranked.take(c + 1)));
        assert(ranked.take(c + 1).drop_last() =~= low);
        let i = lemma_permutation_member(all, ranked, c);
        assert(weights[i] > cut);
        assert(sum_by(values.take(c + 1), value_fn()) <= start);
    }
}

/// Where sorted terms become heavier than `cut`.
proof fn lemma_first_above(ranked: Seq<Term>, cut: int, n: int) -> (c: int)
    requires
        sorted_by_key(ranked, idf_fn()),
        0 <= n <= ranked.len(),
        forall|j: int| n <= j < ranked.len() ==> (#[trigger] ranked[j]).idf > cut,
    ensures
        0 <= c <= n,
        forall|j: int| 0 <= j < c ==> (#[trigger] ranked[j]).idf <= cut,
        forall|j: int| c <= j < ranked.len() ==> (#[trigger] ranked[j]).idf > cut,
    decreases n,
{
    if n == 0 {
        0
    } else if ranked[n - 1].idf > cut {
        lemma_first_above(ranked, cut, n - 1)
    } else {
        assert forall|j: int| 0 <= j < n implies (#[trigger] ranked[j]).idf <= cut by {
            assert(idf_fn()(ranked[j]) <= idf_fn()(ranked[n - 1]));
        }
        n
    }
}

/// Candidates are common documents.
proof fn lemma_candidate_is_common(
    scorers: Seq<TermScorer>,
    weights: Seq<int>,
    start: Score,
    cut: int,
    calls: Seq<Call>,
    doc: DocId,
    ranked: Seq<Term>,
    split: int,
)
    requires
        all_stand(scorers),
        scorers.len() <= usize::MAX,
        are_weights(scorers, weights),
        is_ranking(all_terms(scorers), ranked),
        0 <= split <= ranked.len(),
        forall|j: int| 0 <= j < split ==> (#[trigger] ranked[j]).idf <= cut,
        forall|j: int| split <= j < ranked.len() ==> (#[trigger] ranked[j]).idf > cut,
    ensures
        is_candidate(
            scorers,
            ranked.skip(split).filter(absolutely_essential(total(weights), start)),
            ranked.skip(split).filter(dispensable(total(weights), start)) + ranked.take(split),
            total(weights),
            start,
            calls,
            doc,
        ) <==> is_common(scorers, weights, start, cut, calls, doc),
{
    let whole = total(weights);
    let heavy = absolutely_essential(whole, start);
    let light = dispensable(whole, start);
    let essential = ranked.skip(split);
    let abs = essential.filter(heavy);
    let rest = essential.filter(light) + ranked.take(split);
    let t = threshold_at(start, calls, doc as int);
    let all = all_terms(scorers);
    lemma_threshold_reached(start, calls, doc as int);
    assert forall|i: int| 0 <= i < scorers.len() implies (#[trigger] scorers[i]).matches(doc)
        == has(scorers[i], doc) by {
        law_score_at(scorers[i], doc);
    }
    if is_candidate(scorers, abs, rest, whole, start, calls, doc) {
        assert forall|i: int|
            0 <= i < scorers.len() && is_required(
                weights,
                start,
                cut,
                calls,
                doc,
                weights[i],
            ) implies has(#[trigger] scorers[i], doc) by {
            let j = lemma_permutation_member(ranked, all, i);
            let term = ranked[j];
            assert(term == all[i] && term.index == i);
            if j >= split && heavy(term) {
                assert(essential[j - split] == term);
                essential.lemma_filter_contains(heavy, j - split);
                let k = choose|k: int| 0 <= k < abs.len() && abs[k] == term;
                assert(scorers[abs[k].index as int].matches(doc));
            } else {
                let c = choose|c: int|
                    0 <= c < calls.len() && (#[trigger] calls[c]).doc < doc && calls[c].threshold
                        > start && weights[i] > whole - calls[c].threshold;
                assert(calls[c].threshold <= t);
                assert(absolutely_essential(whole, t)(term));
                if j >= split {
                    assert(essential[j - split] == term);
                    essential.lemma_filter_contains(light, j - split);
                    let k = choose|k: int|
                        0 <= k < essential.filter(light).len() && essential.filter(light)[k] == term;
                    assert(rest[k] == term);
                    assert(scorers[rest[k].index as int].matches(doc));
                } else {
                    let k = essential.filter(light).len() + j;
                    assert(rest[k] == term);
                    assert(scorers[rest[k].index as int].matches(doc));
                }
            }
        }
    }
    if is_common(scorers, weights, start, cut, calls, doc) {
        assert forall|k: int| 0 <= k < abs.len() implies scorers[(
        #[trigger] abs[k]).index as int].matches(doc) by {
            essential.lemma_filter_pred(heavy, k);
            essential.lemma_filter_contains_rev(heavy, abs[k]);
            let j = choose|j: int| 0 <= j < essential.len() && essential[j] == abs[k];
            assert(essential[j] == ranked[split + j]);
            lemma_required(scorers, weights, ranked, split + j);
            let i = abs[k].index as int;
            assert(is_required(weights, start, cut, calls, doc, weights[i]));
            assert(has(scorers[i], doc));
        }
        if t > start {
            let c = choose|c: int|
                0 <= c < calls.len() && (#[trigger] calls[c]).doc < doc && calls[c].threshold == t;
            assert forall|k: int|
                0 <= k < rest.len() && absolutely_essential(whole, t)(
                    #[trigger] rest[k],
                ) implies scorers[rest[k].index as int].matches(doc) by {
                let j = lemma_rest_is_ranked(essential, ranked, split, light, k);
                lemma_required(scorers, weights, ranked, j);
                let i = rest[k].index as int;
                assert(calls[c].threshold > start && weights[i] > whole - calls[c].threshold);
                assert(is_required(weights, start, cut, calls, doc, weights[i]));
                assert(has(scorers[i], doc));
            }
        }
    }
}

proof fn lemma_rest_is_ranked(
    essential: Seq<Term>,
    ranked: Seq<Term>,
    split: int,
    light: spec_fn(Term) -> bool,
    k: int,
) -> (j: int)
    requires
        0 <= split <= ranked.len(),
        essential == ranked.skip(split),
        0 <= k < (essential.filter(light) + ranked.take(split)).len(),
    ensures
        0 <= j < ranked.len(),
        ranked[j] == (essential.filter(light) + ranked.take(split))[k],
{
    let first = essential.filter(light);
    if k < first.len() {
        essential.lemma_filter_contains_rev(light, first[k]);
        let j = choose|j: int| 0 <= j < essential.len() && essential[j] == first[k];
        assert(essential[j] == ranked[split + j]);
        split + j
    } else {
        k - first.len()
    }
}

/// A ranked term is the term of its scorer.
proof fn lemma_required(
    scorers: Seq<TermScorer>,
    weights: Seq<int>,
    ranked: Seq<Term>,
    j: int,
)
    requires
        scorers.len() <= usize::MAX,
        are_weights(scorers, weights),
        is_ranking(all_terms(scorers), ranked),
        0 <= j < ranked.len(),
    ensures
        ranked[j].index < scorers.len(),
        weights[ranked[j].index as int] == ranked[j].idf,
{
    let i = lemma_permutation_member(all_terms(scorers), ranked, j);
    assert(all_terms(scorers)[i].index == i);
    assert(weights[i] == scorers[i].list.idf_score);
}

/// Counting the candidates is counting the common documents.
proof fn lemma_count_common(
    scorers: Seq<TermScorer>,
    abs: Seq<Term>,
    rest: Seq<Term>,
    whole: int,
    start: Score,
    calls: Seq<Call>,
    common: Seq<DocId>,
    to: int,
    n: int,
)
    requires
        0 <= to <= TERMINATED,
        0 <= n <= common.len(),
        forall|x: int, y: int| 0 <= x < y < common.len() ==> #[trigger] common[x] < #[trigger] common[y],
        forall|d: DocId|
            d < TERMINATED ==> (#[trigger] is_candidate(scorers, abs, rest, whole, start, calls, d)
                <==> common.contains(d)),
        forall|x: int| 0 <= x < n ==> #[trigger] common[x] < to,
        forall|x: int| n <= x < common.len() ==> #[trigger] common[x] >= to,
    ensures
        candidates_between(scorers, abs, rest, whole, start, calls, 0, to) == n,
    decreases to,
{
    if to > 0 {
        let d = (to - 1) as DocId;
        if is_candidate(scorers, abs, rest, whole, start, calls, d) {
            let x = choose|x: int| 0 <= x < common.len() && common[x] == d;
            if x < n - 1 {
                assert(common[x] < common[n - 1]);
            }
            assert forall|y: int| 0 <= y < n - 1 implies #[trigger] common[y] < to - 1 by {
                assert(common[y] < common[n - 1]);
            }
            lemma_count_common(scorers, abs, rest, whole, start, calls, common, to - 1, n - 1);
        } else {
            assert forall|y: int| 0 <= y < n implies #[trigger] common[y] < to - 1 by {
                if common[y] == d {
                    assert(common.contains(d));
                }
            }
            lemma_count_common(scorers, abs, rest, whole, start, calls, common, to - 1, n);
        }
    } else if n > 0 {
        assert(common[0] < to);
    }
}

/// Counting terms by their weights is counting weights.
proof fn lemma_count_weights(
    all: Seq<Term>,
    weights: Seq<int>,
    p: spec_fn(Term) -> bool,
    q: spec_fn(int) -> bool,
)
    requires
        weights == idf_values(all),
        forall|t: Term| #[trigger] p(t) == q(t.idf as int),
    ensures
        count_by(all, p) == weights.filter(q).len(),
{
    law_count_by(weights, q);
    let parts = weights.map_values(indicator(q));
    assert forall|i: int| 0 <= i < all.len() implies #[trigger] parts[i] == indicator(p)(all[i]) by {
        assert(p(all[i]) == q(all[i].idf as int));
    }
    lemma_total(all, indicator(p), parts);
    lemma_total(weights, indicator(q), parts);
}

/// How many terms are absolutely essential at the end of the intersection.
proof fn lemma_heavy_at_end(
    all: Seq<Term>,
    ranked: Seq<Term>,
    split: int,
    whole: int,
    start: Score,
    end: Score,
    cut: int,
)
    requires
        is_ranking(all, ranked),
        0 <= split <= ranked.len(),
        forall|j: int| 0 <= j < split ==> (#[trigger] ranked[j]).idf <= cut,
        forall|j: int| split <= j < ranked.len() ==> (#[trigger] ranked[j]).idf > cut,
        start <= end,
    ensures
        ranked.skip(split).filter(absolutely_essential(whole, start)).len() == count_by(
            all,
            |t: Term| t.idf > cut && t.idf > whole - start,
        ),
        ranked.skip(split).filter(absolutely_essential(whole, start)).len() + count_by(
            ranked.skip(split).filter(dispensable(whole, start)) + ranked.take(split),
            absolutely_essential(whole, end),
        ) == count_by(all, absolutely_essential(whole, end)),
{
    let heavy = absolutely_essential(whole, start);
    let light = dispensable(whole, start);
    let both = |t: Term| t.idf > cut && t.idf > whole - start;
    let (low, high) = (ranked.take(split), ranked.skip(split));
    let abs = high.filter(heavy);
    let disp = high.filter(light);
    assert(ranked =~= low + high);
    law_count_by(high, heavy);
    lemma_sum_permutation(all, ranked, indicator(both));
    lemma_sum_append(low, high, indicator(both));
    assert forall|j: int| 0 <= j < low.len() implies !both(#[trigger] low[j]) by {
        assert(low[j] == ranked[j]);
    }
    lemma_count_none(low, both);
    assert forall|j: int| 0 <= j < high.len() implies indicator(both)(#[trigger] high[j])
        == indicator(heavy)(high[j]) by {
        assert(high[j] == ranked[split + j]);
    }
    lemma_sum_eq(high, high, indicator(both), indicator(heavy));
    let later = absolutely_essential(whole, end);
    lemma_sum_permutation(all, ranked, indicator(later));
    lemma_sum_append(low, high, indicator(later));
    lemma_filter_parts(high, heavy, light);
    lemma_multiset_commutative(abs, disp);
    lemma_sum_permutation(high, abs + disp, indicator(later));
    lemma_sum_append(abs, disp, indicator(later));
    lemma_sum_append(disp, low, indicator(later));
    assert forall|k: int| 0 <= k < abs.len() implies later(#[trigger] abs[k]) by {
        high.lemma_filter_pred(heavy, k);
    }
    lemma_count_all(abs, later);
}

/// Where a term is heavier than what the total leaves above the first threshold, the documents that are
/// evaluated are those in every term that is required of them, and no others. Each takes one step.
/// At the end, the terms that were required first count, and once the threshold has risen all that are
/// heavier than what the total leaves above it. `cut` parts the terms without a tie.
pub proof fn law_intersection<'a, C: ScoreCallback>(
    scorers: Vec<TermScorer<'a>>,
    threshold: Score,
    top_k: usize,
    callback: &mut C,
    stats: IdfPruningStats,
    calls: Seq<Call>,
    weights: Seq<int>,
    heavy: int,
    cut: int,
    common: Seq<DocId>,
)
    requires
        all_stand(scorers@),
        are_weights(scorers@, weights),
        call_ensures(idf_pruning::<C>, (scorers, threshold, top_k, callback), stats),
        calls == final(callback).calls().skip(old(callback).calls().len() as int),
        0 <= heavy < weights.len(),
        weights[heavy] > total(weights) - stats.initial_threshold,
        total(weights) > stats.initial_threshold,
        cuts(weights, stats.initial_threshold, cut),
        forall|x: int, y: int| 0 <= x < y < common.len() ==> #[trigger] common[x] < #[trigger] common[y],
        forall|d: DocId|
            common.contains(d) <==> d < 0x7fff_ffff && #[trigger] is_common(
                scorers@,
                weights,
                stats.initial_threshold,
                cut,
                calls,
                d,
            ),
    ensures
        stats.phase2_candidates == common.len(),
        stats.candidates_evaluated == common.len(),
        stats.num_advances == common.len(),
        stats.final_threshold == stats.initial_threshold ==> stats.num_absolutely_essential_at_end
            == weights.filter(
            |w: int| w > cut && w > total(weights) - stats.initial_threshold,
        ).len(),
        stats.final_threshold > stats.initial_threshold ==> stats.num_absolutely_essential_at_end
            == weights.filter(|w: int| w > total(weights) - stats.final_threshold).len(),
{
    let start = stats.initial_threshold;
    let end = stats.final_threshold;
    let whole = total(weights);
    let all = all_terms(scorers@);
    lemma_weights(scorers@, weights);
    lemma_all_stand(scorers@);
    let (ranked, split) = choose|ranked: Seq<Term>, split: int| #[trigger]
        is_ranking(all, ranked) && #[trigger] is_prefix_split(idf_values(ranked), start, split)
            && pruning_counts(
            scorers@,
            whole,
            start,
            calls,
            ranked,
            split,
            stats.initial_min_essential_matches as int,
            end,
            stats.phase1_candidates as int,
            stats.phase2_candidates as int,
            stats.num_advances as int,
            stats.num_seeks as int,
            stats.num_absolutely_essential_at_end as int,
        );
    assert(all[heavy].idf == weights[heavy]);
    lemma_heaviest_is_essential(all, ranked, split, heavy, whole, start);
    assert forall|i: int| 0 <= i < all.len() implies 0 <= (#[trigger] all[i]).idf by {
        assert(scorers@[i].wf());
    }
    lemma_cut(ranked, all, weights, start, cut, split);
    let abs = ranked.skip(split).filter(absolutely_essential(whole, start));
    let rest = ranked.skip(split).filter(dispensable(whole, start)) + ranked.take(split);
    assert(scorers@.len() == scorers.len());
    assert forall|d: DocId| d < TERMINATED implies (#[trigger] is_candidate(
        scorers@,
        abs,
        rest,
        whole,
        start,
        calls,
        d,
    ) <==> common.contains(d)) by {
        lemma_candidate_is_common(scorers@, weights, start, cut, calls, d, ranked, split);
        assert(is_common(scorers@, weights, start, cut, calls, d) <==> common.contains(d));
    }
    assert forall|x: int| 0 <= x < common.len() implies #[trigger] common[x] < TERMINATED by {
        assert(common.contains(common[x]));
        assert(is_common(scorers@, weights, start, cut, calls, common[x]));
    }
    lemma_count_common(
        scorers@,
        abs,
        rest,
        whole,
        start,
        calls,
        common,
        TERMINATED as int,
        common.len() as int,
    );
    lemma_peak_bounds(start, calls, calls.len() as int);
    lemma_heavy_at_end(all, ranked, split, whole, start, end, cut);
    lemma_count_weights(
        all,
        weights,
        |t: Term| t.idf > cut && t.idf > whole - start,
        |w: int| w > cut && w > total(weights) - stats.initial_threshold,
    );
    lemma_count_weights(
        all,
        weights,
        absolutely_essential(whole, end),
        |w: int| w > total(weights) - stats.final_threshold,
    );
}

} // verus!
