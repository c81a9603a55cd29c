//! What a search over all segments of an index finds.
use vstd::prelude::*;
use vstd::seq_lib::group_to_multiset_ensures;

use crate::idf_bootstrap::{
    best_frequent_idf, bootstrap_margin, lemma_best_frequent, starting_threshold,
};
use crate::idf_terms::term_weight;
use crate::pruning::all_ready;
use crate::scorer_set::lemma_permutation_member;
use crate::segment::SegmentReader;
use crate::sort_by_score::{
    addressed, all_come_first, collects_segment, comes_first, found, is_segment_top_k, is_top_k,
    reaches, SortBySimilarityScoreWithThreshold,
};
use crate::sums::{
    count_by, indicator, lemma_count_all, lemma_count_bounds, lemma_count_implied, lemma_count_none,
    lemma_sum_append, lemma_sum_permutation, lemma_sum_remove, lemma_sum_split, sum_by,
};
use crate::term_scorer::TermScorer;
use crate::top_n::{is_nth_score, is_top, rank, rank_fn, scores_above, scores_from, splits_top};
use crate::types::{DocAddress, DocId, Score};

verus! {

/// What a search did on one segment.
pub struct SegmentRun {
    pub docs: Map<DocId, int>,
    pub reader: SegmentReader,
    pub segment_ord: u32,
    pub results: Seq<(Score, DocAddress)>,
}

/// The results of all segments, in order.
pub open spec fn results_of(runs: Seq<SegmentRun>) -> Seq<(Score, DocAddress)>
    decreases runs.len(),
{
    if runs.len() == 0 {
        Seq::empty()
    } else {
        results_of(runs.drop_last()) + runs.last().results
    }
}

/// A segment starts without a threshold, with one that segments before it share, or with one that
/// `k` documents of the index exceed.
pub open spec fn starts_with(
    runs: Seq<SegmentRun>,
    i: int,
    k: int,
    all: Seq<(Score, DocAddress)>,
    start: Score,
) -> bool {
    ||| start == Score::MIN
    ||| exists|j: int|
        0 <= j <= i && is_nth_score(#[trigger] results_of(runs.take(j)), k, start)
    ||| count_by(all, scores_above(start)) >= k
}

/// The best `k` documents of segment `i` were collected.
pub open spec fn is_run(
    runs: Seq<SegmentRun>,
    i: int,
    k: int,
    all: Seq<(Score, DocAddress)>,
) -> bool {
    exists|start: Score| #[trigger]
        starts_with(runs, i, k, all, start) && is_segment_top_k(
            runs[i].results,
            runs[i].docs,
            runs[i].reader,
            start,
            k,
            runs[i].segment_ord,
        )
}

/// The best `k` documents were collected from each segment. The segments are in the order in
/// which their results were shared, and `all` lists the documents of the index.
pub open spec fn is_search(
    runs: Seq<SegmentRun>,
    k: int,
    all: Seq<(Score, DocAddress)>,
) -> bool {
    &&& forall|i: int, j: int|
        0 <= i < j < runs.len() ==> (#[trigger] runs[i]).segment_ord != (
        #[trigger] runs[j]).segment_ord
    &&& forall|i: int| 0 <= i < runs.len() ==> #[trigger] is_run(runs, i, k, all)
}

/// `entry` is a document of the segment that matches and is alive, with its score.
pub open spec fn is_hit(run: SegmentRun, entry: (Score, DocAddress)) -> bool {
    &&& entry.1.segment_ord == run.segment_ord
    &&& run.docs.contains_key(entry.1.doc_id)
    &&& run.reader.is_alive(entry.1.doc_id)
    &&& entry.0 == run.docs[entry.1.doc_id]
}

/// `all` lists every document of the index that matches and is alive, with its score.
pub open spec fn lists_hits(all: Seq<(Score, DocAddress)>, runs: Seq<SegmentRun>) -> bool {
    &&& all.no_duplicates()
    &&& forall|j: int|
        0 <= j < all.len() ==> exists|i: int|
            0 <= i < runs.len() && is_hit(#[trigger] runs[i], #[trigger] all[j])
    &&& forall|i: int, d: DocId|
        0 <= i < runs.len() && (#[trigger] runs[i]).reader.is_alive(d)
            && #[trigger] runs[i].docs.contains_key(d) ==> exists|j: int|
            0 <= j < all.len() && (#[trigger] all[j]).1 == (DocAddress {
                segment_ord: runs[i].segment_ord,
                doc_id: d,
            })
}

pub open spec fn capped(count: int, k: int) -> int {
    if count < k {
        count
    } else {
        k
    }
}

/// Distinct items are no more than those among which they are found.
proof fn lemma_count_found<A>(a: Seq<A>, b: Seq<A>, p: spec_fn(A) -> bool)
    requires
        a.no_duplicates(),
        forall|i: int| 0 <= i < a.len() && p(#[trigger] a[i]) ==> b.contains(a[i]),
    ensures
        count_by(a, p) <= count_by(b, p),
    decreases a.len(),
{
    if a.len() == 0 {
        lemma_count_bounds(b, p);
    } else {
        let shorter = a.drop_last();
        let last = a.last();
        assert forall|i: int, j: int|
            0 <= i < shorter.len() && 0 <= j < shorter.len() && i != j implies shorter[i]
            != shorter[j] by {
            assert(a[i] != a[j]);
        }
        if p(last) {
            assert(b.contains(a[a.len() - 1]));
            let k = choose|k: int| 0 <= k < b.len() && b[k] == last;
            let others = b.remove(k);
            lemma_sum_remove(b, k, indicator(p));
            assert forall|i: int|
                0 <= i < shorter.len() && p(#[trigger] shorter[i]) implies others.contains(
                shorter[i],
            ) by {
                assert(a[i] == shorter[i]);
                assert(a[i] != a[a.len() - 1]);
                let j = choose|j: int| 0 <= j < b.len() && b[j] == a[i];
                if j < k {
                    assert(others[j] == a[i]);
                } else {
                    assert(others[j - 1] == a[i]);
                }
            }
            lemma_count_found(shorter, others, p);
        } else {
            assert forall|i: int|
                0 <= i < shorter.len() && p(#[trigger] shorter[i]) implies b.contains(
                shorter[i],
            ) by {
                assert(a[i] == shorter[i]);
            }
            lemma_count_found(shorter, b, p);
        }
    }
}

/// `entry` is a document of one of the first `n` segments.
spec fn is_hit_before(runs: Seq<SegmentRun>, n: int, entry: (Score, DocAddress)) -> bool {
    exists|i: int| 0 <= i < n && is_hit(#[trigger] runs[i], entry)
}

/// A result is one of its segment, and no result comes twice.
proof fn lemma_results_of(
    runs: Seq<SegmentRun>,
    k: int,
    all: Seq<(Score, DocAddress)>,
    n: int,
)
    requires
        is_search(runs, k, all),
        0 <= n <= runs.len(),
    ensures
        results_of(runs.take(n)).no_duplicates(),
        forall|x: int|
            0 <= x < results_of(runs.take(n)).len() ==> is_hit_before(
                runs,
                n,
                #[trigger] results_of(runs.take(n))[x],
            ),
    decreases n,
{
    if n > 0 {
        let before = results_of(runs.take(n - 1));
        let own = runs[n - 1].results;
        let joined = before + own;
        assert(runs.take(n).drop_last() =~= runs.take(n - 1));
        assert(results_of(runs.take(n)) == joined);
        lemma_results_of(runs, k, all, n - 1);
        lemma_own_results(runs, k, all, n - 1);
        assert forall|x: int| 0 <= x < joined.len() implies is_hit_before(
            runs,
            n,
            #[trigger] joined[x],
        ) by {
            if x < before.len() {
                assert(is_hit_before(runs, n - 1, before[x]));
                let i = choose|i: int| 0 <= i < n - 1 && is_hit(#[trigger] runs[i], before[x]);
                assert(is_hit(runs[i], joined[x]));
            } else {
                assert(is_hit(runs[n - 1], own[x - before.len()]));
            }
        }
        assert forall|x: int, y: int| 0 <= x < y < joined.len() implies joined[x] != joined[y] by {
            if y >= before.len() {
                assert(is_hit(runs[n - 1], own[y - before.len()]));
                if x < before.len() {
                    assert(is_hit_before(runs, n - 1, before[x]));
                    let i = choose|i: int| 0 <= i < n - 1 && is_hit(#[trigger] runs[i], before[x]);
                    assert(runs[i].segment_ord != runs[n - 1].segment_ord);
                }
            }
        }
    }
}

/// The results of a segment are its documents, each of them once.
proof fn lemma_own_results(
    runs: Seq<SegmentRun>,
    k: int,
    all: Seq<(Score, DocAddress)>,
    i: int,
)
    requires
        is_search(runs, k, all),
        0 <= i < runs.len(),
    ensures
        runs[i].results.no_duplicates(),
        forall|x: int|
            0 <= x < runs[i].results.len() ==> is_hit(runs[i], #[trigger] runs[i].results[x]),
{
    let run = runs[i];
    assert(is_run(runs, i, k, all));
    let start = choose|start: Score| #[trigger]
        starts_with(runs, i, k, all, start) && is_segment_top_k(
            run.results,
            run.docs,
            run.reader,
            start,
            k,
            run.segment_ord,
        );
    let local = choose|local: Seq<(Score, DocId)>|
        run.results == #[trigger] addressed(local, run.segment_ord) && is_top_k(
            local,
            run.docs,
            run.reader,
            start,
            k,
        );
    assert forall|x: int| 0 <= x < run.results.len() implies is_hit(
        run,
        #[trigger] run.results[x],
    ) by {
        assert(run.results[x] == (
            local[x].0,
            DocAddress { segment_ord: run.segment_ord, doc_id: local[x].1 },
        ));
    }
    assert forall|x: int, y: int| 0 <= x < y < run.results.len() implies run.results[x]
        != run.results[y] by {
        assert(comes_first(local[x].0, local[x].1, local[y].0 as int, local[y].1));
        assert(run.results[x].0 == local[x].0 && run.results[y].0 == local[y].0);
        assert(run.results[x].1.doc_id == local[x].1 && run.results[y].1.doc_id == local[y].1);
    }
}

/// The results of a segment are among all results, with those of the segments before it.
proof fn lemma_results_grow(
    runs: Seq<SegmentRun>,
    i: int,
    n: int,
    p: spec_fn((Score, DocAddress)) -> bool,
)
    requires
        0 <= i < n <= runs.len(),
    ensures
        count_by(results_of(runs.take(i)) + runs[i].results, p) <= count_by(
            results_of(runs.take(n)),
            p,
        ),
        forall|x: int|
            0 <= x < runs[i].results.len() ==> results_of(runs.take(n)).contains(
                #[trigger] runs[i].results[x],
            ),
    decreases n,
{
    let all = results_of(runs.take(n));
    let before = results_of(runs.take(n - 1));
    assert(runs.take(n).drop_last() =~= runs.take(n - 1));
    assert(all == before + runs[n - 1].results);
    if i < n - 1 {
        lemma_results_grow(runs, i, n - 1, p);
        lemma_sum_append(before, runs[n - 1].results, indicator(p));
        lemma_count_bounds(runs[n - 1].results, p);
    }
    assert forall|x: int| 0 <= x < runs[i].results.len() implies all.contains(
        #[trigger] runs[i].results[x],
    ) by {
        if i < n - 1 {
            assert(before.contains(runs[i].results[x]));
            let y = choose|y: int| 0 <= y < before.len() && before[y] == runs[i].results[x];
            assert(all[y] == runs[i].results[x]);
        } else {
            assert(all[before.len() + x] == runs[i].results[x]);
        }
    }
}

/// More segments have more results.
proof fn lemma_results_prefix(
    runs: Seq<SegmentRun>,
    j: int,
    i: int,
    p: spec_fn((Score, DocAddress)) -> bool,
)
    requires
        0 <= j <= i <= runs.len(),
    ensures
        count_by(results_of(runs.take(j)), p) <= count_by(results_of(runs.take(i)), p),
    decreases i,
{
    if j < i {
        lemma_results_prefix(runs, j, i - 1, p);
        assert(runs.take(i).drop_last() =~= runs.take(i - 1));
        lemma_sum_append(results_of(runs.take(i - 1)), runs[i - 1].results, indicator(p));
        lemma_count_bounds(runs[i - 1].results, p);
    }
}

/// A document that exceeds the start of its segment but is left out scores no more than `k` results
/// of the segment.
proof fn lemma_left_out(run: SegmentRun, start: Score, k: int, d: DocId)
    requires
        is_segment_top_k(run.results, run.docs, run.reader, start, k, run.segment_ord),
        run.docs.contains_key(d),
        run.reader.is_alive(d),
        run.docs[d] > start,
        forall|x: int| 0 <= x < run.results.len() ==> (#[trigger] run.results[x]).1.doc_id != d,
    ensures
        count_by(run.results, reaches(run.docs[d])) >= k,
{
    let p = reaches(run.docs[d]);
    let local = choose|local: Seq<(Score, DocId)>|
        run.results == #[trigger] addressed(local, run.segment_ord) && is_top_k(
            local,
            run.docs,
            run.reader,
            start,
            k,
        );
    if found(local, d) {
        let x = choose|x: int| 0 <= x < local.len() && (#[trigger] local[x]).1 == d;
        assert(run.results[x].1.doc_id == d);
    }
    assert(all_come_first(local, k, run.docs[d], d));
    assert forall|x: int| 0 <= x < run.results.len() implies p(#[trigger] run.results[x]) by {
        assert(run.results[x].0 == local[x].0);
    }
    lemma_count_all(run.results, p);
}

/// A document that reaches `score` is among the results, unless `k` results reach it.
#[verifier::rlimit(30)]
proof fn lemma_hit_found(
    runs: Seq<SegmentRun>,
    k: int,
    all: Seq<(Score, DocAddress)>,
    i: int,
    entry: (Score, DocAddress),
    score: Score,
)
    requires
        is_search(runs, k, all),
        lists_hits(all, runs),
        0 <= i < runs.len(),
        is_hit(runs[i], entry),
        Score::MIN < score <= entry.0,
        count_by(results_of(runs), scores_from(score)) < k,
    ensures
        results_of(runs).contains(entry),
    decreases Score::MAX - score, 0int,
{
    let run = runs[i];
    let earlier = results_of(runs.take(i));
    let n = runs.len() as int;
    let d = entry.1.doc_id;
    let p = scores_from::<DocAddress>(score);
    assert(runs.take(n) =~= runs);
    lemma_results_grow(runs, i, n, p);
    lemma_own_results(runs, k, all, i);
    lemma_sum_append(earlier, run.results, indicator(p));
    lemma_count_bounds(earlier, p);
    lemma_count_bounds(run.results, p);
    if exists|x: int| 0 <= x < run.results.len() && (#[trigger] run.results[x]).1.doc_id == d {
        let x = choose|x: int|
            0 <= x < run.results.len() && (#[trigger] run.results[x]).1.doc_id == d;
        assert(is_hit(runs[i], run.results[x]));
        assert(run.results[x] == entry);
    } else {
        assert(is_run(runs, i, k, all));
        let start = choose|start: Score| #[trigger]
            starts_with(runs, i, k, all, start) && is_segment_top_k(
                run.results,
                run.docs,
                run.reader,
                start,
                k,
                run.segment_ord,
            );
        if entry.0 > start {
            lemma_left_out(run, start, k, d);
            lemma_count_implied(run.results, reaches(run.docs[d]), p);
        } else if exists|j: int|
            0 <= j <= i && is_nth_score(#[trigger] results_of(runs.take(j)), k, start) {
            let j = choose|j: int|
                0 <= j <= i && is_nth_score(#[trigger] results_of(runs.take(j)), k, start);
            lemma_count_implied(results_of(runs.take(j)), scores_from(start), p);
            lemma_results_prefix(runs, j, i, p);
        } else {
            let above = scores_above::<DocAddress>(start);
            if start == Score::MAX {
                lemma_count_none(all, above);
            }
            let next = (start + 1) as Score;
            lemma_count_implied(all, above, scores_from(next));
            law_results_hold_the_best(runs, k, all, next);
            lemma_count_implied(results_of(runs), scores_from(next), p);
        }
    }
}

/// A document of a segment is among all documents.
proof fn lemma_hit_listed(
    runs: Seq<SegmentRun>,
    k: int,
    all: Seq<(Score, DocAddress)>,
    entry: (Score, DocAddress),
)
    requires
        is_search(runs, k, all),
        lists_hits(all, runs),
        is_hit_before(runs, runs.len() as int, entry),
    ensures
        all.contains(entry),
{
    let i = choose|i: int| 0 <= i < runs.len() && is_hit(#[trigger] runs[i], entry);
    let d = entry.1.doc_id;
    assert(runs[i].reader.is_alive(d) && runs[i].docs.contains_key(d));
    let j = choose|j: int|
        0 <= j < all.len() && (#[trigger] all[j]).1 == (DocAddress {
            segment_ord: runs[i].segment_ord,
            doc_id: d,
        });
    let m = choose|m: int| 0 <= m < runs.len() && is_hit(#[trigger] runs[m], all[j]);
    if m < i {
        assert(runs[m].segment_ord != runs[i].segment_ord);
    } else if i < m {
        assert(runs[i].segment_ord != runs[m].segment_ord);
    }
    assert(all[j] == entry);
}

/// Over all segments, the results hold the best scores of the index: at each score, as many results
/// reach it as documents do, up to `k`. No document counts that scores `Score::MIN`, which exceeds
/// no threshold.
pub proof fn law_results_hold_the_best(
    runs: Seq<SegmentRun>,
    k: int,
    all: Seq<(Score, DocAddress)>,
    score: Score,
)
    requires
        is_search(runs, k, all),
        lists_hits(all, runs),
        score > Score::MIN,
    ensures
        capped(count_by(results_of(runs), scores_from(score)), k) == capped(
            count_by(all, scores_from(score)),
            k,
        ),
    decreases Score::MAX - score, 1int,
{
    let p = scores_from::<DocAddress>(score);
    let results = results_of(runs);
    lemma_results_of(runs, k, all, runs.len() as int);
    assert(runs.take(runs.len() as int) =~= runs);
    assert forall|x: int| 0 <= x < results.len() && p(#[trigger] results[x]) implies all.contains(
        results[x],
    ) by {
        assert(is_hit_before(runs, runs.len() as int, results[x]));
        lemma_hit_listed(runs, k, all, results[x]);
    }
    lemma_count_found(results, all, p);
    if count_by(results, p) < k {
        assert forall|j: int| 0 <= j < all.len() && p(#[trigger] all[j]) implies results.contains(
            all[j],
        ) by {
            assert(is_hit_before(runs, runs.len() as int, all[j]));
            let i = choose|i: int| 0 <= i < runs.len() && is_hit(#[trigger] runs[i], all[j]);
            lemma_hit_found(runs, k, all, i, all[j], score);
        }
        lemma_count_found(all, results, p);
    }
}

/// The best entries, one by one: as many entries as have a better place, and one more, reach a score
/// exactly if the entry at that place does.
proof fn lemma_top_scores(
    result: Seq<(Score, DocAddress)>,
    entries: Seq<(Score, DocAddress)>,
    n: int,
    i: int,
    x: Score,
)
    requires
        is_top(result, entries, n),
        0 <= i < result.len(),
    ensures
        count_by(entries, scores_from(x)) >= i + 1 <==> result[i].0 >= x,
{
    let p = scores_from::<DocAddress>(x);
    let rest = choose|rest: Seq<(Score, DocAddress)>| #[trigger]
        splits_top(result, rest, entries, n);
    lemma_sum_permutation(result + rest, entries, indicator(p));
    lemma_sum_append(result, rest, indicator(p));
    lemma_count_bounds(rest, p);
    if result[i].0 >= x {
        let first = result.take(i + 1);
        lemma_sum_split(result, i + 1, indicator(p));
        assert forall|j: int| 0 <= j < first.len() implies p(#[trigger] first[j]) by {
            assert(first[j] == result[j]);
            assert(rank_fn()(result[j]) <= rank_fn()(result[i]));
        }
        lemma_count_all(first, p);
        lemma_count_bounds(result.skip(i + 1), p);
    } else {
        let last = result.skip(i);
        lemma_sum_split(result, i, indicator(p));
        assert forall|j: int| 0 <= j < last.len() implies !p(#[trigger] last[j]) by {
            assert(last[j] == result[i + j]);
            assert(rank_fn()(result[i]) <= rank_fn()(result[i + j]));
        }
        assert forall|j: int| 0 <= j < rest.len() implies !p(#[trigger] rest[j]) by {
            assert(rank(result[i]) <= rank(rest[j]));
        }
        lemma_count_none(last, p);
        lemma_count_none(rest, p);
        lemma_count_bounds(result.take(i), p);
    }
}

/// The best `n` are all entries, or `n` of them.
proof fn lemma_top_len(
    result: Seq<(Score, DocAddress)>,
    entries: Seq<(Score, DocAddress)>,
    n: int,
)
    requires
        is_top(result, entries, n),
    ensures
        result.len() == capped(entries.len() as int, n),
{
    broadcast use group_to_multiset_ensures;

    let rest = choose|rest: Seq<(Score, DocAddress)>| #[trigger]
        splits_top(result, rest, entries, n);
    assert((result + rest).len() == (result + rest).to_multiset().len());
    assert(entries.len() == entries.to_multiset().len());
}

/// The best `k` of the results score what the best `k` of the index score.
pub proof fn law_best_scores_agree(
    runs: Seq<SegmentRun>,
    k: int,
    all: Seq<(Score, DocAddress)>,
    best_results: Seq<(Score, DocAddress)>,
    best: Seq<(Score, DocAddress)>,
)
    requires
        is_search(runs, k, all),
        lists_hits(all, runs),
        forall|j: int| 0 <= j < all.len() ==> (#[trigger] all[j]).0 > Score::MIN,
        is_top(best_results, results_of(runs), k),
        is_top(best, all, k),
    ensures
        best_results.len() == best.len(),
        forall|i: int| 0 <= i < best.len() ==> (#[trigger] best_results[i]).0 == best[i].0,
{
    let results = results_of(runs);
    let least = (Score::MIN + 1) as Score;
    lemma_results_of(runs, k, all, runs.len() as int);
    assert(runs.take(runs.len() as int) =~= runs);
    assert forall|x: int| 0 <= x < results.len() implies scores_from::<DocAddress>(least)(
        #[trigger] results[x],
    ) by {
        assert(is_hit_before(runs, runs.len() as int, results[x]));
        lemma_hit_listed(runs, k, all, results[x]);
        let j = choose|j: int| 0 <= j < all.len() && all[j] == results[x];
        assert(all[j].0 > Score::MIN);
    }
    lemma_count_all(results, scores_from(least));
    assert forall|j: int| 0 <= j < all.len() implies scores_from::<DocAddress>(least)(
        #[trigger] all[j],
    ) by {
        assert(all[j].0 > Score::MIN);
    }
    lemma_count_all(all, scores_from(least));
    law_results_hold_the_best(runs, k, all, least);
    lemma_top_len(best_results, results, k);
    lemma_top_len(best, all, k);
    assert forall|i: int| 0 <= i < best.len() implies (#[trigger] best_results[i]).0
        == best[i].0 by {
        let x = best_results[i].0;
        let y = best[i].0;
        lemma_top_listed(best_results, results, k, i, least);
        lemma_top_listed(best, all, k, i, least);
        law_results_hold_the_best(runs, k, all, x);
        law_results_hold_the_best(runs, k, all, y);
        lemma_top_scores(best_results, results, k, i, x);
        lemma_top_scores(best_results, results, k, i, y);
        lemma_top_scores(best, all, k, i, x);
        lemma_top_scores(best, all, k, i, y);
    }
}

/// The best entries are among the entries.
proof fn lemma_top_listed(
    result: Seq<(Score, DocAddress)>,
    entries: Seq<(Score, DocAddress)>,
    n: int,
    i: int,
    least: Score,
)
    requires
        is_top(result, entries, n),
        0 <= i < result.len(),
        forall|j: int| 0 <= j < entries.len() ==> (#[trigger] entries[j]).0 >= least,
    ensures
        result[i].0 >= least,
        i < n,
{
    let rest = choose|rest: Seq<(Score, DocAddress)>| #[trigger]
        splits_top(result, rest, entries, n);
    assert((result + rest)[i] == result[i]);
    let j = lemma_permutation_member(entries, result + rest, i);
}

/// The threshold that a segment starts from: the shared one, or one that `k` documents of the index
/// exceed.
pub open spec fn is_start(
    computer: SortBySimilarityScoreWithThreshold,
    k: usize,
    all: Seq<(Score, DocAddress)>,
    start: Score,
) -> bool {
    start == computer.initial_threshold() || count_by(all, scores_above(start)) >= k
}

/// Call `i` collected its segment.
pub open spec fn is_call(
    computers: Seq<SortBySimilarityScoreWithThreshold>,
    runs: Seq<SegmentRun>,
    i: int,
    k: usize,
    all: Seq<(Score, DocAddress)>,
) -> bool {
    exists|start: Score| #[trigger]
        is_start(computers[i], k, all, start) && collects_segment(
            computers[i],
            computers[i + 1],
            runs[i].results,
            runs[i].docs,
            runs[i].reader,
            start,
            k as int,
            runs[i].segment_ord,
        )
}

/// Segments were collected one after the other: `computers` are the states of the computer before
/// the first call, between the calls and after the last one, and `runs` what each call did. A call
/// starts from the shared threshold, or from one that `k` documents of the index exceed.
pub open spec fn are_collected(
    computers: Seq<SortBySimilarityScoreWithThreshold>,
    runs: Seq<SegmentRun>,
    k: usize,
    all: Seq<(Score, DocAddress)>,
) -> bool {
    &&& computers.len() == runs.len() + 1
    &&& computers[0].wf()
    &&& computers[0].entries().len() == 0
    &&& computers[0].global_top_n.top_n == k
    &&& forall|i: int, j: int|
        0 <= i < j < runs.len() ==> (#[trigger] runs[i]).segment_ord != (
        #[trigger] runs[j]).segment_ord
    &&& forall|i: int| 0 <= i < runs.len() ==> #[trigger] is_call(computers, runs, i, k, all)
}

/// The computer holds the results of the calls so far.
proof fn lemma_collected_entries(
    computers: Seq<SortBySimilarityScoreWithThreshold>,
    runs: Seq<SegmentRun>,
    k: usize,
    all: Seq<(Score, DocAddress)>,
    i: int,
)
    requires
        are_collected(computers, runs, k, all),
        0 <= i <= runs.len(),
    ensures
        computers[i].wf(),
        computers[i].global_top_n.top_n == k,
        computers[i].entries() == results_of(runs.take(i)),
    decreases i,
{
    if i > 0 {
        lemma_collected_entries(computers, runs, k, all, i - 1);
        let run = runs[i - 1];
        assert(is_call(computers, runs, i - 1, k, all));
        let start = choose|start: Score| #[trigger]
            is_start(computers[i - 1], k, all, start) && collects_segment(
                computers[i - 1],
                computers[i],
                run.results,
                run.docs,
                run.reader,
                start,
                k as int,
                run.segment_ord,
            );
        assert(runs.take(i).drop_last() =~= runs.take(i - 1));
    } else {
        assert(computers[0].entries() =~= Seq::empty());
    }
}

/// Sharing the threshold over a sequence of calls loses no score: the best `k` of all results score
/// what the best `k` documents of the index score, whatever the order of the segments.
pub proof fn law_sharing_loses_no_score(
    computers: Seq<SortBySimilarityScoreWithThreshold>,
    runs: Seq<SegmentRun>,
    k: usize,
    all: Seq<(Score, DocAddress)>,
    best_results: Seq<(Score, DocAddress)>,
    best: Seq<(Score, DocAddress)>,
)
    requires
        are_collected(computers, runs, k, all),
        lists_hits(all, runs),
        forall|j: int| 0 <= j < all.len() ==> (#[trigger] all[j]).0 > Score::MIN,
        is_top(best_results, computers.last().entries(), k as int),
        is_top(best, all, k as int),
    ensures
        computers.last().entries() == results_of(runs),
        best_results.len() == best.len(),
        forall|i: int| 0 <= i < best.len() ==> (#[trigger] best_results[i]).0 == best[i].0,
{
    let n = runs.len() as int;
    lemma_collected_entries(computers, runs, k, all, n);
    assert(runs.take(n) =~= runs);
    assert forall|i: int| 0 <= i < runs.len() implies #[trigger] is_run(runs, i, k as int, all) by {
        lemma_collected_entries(computers, runs, k, all, i);
        assert(is_call(computers, runs, i, k, all));
        let start = choose|start: Score| #[trigger]
            is_start(computers[i], k, all, start) && collects_segment(
                computers[i],
                computers[i + 1],
                runs[i].results,
                runs[i].docs,
                runs[i].reader,
                start,
                k as int,
                runs[i].segment_ord,
            );
        if start == computers[i].initial_threshold() && start > 0 {
            assert(is_nth_score(results_of(runs.take(i)), k as int, start));
        }
        assert(starts_with(runs, i, k as int, all, start));
    }
    law_best_scores_agree(runs, k as int, all, best_results, best);
}

/// The threshold that document frequencies give is one that `top_k` documents of the index exceed,
/// if that many documents reach the weight that gives it. They do where the frequency of the term
/// counts documents of the index: a document that contains the term scores at least its weight.
pub proof fn law_frequencies_back_the_start(
    scorers: Seq<TermScorer>,
    top_k: usize,
    all: Seq<(Score, DocAddress)>,
)
    requires
        all_ready(scorers),
        0 < sum_by(scorers, term_weight()) <= Score::MAX,
        best_frequent_idf(scorers, top_k as int) >= 0 ==> count_by(
            all,
            reaches(best_frequent_idf(scorers, top_k as int)),
        ) >= top_k,
    ensures
        starting_threshold(scorers, Score::MIN, top_k) == Score::MIN || count_by(
            all,
            scores_above(starting_threshold(scorers, Score::MIN, top_k)),
        ) >= top_k,
{
    let total = sum_by(scorers, term_weight());
    let best = best_frequent_idf(scorers, top_k as int);
    let start = starting_threshold(scorers, Score::MIN, top_k);
    lemma_best_frequent(scorers, top_k as int);
    if start != Score::MIN {
        assert(bootstrap_margin(total) >= 1);
        assert(best - bootstrap_margin(total) >= Score::MIN);
        assert(start < best);
        lemma_count_implied(all, reaches(best), scores_above(start));
    }
}

} // verus!
