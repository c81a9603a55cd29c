//! Collections of term scorers, and what their positions say about documents.
use vstd::prelude::*;
use vstd::seq_lib::group_to_multiset_ensures;

use crate::pruning::{any_matches, term_max_score, term_score};
use crate::sums::{
    lemma_sum_eq, lemma_sum_le, lemma_sum_nonneg, lemma_sum_permutation, lemma_sum_split,
    lemma_sum_swap_remove, lemma_sum_take_le, lemma_sum_zero, sum_by,
};
use crate::term_scorer::{BLOCK_LEN, TermScorer};
use crate::types::{DocId, Score, TERMINATED};

verus! {

/// A term scorer with its maximum score at hand.
#[derive(Clone, Copy)]
pub struct TermScorerWithMaxScore<'a> {
    pub scorer: TermScorer<'a>,
    pub max_score: Score,
}

impl<'a> TermScorerWithMaxScore<'a> {
    pub open spec fn wf(self) -> bool {
        &&& self.scorer.wf()
        &&& self.max_score == self.scorer.list.max_score
    }

    /// The scorer one document further, if it has one left.
    pub open spec fn next(self) -> TermScorerWithMaxScore<'a> {
        if self.scorer.cursor < self.scorer.list.docs@.len() {
            TermScorerWithMaxScore {
                scorer: TermScorer {
                    list: self.scorer.list,
                    cursor: (self.scorer.cursor + 1) as usize,
                    block: ((self.scorer.cursor + 1) / BLOCK_LEN as int) as usize,
                },
                max_score: self.max_score,
            }
        } else {
            self
        }
    }
}

impl<'a> From<TermScorer<'a>> for TermScorerWithMaxScore<'a> {
    fn from(scorer: TermScorer<'a>) -> (result: Self) {
        let max_score: Score = scorer.max_score();
        TermScorerWithMaxScore { scorer, max_score }
    }
}

impl<'a> vstd::std_specs::convert::FromSpecImpl<TermScorer<'a>> for TermScorerWithMaxScore<'a> {
    open spec fn obeys_from_spec() -> bool {
        true
    }

    open spec fn from_spec(scorer: TermScorer<'a>) -> Self {
        TermScorerWithMaxScore { scorer, max_score: scorer.list.max_score }
    }
}

pub open spec fn score_fn<'a>(doc: DocId) -> spec_fn(TermScorerWithMaxScore<'a>) -> int {
    |w: TermScorerWithMaxScore<'a>| w.scorer.score_at(doc)
}

pub open spec fn bound_fn<'a>(doc: DocId) -> spec_fn(TermScorerWithMaxScore<'a>) -> int {
    |w: TermScorerWithMaxScore<'a>|
        if w.scorer.doc() <= doc {
            w.max_score as int
        } else {
            0
        }
}

pub open spec fn max_score_fn<'a>() -> spec_fn(TermScorerWithMaxScore<'a>) -> int {
    |w: TermScorerWithMaxScore<'a>| w.max_score as int
}

pub open spec fn left_fn<'a>() -> spec_fn(TermScorerWithMaxScore<'a>) -> int {
    |w: TermScorerWithMaxScore<'a>| w.scorer.left()
}

pub open spec fn doc_fn<'a>() -> spec_fn(TermScorerWithMaxScore<'a>) -> int {
    |w: TermScorerWithMaxScore<'a>| w.scorer.doc() as int
}

pub open spec fn all_wf(s: Seq<TermScorerWithMaxScore>) -> bool {
    forall|i: int| 0 <= i < s.len() ==> (#[trigger] s[i]).wf()
}

pub open spec fn sorted_docs(s: Seq<TermScorerWithMaxScore>) -> bool {
    forall|i: int, j: int|
        0 <= i <= j < s.len() ==> (#[trigger] s[i]).scorer.doc() <= (#[trigger] s[j]).scorer.doc()
}

/// What the scorers give to `doc` together.
pub open spec fn total_at(s: Seq<TermScorerWithMaxScore>, doc: DocId) -> int {
    sum_by(s, score_fn(doc))
}

/// Some scorer still meets `doc`.
pub open spec fn met_by(s: Seq<TermScorerWithMaxScore>, doc: DocId) -> bool {
    exists|i: int| 0 <= i < s.len() && (#[trigger] s[i]).scorer.matches(doc)
}

/// A bound on what the scorers give to `doc`: the maximum scores of those that are not past it.
pub open spec fn bound_at(s: Seq<TermScorerWithMaxScore>, doc: DocId) -> int {
    sum_by(s, bound_fn(doc))
}

/// Some scorer stands on `doc` or before it.
pub open spec fn started_by(s: Seq<TermScorerWithMaxScore>, doc: DocId) -> bool {
    exists|i: int| 0 <= i < s.len() && (#[trigger] s[i]).scorer.doc() <= doc
}

pub open spec fn max_score_sum(s: Seq<TermScorerWithMaxScore>) -> int {
    sum_by(s, max_score_fn())
}

/// How many postings are left in all.
pub open spec fn postings_left(s: Seq<TermScorerWithMaxScore>) -> int {
    sum_by(s, left_fn())
}

pub open spec fn all_skipped_below(s: Seq<TermScorerWithMaxScore>, floor: DocId) -> bool {
    forall|i: int| 0 <= i < s.len() ==> (#[trigger] s[i]).scorer.skipped_below(floor)
}

/// `b` is `a` moved on to documents from `from` on: nothing was lost from there on.
pub open spec fn moved(
    a: TermScorerWithMaxScore,
    b: TermScorerWithMaxScore,
    from: DocId,
) -> bool {
    &&& b.wf()
    &&& b.scorer.list == a.scorer.list
    &&& b.max_score == a.max_score
    &&& b.scorer.cursor >= a.scorer.cursor
    &&& forall|d: DocId|
        d >= from ==> (#[trigger] b.scorer.matches(d) <==> a.scorer.matches(d))
}

/// The scorers `b` are what is left of `a` after some of them moved on to documents from `from`
/// on and some exhausted ones were dropped, in any order.
pub open spec fn moved_on(
    a: Seq<TermScorerWithMaxScore>,
    b: Seq<TermScorerWithMaxScore>,
    from: DocId,
) -> bool {
    &&& all_wf(b)
    &&& forall|d: DocId| #[trigger] total_at(b, d) <= total_at(a, d)
    &&& forall|d: DocId| #[trigger] met_by(b, d) ==> met_by(a, d)
    &&& forall|d: DocId| #[trigger] bound_at(b, d) <= bound_at(a, d)
    &&& forall|d: DocId| #[trigger] started_by(b, d) ==> started_by(a, d)
    &&& forall|d: DocId| d >= from ==> #[trigger] total_at(b, d) == total_at(a, d)
    &&& forall|d: DocId| d >= from ==> #[trigger] met_by(b, d) == met_by(a, d)
    &&& max_score_sum(b) <= max_score_sum(a)
    &&& postings_left(b) <= postings_left(a)
}

pub proof fn lemma_moved_on_chain(
    a: Seq<TermScorerWithMaxScore>,
    b: Seq<TermScorerWithMaxScore>,
    c: Seq<TermScorerWithMaxScore>,
    f: DocId,
    g: DocId,
)
    requires
        moved_on(a, b, f),
        moved_on(b, c, g),
        f <= g,
    ensures
        moved_on(a, c, g),
{
    assert forall|d: DocId| #[trigger] total_at(c, d) <= total_at(a, d) by {
        assert(total_at(b, d) <= total_at(a, d));
    }
    assert forall|d: DocId| #[trigger] met_by(c, d) implies met_by(a, d) by {
        assert(met_by(b, d));
    }
    assert forall|d: DocId| #[trigger] bound_at(c, d) <= bound_at(a, d) by {
        assert(bound_at(b, d) <= bound_at(a, d));
    }
    assert forall|d: DocId| #[trigger] started_by(c, d) implies started_by(a, d) by {
        assert(started_by(b, d));
    }
    assert forall|d: DocId| d >= g implies #[trigger] total_at(c, d) == total_at(a, d) by {
        assert(total_at(b, d) == total_at(a, d));
    }
    assert forall|d: DocId| d >= g implies #[trigger] met_by(c, d) == met_by(a, d) by {
        assert(met_by(b, d) == met_by(a, d));
    }
}

/// One scorer that moved on.
pub proof fn lemma_moved(a: TermScorerWithMaxScore, b: TermScorerWithMaxScore, from: DocId)
    requires
        a.wf(),
        moved(a, b, from),
    ensures
        forall|d: DocId| #[trigger] b.scorer.score_at(d) <= a.scorer.score_at(d),
        forall|d: DocId| #[trigger] b.scorer.matches(d) ==> a.scorer.matches(d),
        forall|d: DocId| d >= from ==> #[trigger] b.scorer.score_at(d) == a.scorer.score_at(d),
        b.scorer.doc() >= a.scorer.doc(),
        b.scorer.left() <= a.scorer.left(),
{
    a.scorer.lemma_matches();
    b.scorer.lemma_matches();
    let list = a.scorer.list;
    if a.scorer.cursor < b.scorer.cursor && b.scorer.cursor < list.docs@.len() {
        assert(list.docs@[a.scorer.cursor as int] < list.docs@[b.scorer.cursor as int]);
    }
    assert forall|d: DocId| #[trigger] b.scorer.score_at(d) <= a.scorer.score_at(d) by {
        assert(0 <= a.scorer.score_at(d));
    }
    assert forall|d: DocId| d >= from implies #[trigger] b.scorer.score_at(d) == a.scorer.score_at(
        d,
    ) by {
        assert(b.scorer.matches(d) <==> a.scorer.matches(d));
    }
}

/// Scorers that moved on in place.
pub proof fn lemma_moved_in_place(
    a: Seq<TermScorerWithMaxScore>,
    b: Seq<TermScorerWithMaxScore>,
    from: DocId,
)
    requires
        all_wf(a),
        a.len() == b.len(),
        forall|i: int| 0 <= i < a.len() ==> moved(a[i], #[trigger] b[i], from),
    ensures
        moved_on(a, b, from),
{
    assert forall|i: int| 0 <= i < b.len() implies (#[trigger] b[i]).wf() by {
        assert(moved(a[i], b[i], from));
    }
    assert forall|d: DocId| #[trigger] total_at(b, d) <= total_at(a, d) by {
        assert forall|i: int| 0 <= i < b.len() implies score_fn(d)(#[trigger] b[i]) <= score_fn(d)(
            a[i],
        ) by {
            lemma_moved(a[i], b[i], from);
            assert(b[i].scorer.score_at(d) <= a[i].scorer.score_at(d));
        }
        lemma_sum_le(b, a, score_fn(d), score_fn(d));
    }
    assert forall|d: DocId| #[trigger] met_by(b, d) implies met_by(a, d) by {
        let i = choose|i: int| 0 <= i < b.len() && (#[trigger] b[i]).scorer.matches(d);
        lemma_moved(a[i], b[i], from);
        assert(a[i].scorer.matches(d));
    }
    assert forall|d: DocId| #[trigger] bound_at(b, d) <= bound_at(a, d) by {
        assert forall|i: int| 0 <= i < b.len() implies bound_fn(d)(#[trigger] b[i]) <= bound_fn(d)(
            a[i],
        ) by {
            lemma_moved(a[i], b[i], from);
            assert(0 <= a[i].scorer.list.block_max_scores@[0] <= a[i].max_score);
        }
        lemma_sum_le(b, a, bound_fn(d), bound_fn(d));
    }
    assert forall|d: DocId| #[trigger] started_by(b, d) implies started_by(a, d) by {
        let i = choose|i: int| 0 <= i < b.len() && (#[trigger] b[i]).scorer.doc() <= d;
        lemma_moved(a[i], b[i], from);
        assert(a[i].scorer.doc() <= d);
    }
    assert forall|d: DocId| d >= from implies #[trigger] total_at(b, d) == total_at(a, d) by {
        assert forall|i: int| 0 <= i < b.len() implies score_fn(d)(#[trigger] b[i]) == score_fn(d)(
            a[i],
        ) by {
            lemma_moved(a[i], b[i], from);
            assert(b[i].scorer.score_at(d) == a[i].scorer.score_at(d));
        }
        lemma_sum_eq(b, a, score_fn(d), score_fn(d));
    }
    assert forall|d: DocId| d >= from implies #[trigger] met_by(b, d) == met_by(a, d) by {
        if met_by(a, d) {
            let i = choose|i: int| 0 <= i < a.len() && (#[trigger] a[i]).scorer.matches(d);
            assert(moved(a[i], b[i], from));
            assert(b[i].scorer.matches(d));
        }
    }
    lemma_sum_le(b, a, max_score_fn(), max_score_fn());
    assert forall|i: int| 0 <= i < b.len() implies left_fn()(#[trigger] b[i]) <= left_fn()(
        a[i],
    ) by {
        lemma_moved(a[i], b[i], from);
    }
    lemma_sum_le(b, a, left_fn(), left_fn());
}

/// An element of one permutation occurs in the other.
pub proof fn lemma_permutation_member<A>(a: Seq<A>, b: Seq<A>, i: int) -> (j: int)
    requires
        a.to_multiset() == b.to_multiset(),
        0 <= i < b.len(),
    ensures
        0 <= j < a.len(),
        a[j] == b[i],
{
    broadcast use group_to_multiset_ensures;

    assert(b.to_multiset().count(b[i]) > 0);
    assert(a.contains(b[i]));
    choose|j: int| 0 <= j < a.len() && a[j] == b[i]
}

pub proof fn lemma_permutation_met(
    a: Seq<TermScorerWithMaxScore>,
    b: Seq<TermScorerWithMaxScore>,
    d: DocId,
)
    requires
        a.to_multiset() == b.to_multiset(),
    ensures
        met_by(a, d) == met_by(b, d),
{
    if met_by(a, d) {
        let i = choose|i: int| 0 <= i < a.len() && (#[trigger] a[i]).scorer.matches(d);
        let j = lemma_permutation_member(b, a, i);
        assert(b[j].scorer.matches(d));
    }
    if met_by(b, d) {
        let i = choose|i: int| 0 <= i < b.len() && (#[trigger] b[i]).scorer.matches(d);
        let j = lemma_permutation_member(a, b, i);
        assert(a[j].scorer.matches(d));
    }
}

/// Reordering changes nothing.
pub proof fn lemma_permuted(a: Seq<TermScorerWithMaxScore>, b: Seq<TermScorerWithMaxScore>)
    requires
        all_wf(a),
        a.to_multiset() == b.to_multiset(),
    ensures
        moved_on(a, b, 0),
        a.len() == b.len(),
        max_score_sum(a) == max_score_sum(b),
        postings_left(a) == postings_left(b),
        forall|f: DocId| #[trigger] all_skipped_below(a, f) ==> all_skipped_below(b, f),
{
    broadcast use group_to_multiset_ensures;

    assert(a.len() == a.to_multiset().len() && b.len() == b.to_multiset().len());
    assert forall|i: int| 0 <= i < b.len() implies (#[trigger] b[i]).wf() by {
        let j = lemma_permutation_member(a, b, i);
        assert(a[j].wf());
    }
    assert forall|d: DocId| #[trigger] total_at(b, d) == total_at(a, d) by {
        lemma_sum_permutation(a, b, score_fn(d));
    }
    assert forall|d: DocId| #[trigger] bound_at(b, d) == bound_at(a, d) by {
        lemma_sum_permutation(a, b, bound_fn(d));
    }
    assert forall|d: DocId| #[trigger] met_by(b, d) == met_by(a, d) by {
        lemma_permutation_met(a, b, d);
    }
    assert forall|d: DocId| #[trigger] started_by(b, d) implies started_by(a, d) by {
        let i = choose|i: int| 0 <= i < b.len() && (#[trigger] b[i]).scorer.doc() <= d;
        let j = lemma_permutation_member(a, b, i);
        assert(a[j].scorer.doc() <= d);
    }
    lemma_sum_permutation(a, b, max_score_fn());
    lemma_sum_permutation(a, b, left_fn());
    assert forall|f: DocId| #[trigger] all_skipped_below(a, f) implies all_skipped_below(b, f) by {
        assert forall|i: int| 0 <= i < b.len() implies (#[trigger] b[i]).scorer.skipped_below(
            f,
        ) by {
            let j = lemma_permutation_member(a, b, i);
            assert(a[j].scorer.skipped_below(f));
        }
    }
}

/// Dropping an exhausted scorer loses nothing.
pub proof fn lemma_exhausted_dropped(a: Seq<TermScorerWithMaxScore>, i: int)
    requires
        all_wf(a),
        0 <= i < a.len(),
        a[i].scorer.doc() == TERMINATED,
    ensures
        moved_on(a, a.update(i, a.last()).drop_last(), 0),
        forall|f: DocId| #[trigger]
            all_skipped_below(a, f) ==> all_skipped_below(
                a.update(i, a.last()).drop_last(),
                f,
            ),
{
    let b = a.update(i, a.last()).drop_last();
    a[i].scorer.lemma_matches();
    assert(0 <= a[i].scorer.list.block_max_scores@[0] <= a[i].max_score);
    assert forall|j: int| 0 <= j < b.len() implies (#[trigger] b[j]).wf() by {
        assert(b[j] == if j == i { a.last() } else { a[j] });
    }
    assert forall|d: DocId| #[trigger] total_at(b, d) == total_at(a, d) by {
        lemma_sum_swap_remove(a, i, score_fn(d));
        assert(!a[i].scorer.matches(d));
    }
    assert forall|d: DocId| #[trigger] bound_at(b, d) <= bound_at(a, d) by {
        lemma_sum_swap_remove(a, i, bound_fn(d));
    }
    assert forall|d: DocId| #[trigger] met_by(b, d) == met_by(a, d) by {
        if met_by(b, d) {
            let j = choose|j: int| 0 <= j < b.len() && (#[trigger] b[j]).scorer.matches(d);
            let k = if j == i {
                a.len() - 1
            } else {
                j
            };
            assert(a[k].scorer.matches(d));
        }
        if met_by(a, d) {
            let j = choose|j: int| 0 <= j < a.len() && (#[trigger] a[j]).scorer.matches(d);
            assert(j != i);
            let k = if j == a.len() - 1 {
                i
            } else {
                j
            };
            assert(b[k].scorer.matches(d));
        }
    }
    assert forall|d: DocId| #[trigger] started_by(b, d) implies started_by(a, d) by {
        let j = choose|j: int| 0 <= j < b.len() && (#[trigger] b[j]).scorer.doc() <= d;
        let k = if j == i {
            a.len() - 1
        } else {
            j
        };
        assert(a[k].scorer.doc() <= d);
    }
    lemma_sum_swap_remove(a, i, max_score_fn());
    lemma_sum_swap_remove(a, i, left_fn());
    assert forall|f: DocId| #[trigger] all_skipped_below(a, f) implies all_skipped_below(b, f) by {
        assert forall|j: int| 0 <= j < b.len() implies (#[trigger] b[j]).scorer.skipped_below(
            f,
        ) by {
            assert(a.last().scorer.skipped_below(f)) by {
                assert(a[a.len() - 1].scorer.skipped_below(f));
            }
            if j != i {
                assert(a[j].scorer.skipped_below(f));
            }
        }
    }
}

/// Scores are bounded by the maximum scores of the scorers that are not past the document.
pub proof fn lemma_total_bounded(s: Seq<TermScorerWithMaxScore>, doc: DocId)
    requires
        all_wf(s),
    ensures
        0 <= total_at(s, doc) <= bound_at(s, doc) <= max_score_sum(s),
{
    assert forall|i: int| 0 <= i < s.len() implies 0 <= score_fn(doc)(#[trigger] s[i]) <= bound_fn(
        doc,
    )(s[i]) <= max_score_fn()(s[i]) by {
        s[i].scorer.lemma_matches();
        assert(0 <= s[i].scorer.score_at(doc) <= s[i].max_score);
        if s[i].scorer.doc() > doc {
            assert(!s[i].scorer.matches(doc));
        }
    }
    lemma_sum_nonneg(s, score_fn(doc));
    lemma_sum_le(s, s, score_fn(doc), bound_fn(doc));
    lemma_sum_le(s, s, bound_fn(doc), max_score_fn());
}

/// With sorted scorers, the bound at `doc` is a prefix sum.
pub proof fn lemma_bound_is_prefix(s: Seq<TermScorerWithMaxScore>, n: int, doc: DocId)
    requires
        0 <= n <= s.len(),
        forall|i: int| 0 <= i < n ==> (#[trigger] s[i]).scorer.doc() <= doc,
        forall|i: int| n <= i < s.len() ==> (#[trigger] s[i]).scorer.doc() > doc,
    ensures
        bound_at(s, doc) == max_score_sum(s.take(n)),
{
    lemma_sum_split(s, n, bound_fn(doc));
    lemma_sum_eq(s.take(n), s.take(n), bound_fn(doc), max_score_fn());
    assert forall|i: int| 0 <= i < s.skip(n).len() implies bound_fn(doc)(#[trigger] s.skip(n)[i])
        == 0 by {
        assert(s[n + i].scorer.doc() > doc);
    }
    lemma_sum_zero(s.skip(n), bound_fn(doc));
}

/// The sum of the maximum scores is not negative, and neither are those of its prefixes.
pub proof fn lemma_max_score_sum_prefix(s: Seq<TermScorerWithMaxScore>, i: int, j: int)
    requires
        all_wf(s),
        0 <= i <= j <= s.len(),
    ensures
        0 <= max_score_sum(s.take(i)) <= max_score_sum(s.take(j)) <= max_score_sum(s),
{
    assert forall|n: int| 0 <= n < s.len() implies 0 <= max_score_fn()(#[trigger] s[n]) by {
        assert(s[n].wf());
        assert(0 <= s[n].scorer.list.block_max_scores@[0] <= s[n].max_score);
    }
    lemma_sum_take_le(s, i, j, max_score_fn());
    lemma_sum_take_le(s, j, s.len() as int, max_score_fn());
    assert(s.take(s.len() as int) =~= s);
}

pub proof fn lemma_postings_left_nonneg(s: Seq<TermScorerWithMaxScore>)
    requires
        all_wf(s),
    ensures
        0 <= postings_left(s),
{
    assert forall|i: int| 0 <= i < s.len() implies 0 <= left_fn()(#[trigger] s[i]) by {
        assert(s[i].wf());
    }
    lemma_sum_nonneg(s, left_fn());
}

/// Wrapping scorers keeps what they say about documents.
pub proof fn lemma_wrapped(scorers: Seq<TermScorer>, s: Seq<TermScorerWithMaxScore>)
    requires
        s.len() == scorers.len(),
        forall|i: int| 0 <= i < s.len() ==> (#[trigger] s[i]).scorer == scorers[i],
    ensures
        forall|d: DocId| #[trigger] met_by(s, d) == any_matches(scorers, d),
        forall|d: DocId| #[trigger] total_at(s, d) == sum_by(scorers, term_score(d)),
        (forall|i: int| 0 <= i < s.len() ==> (#[trigger] s[i]).max_score == scorers[i].list.max_score)
            ==> max_score_sum(s) == sum_by(scorers, term_max_score()),
{
    if forall|i: int| 0 <= i < s.len() ==> (#[trigger] s[i]).max_score == scorers[i].list.max_score {
        lemma_wrapped_max(scorers, s);
    }
    assert forall|d: DocId| #[trigger] met_by(s, d) == any_matches(scorers, d) by {
        if met_by(s, d) {
            let i = choose|i: int| 0 <= i < s.len() && (#[trigger] s[i]).scorer.matches(d);
            assert(scorers[i].matches(d));
        }
        if any_matches(scorers, d) {
            let i = choose|i: int| 0 <= i < scorers.len() && (#[trigger] scorers[i]).matches(d);
            assert(s[i].scorer.matches(d));
        }
    }
    assert forall|d: DocId| #[trigger] total_at(s, d) == sum_by(scorers, term_score(d)) by {
        lemma_wrapped_sum(scorers, s, d);
    }
}

proof fn lemma_wrapped_max(scorers: Seq<TermScorer>, s: Seq<TermScorerWithMaxScore>)
    requires
        s.len() == scorers.len(),
        forall|i: int|
            0 <= i < s.len() ==> (#[trigger] s[i]).max_score == scorers[i].list.max_score,
    ensures
        max_score_sum(s) == sum_by(scorers, term_max_score()),
    decreases s.len(),
{
    if s.len() > 0 {
        assert forall|i: int| 0 <= i < s.drop_last().len() implies (
        #[trigger] s.drop_last()[i]).max_score == scorers.drop_last()[i].list.max_score by {
            assert(s[i].max_score == scorers[i].list.max_score);
        }
        lemma_wrapped_max(scorers.drop_last(), s.drop_last());
        assert(s[s.len() - 1].max_score == scorers[s.len() - 1].list.max_score);
    }
}

proof fn lemma_wrapped_sum(scorers: Seq<TermScorer>, s: Seq<TermScorerWithMaxScore>, d: DocId)
    requires
        s.len() == scorers.len(),
        forall|i: int| 0 <= i < s.len() ==> (#[trigger] s[i]).scorer == scorers[i],
    ensures
        total_at(s, d) == sum_by(scorers, term_score(d)),
    decreases s.len(),
{
    if s.len() > 0 {
        assert forall|i: int| 0 <= i < s.drop_last().len() implies (
        #[trigger] s.drop_last()[i]).scorer == scorers.drop_last()[i] by {
            assert(s[i].scorer == scorers[i]);
        }
        lemma_wrapped_sum(scorers.drop_last(), s.drop_last(), d);
        assert(s[s.len() - 1].scorer == scorers[s.len() - 1]);
    }
}

} // verus!
