//! How many candidates the walks over documents evaluate.
use vstd::prelude::*;
use vstd::seq_lib::{group_to_multiset_ensures, lemma_multiset_commutative};

use crate::idf_align::misses;
use crate::idf_lists::{
    absolutely_essential, demotes, dispensable, is_demotion, lemma_promotion, promotion,
};
use crate::idf_ranks::{idf_values, is_min_matches};
use crate::idf_seeks::{lemma_meetings_later, meets_with, Meeting};
use crate::idf_terms::{
    hit_fn, hits, idf_fn, lemma_stepped_refl, stepped, term_moved, valid_terms, weight, Term,
};
use crate::idf_walk::{
    caught_up, contains_doc, from_heaviest, is_listed, moved_past, score_terms, stands_before,
    Scored,
};
use crate::pruning::{all_ready, lemma_peak_prefix, peak, Call};
use crate::scorer_set::lemma_permutation_member;
use crate::sorting::{same_ties, sorted_by_key};
use crate::sums::{
    count_by, indicator, lemma_count_all, lemma_count_bounds, lemma_count_none, lemma_sum_append,
    lemma_sum_permutation, lemma_sum_split, lemma_sum_zero,
};
use crate::term_scorer::TermScorer;
use crate::types::{DocId, Score, TERMINATED};

verus! {

/// The threshold when `doc` is reached: the highest of `start` and the answers to the documents
/// before it.
pub open spec fn threshold_at(start: Score, calls: Seq<Call>, doc: int) -> Score
    decreases calls.len(),
{
    if calls.len() == 0 {
        start
    } else {
        let before = threshold_at(start, calls.drop_last(), doc);
        if calls.last().doc < doc && calls.last().threshold > before {
            calls.last().threshold
        } else {
            before
        }
    }
}

/// Behind all calls, the threshold is their peak.
pub proof fn lemma_threshold_at(start: Score, calls: Seq<Call>, doc: int)
    requires
        forall|i: int| 0 <= i < calls.len() ==> (#[trigger] calls[i]).doc < doc,
    ensures
        threshold_at(start, calls, doc) == peak(start, calls, calls.len() as int),
    decreases calls.len(),
{
    if calls.len() > 0 {
        let shorter = calls.drop_last();
        assert forall|i: int| 0 <= i < shorter.len() implies (#[trigger] shorter[i]).doc < doc by {
            assert(shorter[i] == calls[i]);
        }
        lemma_threshold_at(start, shorter, doc);
        lemma_peak_prefix(start, shorter, calls, shorter.len() as int);
        assert(calls.last().doc < doc);
    }
}

/// Calls from `doc` on do not count.
pub proof fn lemma_threshold_at_push(start: Score, calls: Seq<Call>, call: Call, doc: int)
    requires
        call.doc >= doc,
    ensures
        threshold_at(start, calls.push(call), doc) == threshold_at(start, calls, doc),
{
    assert(calls.push(call).drop_last() =~= calls);
}

/// Answers that are not above `start` do not count.
pub proof fn lemma_threshold_at_later(start: Score, earlier: Seq<Call>, fresh: Seq<Call>, doc: int)
    requires
        forall|i: int| 0 <= i < earlier.len() ==> (#[trigger] earlier[i]).threshold <= start,
    ensures
        threshold_at(start, earlier + fresh, doc) == threshold_at(start, fresh, doc),
        threshold_at(start, fresh, doc) >= start,
    decreases earlier.len() + fresh.len(),
{
    let all = earlier + fresh;
    if fresh.len() > 0 {
        assert(all.drop_last() =~= earlier + fresh.drop_last());
        lemma_threshold_at_later(start, earlier, fresh.drop_last(), doc);
    } else if earlier.len() > 0 {
        assert(all =~= earlier);
        assert(earlier.drop_last() + fresh =~= earlier.drop_last());
        lemma_threshold_at_later(start, earlier.drop_last(), fresh, doc);
        assert(earlier.last().threshold <= start);
    }
}

/// `doc` is a candidate of the intersection: it contains the terms `abs`, and once the threshold
/// has risen above `start` also those of `rest` that are absolutely essential by then.
pub open spec fn is_candidate(
    scorers: Seq<TermScorer>,
    abs: Seq<Term>,
    rest: Seq<Term>,
    total_idf: int,
    start: Score,
    calls: Seq<Call>,
    doc: DocId,
) -> bool {
    let threshold = threshold_at(start, calls, doc as int);
    &&& forall|k: int|
        0 <= k < abs.len() ==> scorers[(#[trigger] abs[k]).index as int].matches(doc)
    &&& threshold > start ==> forall|k: int|
        0 <= k < rest.len() && absolutely_essential(total_idf, threshold)(#[trigger] rest[k])
            ==> scorers[rest[k].index as int].matches(doc)
}

/// The number of candidates from `from` to before `to`.
pub open spec fn candidates_between(
    scorers: Seq<TermScorer>,
    abs: Seq<Term>,
    rest: Seq<Term>,
    total_idf: int,
    start: Score,
    calls: Seq<Call>,
    from: int,
    to: int,
) -> int
    decreases to - from,
{
    if to <= from {
        0
    } else {
        candidates_between(scorers, abs, rest, total_idf, start, calls, from, to - 1) + (
        if is_candidate(scorers, abs, rest, total_idf, start, calls, (to - 1) as DocId) {
            1int
        } else {
            0int
        })
    }
}

/// Equal candidates are equally many.
pub proof fn lemma_candidates_same(
    s: Seq<TermScorer>,
    t: Seq<TermScorer>,
    abs: Seq<Term>,
    rest: Seq<Term>,
    total_idf: int,
    start: Score,
    c: Seq<Call>,
    d: Seq<Call>,
    from: int,
    to: int,
)
    requires
        0 <= from,
        to <= TERMINATED,
        forall|doc: DocId|
            from <= doc < to ==> #[trigger] is_candidate(s, abs, rest, total_idf, start, c, doc)
                == is_candidate(t, abs, rest, total_idf, start, d, doc),
    ensures
        candidates_between(s, abs, rest, total_idf, start, c, from, to) == candidates_between(
            t,
            abs,
            rest,
            total_idf,
            start,
            d,
            from,
            to,
        ),
    decreases to - from,
{
    if from < to {
        lemma_candidates_same(s, t, abs, rest, total_idf, start, c, d, from, to - 1);
        let doc = (to - 1) as DocId;
        assert(is_candidate(s, abs, rest, total_idf, start, c, doc) == is_candidate(
            t,
            abs,
            rest,
            total_idf,
            start,
            d,
            doc,
        ));
    }
}

/// A stretch without candidates adds none.
pub proof fn lemma_no_candidates(
    scorers: Seq<TermScorer>,
    abs: Seq<Term>,
    rest: Seq<Term>,
    total_idf: int,
    start: Score,
    calls: Seq<Call>,
    from: int,
    middle: int,
    to: int,
)
    requires
        0 <= from <= middle <= to <= TERMINATED,
        forall|doc: DocId|
            middle <= doc < to ==> !#[trigger] is_candidate(
                scorers,
                abs,
                rest,
                total_idf,
                start,
                calls,
                doc,
            ),
    ensures
        candidates_between(scorers, abs, rest, total_idf, start, calls, from, to)
            == candidates_between(scorers, abs, rest, total_idf, start, calls, from, middle),
    decreases to - middle,
{
    if middle < to {
        lemma_no_candidates(scorers, abs, rest, total_idf, start, calls, from, middle, to - 1);
        let doc = (to - 1) as DocId;
        assert(!is_candidate(scorers, abs, rest, total_idf, start, calls, doc));
    }
}

/// A call adds nothing to the count up to its document.
pub proof fn lemma_candidates_push(
    scorers: Seq<TermScorer>,
    abs: Seq<Term>,
    rest: Seq<Term>,
    total_idf: int,
    start: Score,
    calls: Seq<Call>,
    call: Call,
    from: int,
    to: int,
)
    requires
        0 <= from,
        to <= call.doc + 1,
        to <= TERMINATED,
    ensures
        candidates_between(scorers, abs, rest, total_idf, start, calls.push(call), from, to)
            == candidates_between(scorers, abs, rest, total_idf, start, calls, from, to),
{
    assert forall|doc: DocId| from <= doc < to implies #[trigger] is_candidate(
        scorers,
        abs,
        rest,
        total_idf,
        start,
        calls.push(call),
        doc,
    ) == is_candidate(scorers, abs, rest, total_idf, start, calls, doc) by {
        lemma_threshold_at_push(start, calls, call, doc as int);
    }
    lemma_candidates_same(
        scorers,
        scorers,
        abs,
        rest,
        total_idf,
        start,
        calls.push(call),
        calls,
        from,
        to,
    );
}

/// The terms `promoted` went from `rest` to `abs` while the threshold rose from `start`. The lists
/// are then `a` and `b`.
pub open spec fn promoted_since(
    abs: Seq<Term>,
    rest: Seq<Term>,
    a: Seq<Term>,
    b: Seq<Term>,
    promoted: Seq<Term>,
    total_idf: int,
    start: Score,
    threshold: Score,
) -> bool {
    &&& a.to_multiset() == (abs + promoted).to_multiset()
    &&& rest.to_multiset() == (promoted + b).to_multiset()
    &&& start <= threshold
    &&& threshold == start ==> promoted.len() == 0
    &&& forall|k: int|
        0 <= k < promoted.len() ==> absolutely_essential(total_idf, threshold)(
            #[trigger] promoted[k],
        )
    &&& threshold > start ==> forall|k: int|
        0 <= k < b.len() ==> !absolutely_essential(total_idf, threshold)(#[trigger] b[k])
}

/// The candidates are the documents that no absolutely essential term misses.
pub proof fn lemma_candidate(
    scorers: Seq<TermScorer>,
    abs: Seq<Term>,
    rest: Seq<Term>,
    a: Seq<Term>,
    b: Seq<Term>,
    promoted: Seq<Term>,
    total_idf: int,
    start: Score,
    calls: Seq<Call>,
    doc: DocId,
)
    requires
        promoted_since(
            abs,
            rest,
            a,
            b,
            promoted,
            total_idf,
            start,
            threshold_at(start, calls, doc as int),
        ),
    ensures
        is_candidate(scorers, abs, rest, total_idf, start, calls, doc) == !misses(scorers, a, doc),
{
    let threshold = threshold_at(start, calls, doc as int);
    if is_candidate(scorers, abs, rest, total_idf, start, calls, doc) {
        assert forall|k: int| 0 <= k < a.len() implies scorers[(
        #[trigger] a[k]).index as int].matches(doc) by {
            let j = lemma_permutation_member(abs + promoted, a, k);
            if j < abs.len() {
                assert(a[k] == abs[j]);
            } else {
                let i = j - abs.len();
                assert(a[k] == promoted[i]);
                assert((promoted + b)[i] == promoted[i]);
                let r = lemma_permutation_member(rest, promoted + b, i);
                assert(absolutely_essential(total_idf, threshold)(rest[r]));
            }
        }
    } else if !misses(scorers, a, doc) {
        assert forall|k: int| 0 <= k < abs.len() implies scorers[(
        #[trigger] abs[k]).index as int].matches(doc) by {
            assert((abs + promoted)[k] == abs[k]);
            let j = lemma_permutation_member(a, abs + promoted, k);
            assert(scorers[a[j].index as int].matches(doc));
        }
        if threshold > start {
            assert forall|k: int|
                0 <= k < rest.len() && absolutely_essential(total_idf, threshold)(
                    #[trigger] rest[k],
                ) implies scorers[rest[k].index as int].matches(doc) by {
                let i = lemma_permutation_member(promoted + b, rest, k);
                if i >= promoted.len() {
                    assert(rest[k] == b[i - promoted.len()]);
                }
                assert(rest[k] == promoted[i]);
                assert((abs + promoted)[abs.len() + i] == promoted[i]);
                let j = lemma_permutation_member(a, abs + promoted, abs.len() + i);
                assert(scorers[a[j].index as int].matches(doc));
            }
        }
    }
}

/// Promoting terms at a higher threshold.
pub proof fn lemma_promoted_more(
    abs: Seq<Term>,
    rest: Seq<Term>,
    a: Seq<Term>,
    b: Seq<Term>,
    promoted: Seq<Term>,
    total_idf: int,
    start: Score,
    threshold: Score,
    higher: Score,
    a2: Seq<Term>,
    b2: Seq<Term>,
)
    requires
        promoted_since(abs, rest, a, b, promoted, total_idf, start, threshold),
        threshold < higher,
        a2 == a + promotion(b, 0, absolutely_essential(total_idf, higher)).0,
        b2.to_multiset() == promotion(
            b,
            0,
            absolutely_essential(total_idf, higher),
        ).1.to_multiset(),
    ensures
        promoted_since(
            abs,
            rest,
            a2,
            b2,
            promoted + promotion(b, 0, absolutely_essential(total_idf, higher)).0,
            total_idf,
            start,
            higher,
        ),
{
    broadcast use group_to_multiset_ensures;

    let heavy = absolutely_essential(total_idf, higher);
    let more = promotion(b, 0, heavy).0;
    let left = promotion(b, 0, heavy).1;
    let promoted2 = promoted + more;
    lemma_promotion(b, 0, heavy);
    lemma_multiset_commutative(a, more);
    lemma_multiset_commutative(abs, promoted);
    lemma_multiset_commutative(abs, promoted2);
    lemma_multiset_commutative(promoted, more);
    lemma_multiset_commutative(promoted, b);
    lemma_multiset_commutative(promoted2, b2);
    assert(a2.to_multiset() =~= (abs + promoted2).to_multiset());
    assert(rest.to_multiset() =~= (promoted2 + b2).to_multiset());
    assert forall|k: int| 0 <= k < promoted2.len() implies heavy(#[trigger] promoted2[k]) by {
        if k < promoted.len() {
            assert(absolutely_essential(total_idf, threshold)(promoted[k]));
        } else {
            assert(promoted2[k] == more[k - promoted.len()]);
        }
    }
    assert forall|k: int| 0 <= k < b2.len() implies !heavy(#[trigger] b2[k]) by {
        let j = lemma_permutation_member(left, b2, k);
    }
}

/// How many terms are absolutely essential.
pub proof fn lemma_promoted_count(
    abs: Seq<Term>,
    rest: Seq<Term>,
    a: Seq<Term>,
    b: Seq<Term>,
    promoted: Seq<Term>,
    total_idf: int,
    start: Score,
    threshold: Score,
)
    requires
        promoted_since(abs, rest, a, b, promoted, total_idf, start, threshold),
    ensures
        a.len() == abs.len() + (if threshold > start {
            count_by(rest, absolutely_essential(total_idf, threshold))
        } else {
            0
        }),
{
    broadcast use group_to_multiset_ensures;

    assert(a.len() == a.to_multiset().len());
    assert((abs + promoted).len() == (abs + promoted).to_multiset().len());
    if threshold > start {
        let heavy = absolutely_essential(total_idf, threshold);
        lemma_sum_permutation(rest, promoted + b, indicator(heavy));
        lemma_sum_append(promoted, b, indicator(heavy));
        lemma_count_all(promoted, heavy);
        lemma_count_none(b, heavy);
    }
}

/// A scorer that was moved meets the same terms from there on.
proof fn lemma_same_misses(
    s: Seq<TermScorer>,
    t: Seq<TermScorer>,
    terms: Seq<Term>,
    from: DocId,
    doc: DocId,
)
    requires
        stepped(s, t, from),
        valid_terms(s, terms),
        from <= doc,
    ensures
        misses(s, terms, doc) == misses(t, terms, doc),
{
    assert forall|k: int| 0 <= k < terms.len() implies t[(
    #[trigger] terms[k]).index as int].matches(doc) == s[terms[k].index as int].matches(doc) by {
        assert(term_moved(s[terms[k].index as int], t[terms[k].index as int], from));
    }
    if misses(s, terms, doc) {
        let k = choose|k: int|
            0 <= k < terms.len() && !s[(#[trigger] terms[k]).index as int].matches(doc);
        assert(!t[terms[k].index as int].matches(doc));
    }
    if misses(t, terms, doc) {
        let k = choose|k: int|
            0 <= k < terms.len() && !t[(#[trigger] terms[k]).index as int].matches(doc);
        assert(!s[terms[k].index as int].matches(doc));
    }
}

/// Documents that an absolutely essential term misses are no candidates.
pub proof fn lemma_skipped_candidates(
    s: Seq<TermScorer>,
    t: Seq<TermScorer>,
    abs: Seq<Term>,
    rest: Seq<Term>,
    a: Seq<Term>,
    b: Seq<Term>,
    promoted: Seq<Term>,
    total_idf: int,
    start: Score,
    calls: Seq<Call>,
    floor: int,
    from: DocId,
    to: DocId,
)
    requires
        stepped(s, t, from),
        valid_terms(s, a),
        forall|i: int| 0 <= i < calls.len() ==> (#[trigger] calls[i]).doc < from,
        promoted_since(
            abs,
            rest,
            a,
            b,
            promoted,
            total_idf,
            start,
            peak(start, calls, calls.len() as int),
        ),
        0 <= floor <= from <= to <= TERMINATED,
        forall|d: DocId| from <= d < to ==> #[trigger] misses(t, a, d),
    ensures
        candidates_between(s, abs, rest, total_idf, start, calls, floor, to as int)
            == candidates_between(s, abs, rest, total_idf, start, calls, floor, from as int),
{
    assert forall|d: DocId| from <= d < to implies !#[trigger] is_candidate(
        s,
        abs,
        rest,
        total_idf,
        start,
        calls,
        d,
    ) by {
        lemma_threshold_at(start, calls, d as int);
        lemma_same_misses(s, t, a, from, d);
        assert(misses(t, a, d));
        lemma_candidate(s, abs, rest, a, b, promoted, total_idf, start, calls, d);
    }
    lemma_no_candidates(
        s,
        abs,
        rest,
        total_idf,
        start,
        calls,
        floor,
        from as int,
        to as int,
    );
}

/// A document that no absolutely essential term misses is a candidate.
pub proof fn lemma_found_candidate(
    s: Seq<TermScorer>,
    t: Seq<TermScorer>,
    abs: Seq<Term>,
    rest: Seq<Term>,
    a: Seq<Term>,
    b: Seq<Term>,
    promoted: Seq<Term>,
    total_idf: int,
    start: Score,
    calls: Seq<Call>,
    floor: int,
    doc: DocId,
)
    requires
        stepped(s, t, doc),
        valid_terms(s, a),
        forall|i: int| 0 <= i < calls.len() ==> (#[trigger] calls[i]).doc < doc,
        promoted_since(
            abs,
            rest,
            a,
            b,
            promoted,
            total_idf,
            start,
            peak(start, calls, calls.len() as int),
        ),
        0 <= floor <= doc < TERMINATED,
        !misses(t, a, doc),
    ensures
        candidates_between(s, abs, rest, total_idf, start, calls, floor, doc + 1)
            == candidates_between(s, abs, rest, total_idf, start, calls, floor, doc as int) + 1,
{
    lemma_threshold_at(start, calls, doc as int);
    lemma_same_misses(s, t, a, doc, doc);
    lemma_candidate(s, abs, rest, a, b, promoted, total_idf, start, calls, doc);
}

/// What the walk over the intersection comes to: the number of candidates, and how many terms are
/// absolutely essential at its end.
pub open spec fn intersection_counts(
    scorers: Seq<TermScorer>,
    abs: Seq<Term>,
    rest: Seq<Term>,
    total_idf: int,
    start: Score,
    calls: Seq<Call>,
    from: int,
    threshold: Score,
    candidates: int,
    at_end: int,
) -> bool {
    &&& candidates == candidates_between(
        scorers,
        abs,
        rest,
        total_idf,
        start,
        calls,
        from,
        TERMINATED as int,
    )
    &&& at_end == abs.len() + (if threshold > start {
        count_by(rest, absolutely_essential(total_idf, threshold))
    } else {
        0
    })
}

/// The state of the walk over the union: the scorers, the essential terms and the others, the number
/// of matches, the threshold, and the first document that is not visited yet.
pub struct Union<'a> {
    pub scorers: Seq<TermScorer<'a>>,
    pub essential: Seq<Term>,
    pub light: Seq<Term>,
    pub matches: int,
    pub threshold: Score,
    pub from: DocId,
}

impl<'a> Union<'a> {
    /// How many essential terms reach the pivot.
    pub open spec fn rank(self) -> int {
        if self.matches < 1 && self.essential.len() > 0 {
            1
        } else if self.matches < self.essential.len() {
            self.matches
        } else {
            self.essential.len() as int
        }
    }

    /// By `pivot`, and not before, enough of the essential terms have a document.
    pub open spec fn is_pivot(self, pivot: DocId) -> bool {
        &&& count_by(self.essential, stands_before(self.scorers, pivot as int)) < self.rank()
        &&& count_by(self.essential, stands_before(self.scorers, pivot + 1)) >= self.rank()
    }

    /// The pivot is scored: the essential terms are moved to it and past it, and the others are
    /// scored from the heaviest one on.
    #[verifier::opaque]
    pub open spec fn scored(self, pivot: DocId) -> Scored<'a> {
        score_terms(
            moved_past(caught_up(self.scorers, self.essential, pivot), self.essential, pivot),
            from_heaviest(self.light, true),
            pivot,
            self.threshold,
            hits(self.scorers, self.essential, pivot),
        )
    }

    /// How often scorers seek when the pivot is scored.
    pub open spec fn seeks(self, pivot: DocId) -> int {
        count_by(self.essential, stands_before(self.scorers, pivot as int)) + self.scored(
            pivot,
        ).seeks
    }

    /// How often scorers are advanced when the pivot is scored.
    pub open spec fn steps(self, pivot: DocId) -> int {
        count_by(self.essential, contains_doc(self.scorers, pivot))
    }

    /// No document is left to visit.
    pub open spec fn is_over(self) -> bool {
        self.essential.len() == 0 || self.is_pivot(TERMINATED)
    }

    /// An essential term is absolutely essential.
    pub open spec fn has_heavy(self, total_idf: int) -> bool {
        exists|k: int|
            0 <= k < self.essential.len() && absolutely_essential(total_idf, self.threshold)(
                #[trigger] self.essential[k],
            )
    }

    /// The essential terms part into `live` ones and `spent` ones without a document left.
    pub open spec fn retains(
        self,
        scorers: Seq<TermScorer<'a>>,
        live: Seq<Term>,
        spent: Seq<Term>,
    ) -> bool {
        &&& live.to_multiset().add(spent.to_multiset()) == self.essential.to_multiset()
        &&& forall|k: int|
            0 <= k < live.len() ==> scorers[(#[trigger] live[k]).index as int].doc() != TERMINATED
        &&& forall|k: int|
            0 <= k < spent.len() ==> scorers[(#[trigger] spent[k]).index as int].doc()
                == TERMINATED
    }

    /// How the `live` essential terms go on as those of `next`: unchanged, or demoted under a
    /// higher threshold. Which ones of equally heavy terms are demoted is left open.
    pub open spec fn divides(self, live: Seq<Term>, next: Union<'a>) -> bool {
        if next.threshold > self.threshold {
            &&& is_demotion(
                idf_values(live),
                weight(self.light),
                next.threshold,
                live.len() - next.essential.len(),
            )
            &&& exists|demoted: Seq<Term>| #[trigger]
                demotes(live, self.light, next.essential, next.light, demoted)
            &&& next.essential.len() == live.len() ==> next.light == self.light
            &&& next.essential.len() < live.len() ==> sorted_by_key(next.light, idf_fn())
            &&& is_min_matches(
                idf_values(next.essential),
                weight(next.light),
                next.threshold,
                next.matches,
            )
        } else {
            &&& next.essential == live
            &&& next.light == self.light
            &&& next.matches == self.matches
        }
    }

    /// One document is visited: the pivot.
    pub open spec fn visits(self, calls: Seq<Call>, next: Union<'a>) -> bool {
        &&& self.essential.len() > 0
        &&& 0 < next.from <= TERMINATED
        &&& self.is_pivot((next.from - 1) as DocId)
        &&& next.scorers == self.scored((next.from - 1) as DocId).scorers
        &&& next.threshold == threshold_at(self.threshold, calls, next.from as int)
        &&& exists|live: Seq<Term>, spent: Seq<Term>| #[trigger]
            self.retains(next.scorers, live, spent) && self.divides(live, next)
    }
}

/// The walk is left for the intersection: the threshold has just risen, and made terms absolutely
/// essential.
pub open spec fn turns_heavy(walk: Seq<Union>, i: int, total_idf: int) -> bool {
    0 < i && walk[i - 1].threshold < walk[i].threshold && walk[i].has_heavy(total_idf)
}

/// The states of a walk over the union of the essential terms, up to the last one so far. It was
/// not left before.
pub open spec fn is_walk_so_far(total_idf: int, calls: Seq<Call>, walk: Seq<Union>) -> bool {
    &&& walk.len() > 0
    &&& forall|i: int| 0 < i < walk.len() ==> walk[i - 1].visits(calls, #[trigger] walk[i])
    &&& forall|i: int| 0 <= i < walk.len() - 1 ==> !#[trigger] turns_heavy(walk, i, total_idf)
}

/// A whole walk: it ends when it is left for the intersection, or when no document is left.
pub open spec fn is_walk(total_idf: int, calls: Seq<Call>, walk: Seq<Union>) -> bool {
    &&& is_walk_so_far(total_idf, calls, walk)
    &&& turns_heavy(walk, walk.len() - 1, total_idf) || walk.last().is_over()
}

/// How often scorers are advanced on a walk: a visited document takes one step of each essential
/// term that contains it.
pub open spec fn steps_of(walk: Seq<Union>) -> int
    decreases walk.len(),
{
    if walk.len() <= 1 {
        0
    } else {
        steps_of(walk.drop_last()) + walk[walk.len() - 2].steps((walk.last().from - 1) as DocId)
    }
}

/// How often scorers seek on a walk.
pub open spec fn seeks_of(walk: Seq<Union>) -> int
    decreases walk.len(),
{
    if walk.len() <= 1 {
        0
    } else {
        seeks_of(walk.drop_last()) + walk[walk.len() - 2].seeks((walk.last().from - 1) as DocId)
    }
}

/// What a walk over the union comes to: the number of visited documents, of steps and of seeks, and
/// the counts of the intersection that it may be left for.
pub open spec fn union_counts(
    total_idf: int,
    calls: Seq<Call>,
    walk: Seq<Union>,
    threshold: Score,
    visited: int,
    candidates: int,
    steps: int,
    seeks: int,
    at_start: int,
    at_end: int,
) -> bool {
    let last = walk.last();
    let abs = last.essential.filter(absolutely_essential(total_idf, last.threshold));
    let rest = last.essential.filter(dispensable(total_idf, last.threshold)) + last.light;
    &&& visited == walk.len() - 1
    &&& steps == steps_of(walk) + candidates
    &&& if turns_heavy(walk, walk.len() - 1, total_idf) {
        &&& intersection_counts(
            last.scorers,
            abs,
            rest,
            total_idf,
            last.threshold,
            calls,
            last.from as int,
            threshold,
            candidates,
            at_end,
        )
        &&& exists|states: Seq<Meeting>| #[trigger]
            meets_with(total_idf, calls, states, seeks - seeks_of(walk)) && states[0].starts(
                last.scorers,
                abs,
                rest,
                last.threshold,
            )
    } else {
        candidates == 0 && seeks == seeks_of(walk) && at_end == at_start
    }
}

/// Calls from `doc` on do not count.
pub proof fn lemma_threshold_at_extended(start: Score, calls: Seq<Call>, fresh: Seq<Call>, doc: int)
    requires
        forall|i: int| 0 <= i < fresh.len() ==> (#[trigger] fresh[i]).doc >= doc,
    ensures
        threshold_at(start, calls + fresh, doc) == threshold_at(start, calls, doc),
    decreases fresh.len(),
{
    if fresh.len() > 0 {
        assert((calls + fresh).drop_last() =~= calls + fresh.drop_last());
        assert(fresh.last().doc >= doc);
        lemma_threshold_at_extended(start, calls, fresh.drop_last(), doc);
    } else {
        assert(calls + fresh =~= calls);
    }
}

/// What holds of a walk while it goes on: the states are behind `floor`.
#[verifier::opaque]
pub open spec fn walks_on(
    total_idf: int,
    calls: Seq<Call>,
    walk: Seq<Union>,
    floor: int,
) -> bool {
    &&& is_walk_so_far(total_idf, calls, walk)
    &&& forall|i: int| 0 <= i < walk.len() ==> (#[trigger] walk[i]).from <= floor
}

/// A walk of one state.
pub proof fn lemma_walk_starts(total_idf: int, calls: Seq<Call>, state: Union)
    requires
        state.from == 0,
    ensures
        walks_on(total_idf, calls, seq![state], 0),
        !turns_heavy(seq![state], 0, total_idf),
        steps_of(seq![state]) == 0,
        seeks_of(seq![state]) == 0,
{
    reveal(walks_on);
}

/// Later calls do not change a walk.
pub proof fn lemma_walk_extended(
    total_idf: int,
    calls: Seq<Call>,
    fresh: Seq<Call>,
    walk: Seq<Union>,
    floor: int,
)
    requires
        walks_on(total_idf, calls, walk, floor),
        forall|i: int| 0 <= i < fresh.len() ==> (#[trigger] fresh[i]).doc >= floor,
    ensures
        walks_on(total_idf, calls + fresh, walk, floor),
{
    reveal(walks_on);
    assert forall|i: int| 0 < i < walk.len() implies walk[i - 1].visits(
        calls + fresh,
        #[trigger] walk[i],
    ) by {
        assert(walk[i - 1].visits(calls, walk[i]));
        lemma_threshold_at_extended(walk[i - 1].threshold, calls, fresh, walk[i].from as int);
    }
}

/// One more state of a walk.
pub proof fn lemma_walk_on<'a>(
    total_idf: int,
    calls: Seq<Call>,
    walk: Seq<Union<'a>>,
    floor: int,
    next: Union<'a>,
    live: Seq<Term>,
    spent: Seq<Term>,
)
    requires
        walks_on(total_idf, calls, walk, floor),
        walk.len() > 0,
        !turns_heavy(walk, walk.len() - 1, total_idf),
        floor < next.from <= TERMINATED,
        0 <= floor,
        walk.last().essential.len() > 0,
        walk.last().is_pivot((next.from - 1) as DocId),
        next.scorers == walk.last().scored((next.from - 1) as DocId).scorers,
        next.threshold == threshold_at(walk.last().threshold, calls, next.from as int),
        walk.last().retains(next.scorers, live, spent),
        walk.last().divides(live, next),
    ensures
        walks_on(total_idf, calls, walk.push(next), next.from as int),
        turns_heavy(walk.push(next), walk.len() as int, total_idf) == (walk.last().threshold
            < next.threshold && next.has_heavy(total_idf)),
        steps_of(walk.push(next)) == steps_of(walk) + walk.last().steps(
            (next.from - 1) as DocId,
        ),
        seeks_of(walk.push(next)) == seeks_of(walk) + walk.last().seeks(
            (next.from - 1) as DocId,
        ),
{
    reveal(walks_on);
    let longer = walk.push(next);
    assert(longer.drop_last() =~= walk);
    assert(walk.last().visits(calls, next));
    assert forall|i: int| 0 < i < longer.len() implies longer[i - 1].visits(
        calls,
        #[trigger] longer[i],
    ) by {
        assert(longer[i - 1] == walk[i - 1]);
        if i < walk.len() {
            assert(longer[i] == walk[i]);
        }
    }
    assert forall|i: int| 0 <= i < longer.len() - 1 implies !#[trigger] turns_heavy(
        longer,
        i,
        total_idf,
    ) by {
        assert(!turns_heavy(walk, i, total_idf));
        assert(longer[i] == walk[i]);
        if i > 0 {
            assert(longer[i - 1] == walk[i - 1]);
        }
    }
    assert forall|i: int| 0 <= i < longer.len() implies (#[trigger] longer[i]).from
        <= next.from by {
        if i < walk.len() {
            assert(longer[i] == walk[i]);
        }
    }
}

/// A state with absolutely essential terms among the essential ones.
pub proof fn lemma_has_heavy(state: Union, abs: Seq<Term>, total_idf: int)
    requires
        abs == state.essential.filter(absolutely_essential(total_idf, state.threshold)),
    ensures
        state.has_heavy(total_idf) == (abs.len() > 0),
{
    let essential = state.essential;
    let heavy = absolutely_essential(total_idf, state.threshold);
    if abs.len() > 0 {
        essential.lemma_filter_pred(heavy, 0);
        essential.lemma_filter_contains_rev(heavy, abs[0]);
        let k = choose|k: int| 0 <= k < essential.len() && essential[k] == abs[0];
        assert(heavy(essential[k]));
    }
    if state.has_heavy(total_idf) {
        let k = choose|k: int| 0 <= k < essential.len() && heavy(#[trigger] essential[k]);
        essential.lemma_filter_contains(heavy, k);
        assert(abs.contains(essential[k]));
    }
}

/// The selected document is the pivot.
pub proof fn lemma_is_pivot(state: Union, selected: Seq<Term>, pivot: DocId)
    requires
        0 < state.essential.len(),
        selected.to_multiset() == state.essential.to_multiset(),
        selected.len() == state.essential.len(),
        forall|j: int|
            0 <= j < state.rank() ==> state.scorers[(
            #[trigger] selected[j]).index as int].doc() <= pivot,
        forall|j: int|
            state.rank() - 1 <= j < selected.len() ==> state.scorers[(
            #[trigger] selected[j]).index as int].doc() >= pivot,
    ensures
        state.is_pivot(pivot),
{
    let rank = state.rank();
    let early = stands_before(state.scorers, pivot as int);
    let by_then = stands_before(state.scorers, pivot + 1);
    lemma_sum_permutation(state.essential, selected, indicator(early));
    lemma_sum_permutation(state.essential, selected, indicator(by_then));
    lemma_sum_split(selected, rank - 1, indicator(early));
    lemma_count_bounds(selected.take(rank - 1), early);
    let high = selected.skip(rank - 1);
    assert forall|j: int| 0 <= j < high.len() implies indicator(early)(#[trigger] high[j])
        == 0 by {
        assert(high[j] == selected[rank - 1 + j]);
    }
    lemma_sum_zero(high, indicator(early));
    lemma_sum_split(selected, rank, indicator(by_then));
    let low = selected.take(rank);
    assert forall|j: int| 0 <= j < low.len() implies by_then(#[trigger] low[j]) by {
        assert(low[j] == selected[j]);
    }
    lemma_count_all(low, by_then);
    lemma_count_bounds(selected.skip(rank), by_then);
}

/// The order of the essential terms does not matter when a document is scored.
pub proof fn lemma_scored_permuted(a: Union, b: Union, pivot: DocId)
    requires
        a.scorers == b.scorers,
        a.light == b.light,
        a.threshold == b.threshold,
        a.essential.to_multiset() == b.essential.to_multiset(),
    ensures
        a.scored(pivot) == b.scored(pivot),
        a.seeks(pivot) == b.seeks(pivot),
        a.steps(pivot) == b.steps(pivot),
{
    reveal(Union::scored);
    let e = a.essential;
    let f = b.essential;
    lemma_sum_permutation(e, f, hit_fn(a.scorers, pivot));
    lemma_sum_permutation(e, f, indicator(stands_before(a.scorers, pivot as int)));
    lemma_sum_permutation(e, f, indicator(contains_doc(a.scorers, pivot)));
    assert forall|i: int| #[trigger] is_listed(e, i) == is_listed(f, i) by {
        if is_listed(e, i) {
            let k = choose|k: int| 0 <= k < e.len() && (#[trigger] e[k]).index == i;
            let j = lemma_permutation_member(f, e, k);
            assert(f[j].index == i);
        }
        if is_listed(f, i) {
            let k = choose|k: int| 0 <= k < f.len() && (#[trigger] f[k]).index == i;
            let j = lemma_permutation_member(e, f, k);
            assert(e[j].index == i);
        }
    }
    let up = caught_up(a.scorers, e, pivot);
    assert(up =~= caught_up(b.scorers, f, pivot));
    assert(moved_past(up, e, pivot) =~= moved_past(up, f, pivot));
}

/// Candidates over the scorers as they were before, and with all calls.
pub proof fn lemma_intersection_counts(
    s: Seq<TermScorer>,
    t: Seq<TermScorer>,
    abs: Seq<Term>,
    rest: Seq<Term>,
    total_idf: int,
    start: Score,
    earlier: Seq<Call>,
    fresh: Seq<Call>,
    from: DocId,
    threshold: Score,
    candidates: int,
    at_end: int,
)
    requires
        stepped(s, t, from),
        valid_terms(s, abs),
        valid_terms(s, rest),
        forall|i: int| 0 <= i < earlier.len() ==> (#[trigger] earlier[i]).threshold <= start,
        intersection_counts(
            t,
            abs,
            rest,
            total_idf,
            start,
            fresh,
            from as int,
            threshold,
            candidates,
            at_end,
        ),
    ensures
        intersection_counts(
            s,
            abs,
            rest,
            total_idf,
            start,
            earlier + fresh,
            from as int,
            threshold,
            candidates,
            at_end,
        ),
{
    let all = earlier + fresh;
    assert forall|doc: DocId| from <= doc < TERMINATED implies #[trigger] is_candidate(
        t,
        abs,
        rest,
        total_idf,
        start,
        fresh,
        doc,
    ) == is_candidate(s, abs, rest, total_idf, start, all, doc) by {
        lemma_threshold_at_later(start, earlier, fresh, doc as int);
        assert forall|k: int| 0 <= k < abs.len() implies t[(
        #[trigger] abs[k]).index as int].matches(doc) == s[abs[k].index as int].matches(doc) by {
            assert(term_moved(s[abs[k].index as int], t[abs[k].index as int], from));
        }
        assert forall|k: int| 0 <= k < rest.len() implies t[(
        #[trigger] rest[k]).index as int].matches(doc) == s[rest[k].index as int].matches(doc) by {
            assert(term_moved(s[rest[k].index as int], t[rest[k].index as int], from));
        }
    }
    lemma_candidates_same(
        t,
        s,
        abs,
        rest,
        total_idf,
        start,
        fresh,
        all,
        from as int,
        TERMINATED as int,
    );
}

/// A walk over the union that is left for the intersection.
pub proof fn lemma_union_left(
    total_idf: int,
    earlier: Seq<Call>,
    fresh: Seq<Call>,
    walk: Seq<Union>,
    abs: Seq<Term>,
    rest: Seq<Term>,
    threshold: Score,
    candidates: int,
    seeks: int,
    at_start: int,
    at_end: int,
)
    requires
        walks_on(total_idf, earlier, walk, walk.last().from as int),
        walk.len() > 0,
        turns_heavy(walk, walk.len() - 1, total_idf),
        abs == walk.last().essential.filter(
            absolutely_essential(total_idf, walk.last().threshold),
        ),
        rest == walk.last().essential.filter(dispensable(total_idf, walk.last().threshold))
            + walk.last().light,
        valid_terms(walk.last().scorers, abs),
        valid_terms(walk.last().scorers, rest),
        all_ready(walk.last().scorers),
        forall|i: int|
            0 <= i < earlier.len() ==> (#[trigger] earlier[i]).threshold
                <= walk.last().threshold,
        forall|i: int| 0 <= i < fresh.len() ==> (#[trigger] fresh[i]).doc >= walk.last().from,
        intersection_counts(
            walk.last().scorers,
            abs,
            rest,
            total_idf,
            walk.last().threshold,
            fresh,
            walk.last().from as int,
            threshold,
            candidates,
            at_end,
        ),
        exists|states: Seq<Meeting>| #[trigger]
            meets_with(total_idf, fresh, states, seeks) && states[0].starts(
                walk.last().scorers,
                abs,
                rest,
                walk.last().threshold,
            ),
    ensures
        is_walk(total_idf, earlier + fresh, walk),
        union_counts(
            total_idf,
            earlier + fresh,
            walk,
            threshold,
            walk.len() - 1,
            candidates,
            steps_of(walk) + candidates,
            seeks_of(walk) + seeks,
            at_start,
            at_end,
        ),
{
    let last = walk.last();
    lemma_walk_extended(total_idf, earlier, fresh, walk, last.from as int);
    reveal(walks_on);
    lemma_stepped_refl(last.scorers, last.from);
    lemma_intersection_counts(
        last.scorers,
        last.scorers,
        abs,
        rest,
        total_idf,
        last.threshold,
        earlier,
        fresh,
        last.from,
        threshold,
        candidates,
        at_end,
    );
    let states = choose|states: Seq<Meeting>| #[trigger]
        meets_with(total_idf, fresh, states, seeks) && states[0].starts(
            last.scorers,
            abs,
            rest,
            last.threshold,
        );
    lemma_meetings_later(total_idf, earlier, fresh, states, seeks);
    assert(meets_with(
        total_idf,
        earlier + fresh,
        states,
        (seeks_of(walk) + seeks) - seeks_of(walk),
    ));
}

/// The terms by rising weight. Terms of equal weight keep their order.
pub open spec fn is_ranking(terms: Seq<Term>, ranked: Seq<Term>) -> bool {
    &&& ranked.to_multiset() == terms.to_multiset()
    &&& sorted_by_key(ranked, idf_fn())
    &&& same_ties(terms, ranked, idf_fn())
}

/// What the pruning comes to when it starts with `split` non-essential terms of `ranked`: the
/// candidates of its phases, the steps and seeks of scorers, and how many terms are absolutely
/// essential at its end.
pub open spec fn pruning_counts(
    scorers: Seq<TermScorer>,
    total_idf: int,
    start: Score,
    calls: Seq<Call>,
    ranked: Seq<Term>,
    split: int,
    matches: int,
    threshold: Score,
    visited: int,
    candidates: int,
    steps: int,
    seeks: int,
    at_end: int,
) -> bool {
    let essential = ranked.skip(split);
    let light = ranked.take(split);
    let abs = essential.filter(absolutely_essential(total_idf, start));
    if abs.len() > 0 {
        &&& visited == 0
        &&& steps == candidates
        &&& intersection_counts(
            scorers,
            abs,
            essential.filter(dispensable(total_idf, start)) + light,
            total_idf,
            start,
            calls,
            0,
            threshold,
            candidates,
            at_end,
        )
        &&& exists|states: Seq<Meeting>| #[trigger]
            meets_with(total_idf, calls, states, seeks) && states[0].starts(
                scorers,
                abs,
                essential.filter(dispensable(total_idf, start)) + light,
                start,
            )
    } else {
        exists|walk: Seq<Union>| #[trigger]
            is_walk(total_idf, calls, walk) && walk[0] == (Union {
                scorers,
                essential,
                light,
                matches,
                threshold: start,
                from: 0,
            }) && union_counts(
                total_idf,
                calls,
                walk,
                threshold,
                visited,
                candidates,
                steps,
                seeks,
                0,
                at_end,
            )
    }
}

} // verus!
