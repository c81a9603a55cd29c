//! The terms of a query whose postings count for their weight alone.
//!
//! The scorers stay where they are in one vector. A [`Term`] points at one of them, and the
//! algorithm moves terms between lists.
use vstd::prelude::*;
use vstd::seq_lib::{group_to_multiset_ensures, lemma_multiset_commutative};

use crate::pruning::{all_ready, any_matches, term_idf};
use crate::scorer_set::lemma_permutation_member;
use crate::sums::{
    lemma_sum_append, lemma_sum_eq, lemma_sum_le, lemma_sum_nonneg, lemma_sum_permutation,
    lemma_sum_remove, lemma_sum_zero, sum_by,
};
use crate::term_scorer::TermScorer;
use crate::types::{DocId, Score, TERMINATED};

verus! {

/// A term: the index of its scorer, and its weight.
#[derive(Clone, Copy)]
pub struct Term {
    pub index: usize,
    pub idf: Score,
}

pub open spec fn idf_fn() -> spec_fn(Term) -> int {
    |t: Term| t.idf as int
}

/// What a term gives to `doc`.
pub open spec fn hit_fn(scorers: Seq<TermScorer>, doc: DocId) -> spec_fn(Term) -> int {
    |t: Term|
        if scorers[t.index as int].matches(doc) {
            t.idf as int
        } else {
            0
        }
}

/// The weight of all `terms`.
pub open spec fn weight(terms: Seq<Term>) -> int {
    sum_by(terms, idf_fn())
}

/// The weight of those `terms` whose scorers meet `doc`.
pub open spec fn hits(scorers: Seq<TermScorer>, terms: Seq<Term>, doc: DocId) -> int {
    sum_by(terms, hit_fn(scorers, doc))
}

/// One of the `terms` meets `doc`.
pub open spec fn met(scorers: Seq<TermScorer>, terms: Seq<Term>, doc: DocId) -> bool {
    exists|k: int|
        0 <= k < terms.len() && scorers[(#[trigger] terms[k]).index as int].matches(doc)
}

/// The terms carry the weights of their scorers.
pub open spec fn valid_terms(scorers: Seq<TermScorer>, terms: Seq<Term>) -> bool {
    forall|k: int|
        0 <= k < terms.len() ==> {
            let t = #[trigger] terms[k];
            t.index < scorers.len() && t.idf == scorers[t.index as int].list.idf_score && 0 <= t.idf
        }
}

/// No scorer belongs to two of the terms.
pub open spec fn distinct_terms(terms: Seq<Term>) -> bool {
    forall|j: int, k: int|
        0 <= j < k < terms.len() ==> (#[trigger] terms[j]).index != (#[trigger] terms[k]).index
}

/// No scorer belongs to a term of each list.
pub open spec fn disjoint_terms(a: Seq<Term>, b: Seq<Term>) -> bool {
    forall|j: int, k: int|
        0 <= j < a.len() && 0 <= k < b.len() ==> (#[trigger] a[j]).index != (#[trigger] b[k]).index
}

/// One term for each scorer.
pub open spec fn all_terms(scorers: Seq<TermScorer>) -> Seq<Term> {
    Seq::new(
        scorers.len(),
        |i: int| Term { index: i as usize, idf: scorers[i].list.idf_score },
    )
}

/// `a`, `b` and `dropped` together hold each term once.
pub open spec fn parts_of(
    scorers: Seq<TermScorer>,
    a: Seq<Term>,
    b: Seq<Term>,
    dropped: Seq<Term>,
) -> bool {
    (a + b + dropped).to_multiset() == all_terms(scorers).to_multiset()
}

/// `b` is `a`, moved on without losing a document from `from` on.
pub open spec fn term_moved(a: TermScorer, b: TermScorer, from: DocId) -> bool {
    &&& b.wf()
    &&& b.is_loaded()
    &&& b.list == a.list
    &&& b.cursor >= a.cursor
    &&& forall|d: DocId| d >= from ==> (#[trigger] b.matches(d) <==> a.matches(d))
}

/// Every scorer moved on without losing a document from `from` on.
pub open spec fn stepped(a: Seq<TermScorer>, b: Seq<TermScorer>, from: DocId) -> bool {
    &&& b.len() == a.len()
    &&& forall|i: int| 0 <= i < a.len() ==> term_moved(a[i], #[trigger] b[i], from)
}

/// The scorers of the `terms` have not moved.
pub open spec fn untouched(a: Seq<TermScorer>, b: Seq<TermScorer>, terms: Seq<Term>) -> bool {
    forall|k: int|
        0 <= k < terms.len() ==> b[(#[trigger] terms[k]).index as int] == a[terms[k].index as int]
}

/// All scorers of the `terms` stand at `doc` or later.
pub open spec fn stand_from(scorers: Seq<TermScorer>, terms: Seq<Term>, doc: int) -> bool {
    forall|k: int|
        0 <= k < terms.len() ==> scorers[(#[trigger] terms[k]).index as int].doc() >= doc
}

/// The scorers of the `terms` have no document left.
pub open spec fn exhausted(scorers: Seq<TermScorer>, terms: Seq<Term>) -> bool {
    forall|k: int|
        0 <= k < terms.len() ==> scorers[(#[trigger] terms[k]).index as int].doc() == TERMINATED
}

pub proof fn lemma_stepped_refl(s: Seq<TermScorer>, from: DocId)
    requires
        all_ready(s),
    ensures
        stepped(s, s, from),
{
}

pub proof fn lemma_stepped_chain(
    a: Seq<TermScorer>,
    b: Seq<TermScorer>,
    c: Seq<TermScorer>,
    from: DocId,
    to: DocId,
)
    requires
        stepped(a, b, from),
        stepped(b, c, to),
        from <= to,
    ensures
        stepped(a, c, to),
{
    assert forall|i: int| 0 <= i < a.len() implies term_moved(a[i], #[trigger] c[i], to) by {
        assert(term_moved(a[i], b[i], from));
        assert(term_moved(b[i], c[i], to));
        assert forall|d: DocId| d >= to implies (#[trigger] c[i].matches(d) <==> a[i].matches(
            d,
        )) by {
            assert(b[i].matches(d) <==> a[i].matches(d));
        }
    }
}

/// One scorer of many moved.
pub proof fn lemma_stepped_one(s: Seq<TermScorer>, i: int, moved: TermScorer, from: DocId)
    requires
        all_ready(s),
        0 <= i < s.len(),
        term_moved(s[i], moved, from),
    ensures
        stepped(s, s.update(i, moved), from),
{
}

/// A scorer that moved on meets no more than before.
pub proof fn lemma_hits_stepped(
    a: Seq<TermScorer>,
    b: Seq<TermScorer>,
    terms: Seq<Term>,
    from: DocId,
)
    requires
        stepped(a, b, from),
        valid_terms(a, terms),
    ensures
        valid_terms(b, terms),
        all_terms(b) == all_terms(a),
        forall|d: DocId| #[trigger] hits(b, terms, d) <= hits(a, terms, d),
        forall|d: DocId| d >= from ==> #[trigger] hits(b, terms, d) == hits(a, terms, d),
        forall|d: DocId| #[trigger] met(b, terms, d) ==> met(a, terms, d),
        forall|d: DocId| d >= from ==> #[trigger] met(b, terms, d) == met(a, terms, d),
{
    assert forall|k: int| 0 <= k < terms.len() implies {
        let t = #[trigger] terms[k];
        t.index < b.len() && t.idf == b[t.index as int].list.idf_score && 0 <= t.idf
    } by {
        assert(term_moved(a[terms[k].index as int], b[terms[k].index as int], from));
    }
    assert(all_terms(b) =~= all_terms(a)) by {
        assert forall|i: int| 0 <= i < a.len() implies all_terms(b)[i] == all_terms(a)[i] by {
            assert(term_moved(a[i], b[i], from));
        }
    }
    assert forall|d: DocId| #[trigger] hits(b, terms, d) <= hits(a, terms, d) by {
        assert forall|k: int| 0 <= k < terms.len() implies hit_fn(b, d)(#[trigger] terms[k])
            <= hit_fn(a, d)(terms[k]) by {
            assert(term_moved(a[terms[k].index as int], b[terms[k].index as int], from));
        }
        lemma_sum_le(terms, terms, hit_fn(b, d), hit_fn(a, d));
    }
    assert forall|d: DocId| d >= from implies #[trigger] hits(b, terms, d) == hits(
        a,
        terms,
        d,
    ) by {
        assert forall|k: int| 0 <= k < terms.len() implies hit_fn(b, d)(#[trigger] terms[k])
            == hit_fn(a, d)(terms[k]) by {
            assert(term_moved(a[terms[k].index as int], b[terms[k].index as int], from));
            assert(b[terms[k].index as int].matches(d) <==> a[terms[k].index as int].matches(d));
        }
        lemma_sum_eq(terms, terms, hit_fn(b, d), hit_fn(a, d));
    }
    assert forall|d: DocId| #[trigger] met(b, terms, d) implies met(a, terms, d) by {
        let k = choose|k: int|
            0 <= k < terms.len() && b[(#[trigger] terms[k]).index as int].matches(d);
        assert(term_moved(a[terms[k].index as int], b[terms[k].index as int], from));
        assert(a[terms[k].index as int].matches(d));
    }
    assert forall|d: DocId| d >= from implies #[trigger] met(b, terms, d) == met(a, terms, d) by {
        if met(a, terms, d) {
            let k = choose|k: int|
                0 <= k < terms.len() && a[(#[trigger] terms[k]).index as int].matches(d);
            assert(term_moved(a[terms[k].index as int], b[terms[k].index as int], from));
            assert(b[terms[k].index as int].matches(d));
        }
    }
}

/// Terms whose scorers did not move meet what they met.
pub proof fn lemma_hits_untouched(a: Seq<TermScorer>, b: Seq<TermScorer>, terms: Seq<Term>)
    requires
        untouched(a, b, terms),
    ensures
        forall|d: DocId| #[trigger] hits(b, terms, d) == hits(a, terms, d),
{
    assert forall|d: DocId| #[trigger] hits(b, terms, d) == hits(a, terms, d) by {
        lemma_sum_eq(terms, terms, hit_fn(b, d), hit_fn(a, d));
    }
}

pub proof fn lemma_hits_bounds(scorers: Seq<TermScorer>, terms: Seq<Term>, doc: DocId)
    requires
        valid_terms(scorers, terms),
    ensures
        0 <= hits(scorers, terms, doc) <= weight(terms),
{
    lemma_sum_nonneg(terms, hit_fn(scorers, doc));
    lemma_sum_le(terms, terms, hit_fn(scorers, doc), idf_fn());
}

pub proof fn lemma_weight_nonneg(scorers: Seq<TermScorer>, terms: Seq<Term>)
    requires
        valid_terms(scorers, terms),
    ensures
        0 <= weight(terms),
{
    lemma_sum_nonneg(terms, idf_fn());
}

/// Terms that do not meet `doc` give it nothing.
pub proof fn lemma_unmet_hits(scorers: Seq<TermScorer>, terms: Seq<Term>, doc: DocId)
    requires
        !met(scorers, terms, doc),
    ensures
        hits(scorers, terms, doc) == 0,
{
    lemma_sum_zero(terms, hit_fn(scorers, doc));
}

/// A term that does not meet `doc` is missing from its score.
pub proof fn lemma_missing_hit(
    scorers: Seq<TermScorer>,
    terms: Seq<Term>,
    k: int,
    doc: DocId,
)
    requires
        valid_terms(scorers, terms),
        0 <= k < terms.len(),
        !scorers[terms[k].index as int].matches(doc),
    ensures
        hits(scorers, terms, doc) <= weight(terms) - terms[k].idf,
{
    let others = terms.remove(k);
    lemma_sum_remove(terms, k, hit_fn(scorers, doc));
    lemma_sum_remove(terms, k, idf_fn());
    assert forall|j: int| 0 <= j < others.len() implies hit_fn(scorers, doc)(#[trigger] others[j])
        <= idf_fn()(others[j]) by {
        if j < k {
            assert(others[j] == terms[j]);
        } else {
            assert(others[j] == terms[j + 1]);
        }
    }
    lemma_sum_le(others, others, hit_fn(scorers, doc), idf_fn());
}

/// The terms of all scorers meet what the scorers meet.
pub proof fn lemma_all_terms(scorers: Seq<TermScorer>)
    requires
        all_ready(scorers),
        scorers.len() <= usize::MAX,
    ensures
        valid_terms(scorers, all_terms(scorers)),
        distinct_terms(all_terms(scorers)),
        forall|d: DocId| #[trigger]
            hits(scorers, all_terms(scorers), d) == sum_by(scorers, term_idf(d)),
        forall|d: DocId| #[trigger] met(scorers, all_terms(scorers), d) == any_matches(scorers, d),
{
    let all = all_terms(scorers);
    assert forall|k: int| 0 <= k < all.len() implies {
        let t = #[trigger] all[k];
        t.index < scorers.len() && t.idf == scorers[t.index as int].list.idf_score && 0 <= t.idf
    } by {
        assert(scorers[k].wf());
    }
    assert forall|d: DocId| #[trigger] hits(scorers, all, d) == sum_by(scorers, term_idf(d)) by {
        lemma_hits_prefix(scorers, d, scorers.len() as int);
        assert(all.take(scorers.len() as int) =~= all);
        assert(scorers.take(scorers.len() as int) =~= scorers);
    }
    assert forall|d: DocId| #[trigger] met(scorers, all, d) == any_matches(scorers, d) by {
        if any_matches(scorers, d) {
            let i = choose|i: int| 0 <= i < scorers.len() && (#[trigger] scorers[i]).matches(d);
            assert(all[i].index == i);
        }
    }
}

proof fn lemma_hits_prefix(scorers: Seq<TermScorer>, d: DocId, n: int)
    requires
        scorers.len() <= usize::MAX,
        0 <= n <= scorers.len(),
    ensures
        sum_by(all_terms(scorers).take(n), hit_fn(scorers, d)) == sum_by(
            scorers.take(n),
            term_idf(d),
        ),
    decreases n,
{
    if n > 0 {
        lemma_hits_prefix(scorers, d, n - 1);
        assert(all_terms(scorers).take(n).drop_last() =~= all_terms(scorers).take(n - 1));
        assert(scorers.take(n).drop_last() =~= scorers.take(n - 1));
        assert(all_terms(scorers).take(n).last().index == n - 1);
    }
}

/// The total weight, over the scorers and over the terms.
pub open spec fn term_weight<'a>() -> spec_fn(TermScorer<'a>) -> int {
    |s: TermScorer<'a>| s.list.idf_score as int
}

pub proof fn lemma_total_weight(scorers: Seq<TermScorer>, n: int)
    requires
        0 <= n <= scorers.len(),
    ensures
        weight(all_terms(scorers).take(n)) == sum_by(scorers.take(n), term_weight()),
    decreases n,
{
    if n > 0 {
        lemma_total_weight(scorers, n - 1);
        assert(all_terms(scorers).take(n).drop_last() =~= all_terms(scorers).take(n - 1));
        assert(scorers.take(n).drop_last() =~= scorers.take(n - 1));
    }
}

/// Reordered terms meet the same documents.
pub proof fn lemma_same_terms(scorers: Seq<TermScorer>, a: Seq<Term>, b: Seq<Term>)
    requires
        a.to_multiset() == b.to_multiset(),
    ensures
        a.len() == b.len(),
        weight(a) == weight(b),
        forall|d: DocId| #[trigger] hits(scorers, a, d) == hits(scorers, b, d),
        forall|d: DocId| #[trigger] met(scorers, a, d) == met(scorers, b, d),
        valid_terms(scorers, a) == valid_terms(scorers, b),
        exhausted(scorers, a) == exhausted(scorers, b),
{
    broadcast use group_to_multiset_ensures;

    assert(a.len() == a.to_multiset().len() && b.len() == b.to_multiset().len());
    lemma_sum_permutation(a, b, idf_fn());
    assert forall|d: DocId| #[trigger] hits(scorers, a, d) == hits(scorers, b, d) by {
        lemma_sum_permutation(a, b, hit_fn(scorers, d));
    }
    assert forall|d: DocId| #[trigger] met(scorers, a, d) == met(scorers, b, d) by {
        if met(scorers, a, d) {
            let i = choose|k: int|
                0 <= k < a.len() && scorers[(#[trigger] a[k]).index as int].matches(d);
            let j = lemma_permutation_member(b, a, i);
        }
        if met(scorers, b, d) {
            let i = choose|k: int|
                0 <= k < b.len() && scorers[(#[trigger] b[k]).index as int].matches(d);
            let j = lemma_permutation_member(a, b, i);
        }
    }
    if valid_terms(scorers, a) {
        assert forall|k: int| 0 <= k < b.len() implies {
            let t = #[trigger] b[k];
            t.index < scorers.len() && t.idf == scorers[t.index as int].list.idf_score && 0 <= t.idf
        } by {
            let j = lemma_permutation_member(a, b, k);
        }
    }
    if valid_terms(scorers, b) {
        assert forall|k: int| 0 <= k < a.len() implies {
            let t = #[trigger] a[k];
            t.index < scorers.len() && t.idf == scorers[t.index as int].list.idf_score && 0 <= t.idf
        } by {
            let j = lemma_permutation_member(b, a, k);
        }
    }
    if exhausted(scorers, a) {
        assert forall|k: int| 0 <= k < b.len() implies scorers[(
        #[trigger] b[k]).index as int].doc() == TERMINATED by {
            let j = lemma_permutation_member(a, b, k);
        }
    }
    if exhausted(scorers, b) {
        assert forall|k: int| 0 <= k < a.len() implies scorers[(
        #[trigger] a[k]).index as int].doc() == TERMINATED by {
            let j = lemma_permutation_member(b, a, k);
        }
    }
}

/// Two lists together.
pub proof fn lemma_joined_terms(scorers: Seq<TermScorer>, a: Seq<Term>, b: Seq<Term>)
    ensures
        weight(a + b) == weight(a) + weight(b),
        forall|d: DocId| #[trigger]
            hits(scorers, a + b, d) == hits(scorers, a, d) + hits(scorers, b, d),
        forall|d: DocId| #[trigger]
            met(scorers, a + b, d) == (met(scorers, a, d) || met(scorers, b, d)),
        valid_terms(scorers, a + b) == (valid_terms(scorers, a) && valid_terms(scorers, b)),
{
    let ab = a + b;
    lemma_sum_append(a, b, idf_fn());
    assert forall|d: DocId| #[trigger]
        hits(scorers, ab, d) == hits(scorers, a, d) + hits(scorers, b, d) by {
        lemma_sum_append(a, b, hit_fn(scorers, d));
    }
    assert forall|d: DocId| #[trigger]
        met(scorers, ab, d) == (met(scorers, a, d) || met(scorers, b, d)) by {
        if met(scorers, ab, d) {
            let i = choose|k: int|
                0 <= k < ab.len() && scorers[(#[trigger] ab[k]).index as int].matches(d);
            if i < a.len() {
                assert(a[i] == ab[i]);
            } else {
                assert(b[i - a.len()] == ab[i]);
            }
        }
        if met(scorers, a, d) {
            let i = choose|k: int|
                0 <= k < a.len() && scorers[(#[trigger] a[k]).index as int].matches(d);
            assert(ab[i] == a[i]);
        }
        if met(scorers, b, d) {
            let i = choose|k: int|
                0 <= k < b.len() && scorers[(#[trigger] b[k]).index as int].matches(d);
            assert(ab[a.len() + i] == b[i]);
        }
    }
    if valid_terms(scorers, ab) {
        assert forall|k: int| 0 <= k < a.len() implies {
            let t = #[trigger] a[k];
            t.index < scorers.len() && t.idf == scorers[t.index as int].list.idf_score && 0 <= t.idf
        } by {
            assert(ab[k] == a[k]);
        }
        assert forall|k: int| 0 <= k < b.len() implies {
            let t = #[trigger] b[k];
            t.index < scorers.len() && t.idf == scorers[t.index as int].list.idf_score && 0 <= t.idf
        } by {
            assert(ab[a.len() + k] == b[k]);
        }
    }
}

/// A list with the terms of a distinct one is distinct.
pub proof fn lemma_distinct_permutation(a: Seq<Term>, b: Seq<Term>)
    requires
        a.to_multiset() == b.to_multiset(),
        distinct_terms(a),
    ensures
        distinct_terms(b),
{
    broadcast use group_to_multiset_ensures;

    assert(a.no_duplicates());
    a.lemma_multiset_has_no_duplicates();
    b.lemma_multiset_has_no_duplicates_conv();
    assert forall|j: int, k: int| 0 <= j < k < b.len() implies (#[trigger] b[j]).index != (
    #[trigger] b[k]).index by {
        let x = lemma_permutation_member(a, b, j);
        let y = lemma_permutation_member(a, b, k);
        if x == y {
            assert(b[j] == b[k]);
        }
        if x < y {
            assert(a[x].index != a[y].index);
        } else if y < x {
            assert(a[y].index != a[x].index);
        }
    }
}

/// What it means to be the parts of all terms.
pub proof fn lemma_parts(
    scorers: Seq<TermScorer>,
    a: Seq<Term>,
    b: Seq<Term>,
    dropped: Seq<Term>,
)
    requires
        all_ready(scorers),
        scorers.len() <= usize::MAX,
        parts_of(scorers, a, b, dropped),
    ensures
        valid_terms(scorers, a),
        valid_terms(scorers, b),
        valid_terms(scorers, dropped),
        distinct_terms(a),
        distinct_terms(b),
        disjoint_terms(a, b),
        0 <= weight(a),
        0 <= weight(b),
        weight(a) + weight(b) <= weight(all_terms(scorers)),
        a.len() + b.len() <= scorers.len(),
{
    let all = all_terms(scorers);
    let ab = a + b;
    let abd = ab + dropped;
    lemma_all_terms(scorers);
    lemma_same_terms(scorers, abd, all);
    lemma_joined_terms(scorers, ab, dropped);
    lemma_joined_terms(scorers, a, b);
    lemma_distinct_permutation(all, abd);
    lemma_weight_nonneg(scorers, a);
    lemma_weight_nonneg(scorers, b);
    lemma_weight_nonneg(scorers, dropped);
    assert forall|j: int, k: int| 0 <= j < k < a.len() implies (#[trigger] a[j]).index != (
    #[trigger] a[k]).index by {
        assert(abd[j] == a[j] && abd[k] == a[k]);
    }
    assert forall|j: int, k: int| 0 <= j < k < b.len() implies (#[trigger] b[j]).index != (
    #[trigger] b[k]).index by {
        assert(abd[a.len() + j] == b[j] && abd[a.len() + k] == b[k]);
    }
    assert forall|j: int, k: int| 0 <= j < a.len() && 0 <= k < b.len() implies (
    #[trigger] a[j]).index != (#[trigger] b[k]).index by {
        assert(abd[j] == a[j] && abd[a.len() + k] == b[k]);
    }
}

/// Exhausted scorers meet nothing.
pub proof fn lemma_exhausted_hits(scorers: Seq<TermScorer>, terms: Seq<Term>)
    requires
        all_ready(scorers),
        valid_terms(scorers, terms),
        exhausted(scorers, terms),
    ensures
        forall|d: DocId| #[trigger] hits(scorers, terms, d) == 0,
        forall|d: DocId| !#[trigger] met(scorers, terms, d),
{
    assert forall|d: DocId| !#[trigger] met(scorers, terms, d) by {
        if met(scorers, terms, d) {
            let k = choose|k: int|
                0 <= k < terms.len() && scorers[(#[trigger] terms[k]).index as int].matches(d);
            scorers[terms[k].index as int].lemma_matches();
        }
    }
    assert forall|d: DocId| #[trigger] hits(scorers, terms, d) == 0 by {
        assert(!met(scorers, terms, d));
        lemma_unmet_hits(scorers, terms, d);
    }
}

/// Moving terms between the parts, and dropping exhausted ones.
pub proof fn lemma_reparted(
    scorers: Seq<TermScorer>,
    a: Seq<Term>,
    b: Seq<Term>,
    dropped: Seq<Term>,
    a2: Seq<Term>,
    b2: Seq<Term>,
    newly: Seq<Term>,
)
    requires
        all_ready(scorers),
        scorers.len() <= usize::MAX,
        parts_of(scorers, a, b, dropped),
        a2.to_multiset().add(b2.to_multiset()).add(newly.to_multiset()) == a.to_multiset().add(
            b.to_multiset(),
        ),
        exhausted(scorers, newly),
    ensures
        parts_of(scorers, a2, b2, dropped + newly),
        forall|d: DocId|
            hits(scorers, a2, d) + hits(scorers, b2, d) == #[trigger] hits(scorers, a, d) + hits(
                scorers,
                b,
                d,
            ),
        forall|d: DocId|
            (met(scorers, a2, d) || met(scorers, b2, d)) == (#[trigger] met(scorers, a, d) || met(
                scorers,
                b,
                d,
            )),
{
    let ab = a + b;
    let abn2 = a2 + b2 + newly;
    lemma_multiset_commutative(a, b);
    lemma_multiset_commutative(a2, b2);
    lemma_multiset_commutative(a2 + b2, newly);
    lemma_multiset_commutative(ab, dropped);
    assert(abn2.to_multiset() == ab.to_multiset());
    lemma_multiset_commutative(dropped, newly);
    lemma_multiset_commutative(a2 + b2, dropped + newly);
    assert((a2 + b2 + (dropped + newly)).to_multiset() =~= (ab + dropped).to_multiset());
    lemma_parts(scorers, a2, b2, dropped + newly);
    lemma_joined_terms(scorers, dropped, newly);
    lemma_same_terms(scorers, abn2, ab);
    lemma_joined_terms(scorers, a, b);
    lemma_joined_terms(scorers, a2, b2);
    lemma_joined_terms(scorers, a2 + b2, newly);
    lemma_exhausted_hits(scorers, newly);
    assert forall|d: DocId|
        hits(scorers, a2, d) + hits(scorers, b2, d) == #[trigger] hits(scorers, a, d) + hits(
            scorers,
            b,
            d,
        ) by {
        assert(hits(scorers, abn2, d) == hits(scorers, ab, d));
        assert(hits(scorers, abn2, d) == hits(scorers, a2 + b2, d) + hits(scorers, newly, d));
        assert(hits(scorers, a2 + b2, d) == hits(scorers, a2, d) + hits(scorers, b2, d));
        assert(hits(scorers, ab, d) == hits(scorers, a, d) + hits(scorers, b, d));
    }
    assert forall|d: DocId|
        (met(scorers, a2, d) || met(scorers, b2, d)) == (#[trigger] met(scorers, a, d) || met(
            scorers,
            b,
            d,
        )) by {
        assert(met(scorers, abn2, d) == met(scorers, ab, d));
        assert(met(scorers, abn2, d) == (met(scorers, a2 + b2, d) || met(scorers, newly, d)));
        assert(met(scorers, a2 + b2, d) == (met(scorers, a2, d) || met(scorers, b2, d)));
        assert(met(scorers, ab, d) == (met(scorers, a, d) || met(scorers, b, d)));
    }
}

/// A scorer does not move back.
pub proof fn lemma_stand_stepped(
    a: Seq<TermScorer>,
    b: Seq<TermScorer>,
    terms: Seq<Term>,
    from: DocId,
    doc: int,
)
    requires
        all_ready(a),
        stepped(a, b, from),
        valid_terms(a, terms),
    ensures
        all_ready(b),
        stand_from(a, terms, doc) ==> stand_from(b, terms, doc),
        exhausted(a, terms) ==> exhausted(b, terms),
{
    assert forall|i: int| 0 <= i < a.len() implies (#[trigger] b[i]).doc() >= a[i].doc()
        && b[i].doc() <= TERMINATED by {
        assert(term_moved(a[i], b[i], from));
        a[i].lemma_matches();
        b[i].lemma_matches();
    }
    assert forall|i: int| 0 <= i < b.len() implies (#[trigger] b[i]).wf() && b[i].is_loaded() by {
        assert(term_moved(a[i], b[i], from));
    }
    assert forall|k: int| 0 <= k < terms.len() implies b[(
    #[trigger] terms[k]).index as int].doc() >= a[terms[k].index as int].doc() by {}
    if exhausted(a, terms) {
        assert forall|k: int| 0 <= k < terms.len() implies b[(
        #[trigger] terms[k]).index as int].doc() == TERMINATED by {
            assert(b[terms[k].index as int].doc() <= TERMINATED);
        }
    }
}

/// Where the terms stand at `doc` or later, those that meet `doc` stand on it.
pub proof fn lemma_standing_match(scorer: TermScorer, doc: DocId)
    requires
        scorer.wf(),
        doc <= scorer.doc(),
        doc < TERMINATED,
    ensures
        scorer.matches(doc) == (scorer.doc() == doc),
{
    scorer.lemma_matches();
}

/// Terms of scorers are terms of the scorers before they were moved.
pub proof fn lemma_listed_terms(a: Seq<TermScorer>, b: Seq<TermScorer>, terms: Seq<Term>)
    requires
        b.len() == a.len(),
        all_terms(a) == all_terms(b),
        valid_terms(b, terms),
    ensures
        valid_terms(a, terms),
{
    assert forall|k: int| 0 <= k < terms.len() implies (#[trigger] terms[k]).index < a.len()
        && terms[k].idf == a[terms[k].index as int].list.idf_score by {
        let i = terms[k].index as int;
        assert(all_terms(a)[i] == all_terms(b)[i]);
        assert(all_terms(a)[i].idf == a[i].list.idf_score);
        assert(all_terms(b)[i].idf == b[i].list.idf_score);
    }
}

} // verus!
