//! The lightest and the heaviest of a list of terms.
use vstd::prelude::*;
use vstd::relations::{sorted_by, total_ordering};
use vstd::seq_lib::{group_to_multiset_ensures, lemma_sorted_unique};

use crate::idf_terms::{idf_fn, weight, Term};
use crate::sorting::sorted_by_key;
use crate::sums::{
    count_by, lemma_map_permutation, lemma_sum_le, lemma_sum_split, lemma_sum_zero, sum_by,
};
use crate::types::Score;

verus! {

/// The weights of `terms`.
pub open spec fn idf_values(terms: Seq<Term>) -> Seq<int> {
    terms.map_values(idf_fn())
}

pub open spec fn at_most() -> spec_fn(int, int) -> bool {
    |x: int, y: int| x <= y
}

/// `values` in ascending order.
pub open spec fn ascending(values: Seq<int>) -> Seq<int> {
    values.sort_by(at_most())
}

pub open spec fn value_fn() -> spec_fn(int) -> int {
    |x: int| x
}

/// The sum of the `m` largest of `values`.
pub open spec fn top_sum(values: Seq<int>, m: int) -> int {
    sum_by(ascending(values).skip(values.len() - m), value_fn())
}

/// The sum of the `m` smallest of `values`.
pub open spec fn bottom_sum(values: Seq<int>, m: int) -> int {
    sum_by(ascending(values).take(m), value_fn())
}

/// `m` is the smallest number of `values` whose largest sum, on top of `base`, exceeds the
/// threshold; all of them if no number does.
pub open spec fn is_min_matches(values: Seq<int>, base: int, threshold: Score, m: int) -> bool {
    &&& 0 <= m <= values.len()
    &&& forall|j: int| 0 <= j < m ==> base + #[trigger] top_sum(values, j) <= threshold
    &&& m < values.len() ==> base + top_sum(values, m) > threshold
}

/// The prefix sums of `values` stay within the threshold up to `split`, and exceed it after one
/// more.
pub open spec fn is_prefix_split(values: Seq<int>, threshold: Score, split: int) -> bool {
    &&& 0 <= split <= values.len()
    &&& forall|j: int|
        1 <= j <= split ==> sum_by(#[trigger] values.take(j), value_fn()) <= threshold
    &&& split < values.len() ==> sum_by(values.take(split + 1), value_fn()) > threshold
}

pub proof fn lemma_values_sum(terms: Seq<Term>)
    ensures
        sum_by(idf_values(terms), value_fn()) == weight(terms),
    decreases terms.len(),
{
    if terms.len() > 0 {
        lemma_values_sum(terms.drop_last());
        assert(idf_values(terms).drop_last() =~= idf_values(terms.drop_last()));
    }
}

/// Sorted terms have the weights in ascending order.
pub proof fn lemma_sorted_terms(terms: Seq<Term>, sorted: Seq<Term>)
    requires
        sorted.to_multiset() == terms.to_multiset(),
        sorted_by_key(sorted, idf_fn()),
    ensures
        idf_values(sorted) == ascending(idf_values(terms)),
        sorted.len() == terms.len(),
{
    broadcast use group_to_multiset_ensures;

    assert(sorted.len() == sorted.to_multiset().len() && terms.len()
        == terms.to_multiset().len());
    let values = idf_values(terms);
    assert(total_ordering(at_most()));
    values.lemma_sort_by_ensures(at_most());
    lemma_map_permutation(sorted, terms, idf_fn());
    let own = idf_values(sorted);
    assert forall|i: int, j: int| 0 <= i < j < own.len() implies #[trigger] at_most()(
        own[i],
        own[j],
    ) by {
        assert(idf_fn()(sorted[i]) <= idf_fn()(sorted[j]));
    }
    assert(sorted_by(own, at_most()));
    lemma_sorted_unique(own, ascending(values), at_most());
}

/// The end of a sorted list holds the heaviest terms, and the start the lightest.
pub proof fn lemma_sorted_sums(terms: Seq<Term>, sorted: Seq<Term>, i: int)
    requires
        sorted.to_multiset() == terms.to_multiset(),
        sorted_by_key(sorted, idf_fn()),
        0 <= i <= sorted.len(),
    ensures
        sorted.len() == terms.len(),
        weight(sorted.skip(i)) == top_sum(idf_values(terms), terms.len() - i),
        weight(sorted.take(i)) == bottom_sum(idf_values(terms), i),
{
    lemma_sorted_terms(terms, sorted);
    let own = idf_values(sorted);
    assert(own.skip(i) =~= idf_values(sorted.skip(i)));
    assert(own.take(i) =~= idf_values(sorted.take(i)));
    lemma_values_sum(sorted.skip(i));
    lemma_values_sum(sorted.take(i));
}

/// What the picked `terms` weigh.
pub open spec fn picked_idf_fn(pick: spec_fn(Term) -> bool) -> spec_fn(Term) -> int {
    |t: Term|
        if pick(t) {
            t.idf as int
        } else {
            0
        }
}

spec fn picked_flat_fn(pick: spec_fn(Term) -> bool, x: int) -> spec_fn(Term) -> int {
    |t: Term|
        if pick(t) {
            x
        } else {
            0
        }
}

spec fn excess_fn(x: int) -> spec_fn(Term) -> int {
    |t: Term|
        if t.idf > x {
            t.idf - x
        } else {
            0
        }
}

spec fn capped_fn(pick: spec_fn(Term) -> bool, x: int) -> spec_fn(Term) -> int {
    |t: Term| picked_flat_fn(pick, x)(t) + excess_fn(x)(t)
}

proof fn lemma_flat_sum(s: Seq<Term>, pick: spec_fn(Term) -> bool, x: int)
    ensures
        sum_by(s, picked_flat_fn(pick, x)) == x * count_by(s, pick),
    decreases s.len(),
{
    if s.len() > 0 {
        lemma_flat_sum(s.drop_last(), pick, x);
        let n = count_by(s.drop_last(), pick);
        assert(x * (n + 1) == x * n + x) by (nonlinear_arith);
    } else {
        assert(x * 0 == 0);
    }
}

proof fn lemma_capped_sum(s: Seq<Term>, pick: spec_fn(Term) -> bool, x: int)
    ensures
        sum_by(s, capped_fn(pick, x)) == sum_by(s, picked_flat_fn(pick, x)) + sum_by(
            s,
            excess_fn(x),
        ),
    decreases s.len(),
{
    if s.len() > 0 {
        lemma_capped_sum(s.drop_last(), pick, x);
    }
}

proof fn lemma_excess_sum(s: Seq<Term>, x: int)
    requires
        forall|k: int| 0 <= k < s.len() ==> (#[trigger] s[k]).idf >= x,
    ensures
        sum_by(s, excess_fn(x)) == weight(s) - x * s.len(),
    decreases s.len(),
{
    if s.len() > 0 {
        let shorter = s.drop_last();
        assert forall|k: int| 0 <= k < shorter.len() implies (#[trigger] shorter[k]).idf >= x by {
            assert(shorter[k] == s[k]);
        }
        lemma_excess_sum(shorter, x);
        let n = shorter.len() as int;
        assert(s[s.len() - 1].idf >= x);
        assert(x * (n + 1) == x * n + x) by (nonlinear_arith);
    } else {
        assert(x * 0 == 0);
    }
}

/// Any `m` terms weigh at most as much as the `m` heaviest.
pub proof fn lemma_picked_bound(sorted: Seq<Term>, pick: spec_fn(Term) -> bool, m: int)
    requires
        sorted_by_key(sorted, idf_fn()),
        forall|k: int| 0 <= k < sorted.len() ==> 0 <= (#[trigger] sorted[k]).idf,
        1 <= m <= sorted.len(),
        count_by(sorted, pick) <= m,
    ensures
        sum_by(sorted, picked_idf_fn(pick)) <= weight(sorted.skip(sorted.len() - m)),
{
    let cut = sorted.len() - m;
    let x = sorted[cut].idf as int;
    let low = sorted.take(cut);
    let high = sorted.skip(cut);
    let count = count_by(sorted, pick);
    lemma_sum_le(sorted, sorted, picked_idf_fn(pick), capped_fn(pick, x));
    lemma_capped_sum(sorted, pick, x);
    lemma_flat_sum(sorted, pick, x);
    lemma_sum_split(sorted, cut, excess_fn(x));
    assert forall|k: int| 0 <= k < low.len() implies excess_fn(x)(#[trigger] low[k]) == 0 by {
        assert(low[k] == sorted[k]);
        assert(idf_fn()(sorted[k]) <= idf_fn()(sorted[cut]));
    }
    lemma_sum_zero(low, excess_fn(x));
    assert forall|k: int| 0 <= k < high.len() implies (#[trigger] high[k]).idf >= x by {
        assert(high[k] == sorted[cut + k]);
        assert(idf_fn()(sorted[cut]) <= idf_fn()(sorted[cut + k]));
    }
    lemma_excess_sum(high, x);
    assert(x * count <= x * m) by (nonlinear_arith)
        requires
            0 <= x,
            count <= m,
    ;
}

spec fn lighter() -> spec_fn(Term, Term) -> bool {
    |a: Term, b: Term| a.idf < b.idf || (a.idf == b.idf && a.index <= b.index)
}

/// Every list can be sorted.
pub proof fn lemma_sorted_copy(terms: Seq<Term>) -> (sorted: Seq<Term>)
    ensures
        sorted.to_multiset() == terms.to_multiset(),
        sorted_by_key(sorted, idf_fn()),
{
    assert(total_ordering(lighter()));
    terms.lemma_sort_by_ensures(lighter());
    let sorted = terms.sort_by(lighter());
    assert forall|i: int, j: int| 0 <= i <= j < sorted.len() implies idf_fn()(#[trigger] sorted[i])
        <= idf_fn()(#[trigger] sorted[j]) by {
        if i < j {
            assert(lighter()(sorted[i], sorted[j]));
        }
    }
    sorted
}

} // verus!
