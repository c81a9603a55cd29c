//! Lists of terms: splitting them, and moving terms between them.
use vstd::prelude::*;
use vstd::seq_lib::{group_to_multiset_ensures, lemma_multiset_commutative};

use crate::demotion::{
    is_lightest, item_fn, placed_key_fn, places_by_key, swap_out, take_first_places,
};
use crate::idf_ranks::{
    bottom_sum, idf_values, is_min_matches, is_prefix_split, lemma_sorted_copy, lemma_sorted_sums,
    lemma_values_sum, top_sum, value_fn,
};
use crate::idf_terms::{all_terms, idf_fn, weight, Term};
use crate::scorer_set::lemma_permutation_member;
use crate::sorting::{same_ties, sort_by_key, sorted_by_key};
use crate::sums::{
    lemma_sum_nonneg, lemma_sum_permutation, lemma_sum_split, lemma_sum_take, lemma_sum_take_le,
    lemma_swap_removed_same, sum_by,
};
use crate::term_scorer::TermScorer;
use crate::types::Score;

verus! {

/// No weight is negative, and their sum is a score.
pub open spec fn summable(terms: Seq<Term>) -> bool {
    &&& forall|k: int| 0 <= k < terms.len() ==> 0 <= (#[trigger] terms[k]).idf
    &&& weight(terms) <= Score::MAX
}

pub(crate) fn idf_key(term: &Term) -> (key: i128)
    ensures
        key == idf_fn()(*term),
{
    term.idf as i128
}

/// One term more in a prefix.
pub proof fn lemma_prefix_step(terms: Seq<Term>, i: int)
    requires
        0 <= i <= terms.len(),
    ensures
        weight(terms.take(i)) == sum_by(idf_values(terms).take(i), value_fn()),
        i < terms.len() ==> weight(terms.take(i + 1)) == weight(terms.take(i)) + terms[i].idf,
{
    if i < terms.len() {
        lemma_sum_take(terms, i, idf_fn());
    }
    lemma_values_sum(terms.take(i));
    assert(idf_values(terms).take(i) =~= idf_values(terms.take(i)));
}

/// The prefix sums of summable weights are scores.
pub proof fn lemma_prefix_weight(terms: Seq<Term>, i: int)
    requires
        summable(terms),
        0 <= i <= terms.len(),
    ensures
        0 <= weight(terms.take(i)) <= weight(terms) <= Score::MAX,
        i < terms.len() ==> weight(terms.take(i + 1)) == weight(terms.take(i)) + terms[i].idf,
{
    assert forall|n: int| 0 <= n < terms.len() implies 0 <= idf_fn()(#[trigger] terms[n]) by {}
    lemma_sum_take_le(terms, i, terms.len() as int, idf_fn());
    assert(terms.take(terms.len() as int) =~= terms);
    lemma_prefix_step(terms, i);
}

/// The sums of the lightest terms of weights that are not negative are not negative.
pub proof fn lemma_bottom_nonneg(terms: Seq<Term>, j: int)
    requires
        forall|k: int| 0 <= k < terms.len() ==> 0 <= (#[trigger] terms[k]).idf,
        0 <= j <= terms.len(),
    ensures
        0 <= bottom_sum(idf_values(terms), j),
{
    let sorted = lemma_sorted_copy(terms);
    lemma_sorted_sums(terms, sorted, 0);
    lemma_sorted_sums(terms, sorted, j);
    let part = sorted.take(j);
    assert forall|k: int| 0 <= k < part.len() implies 0 <= idf_fn()(#[trigger] part[k]) by {
        assert(part[k] == sorted[k]);
        let i = lemma_permutation_member(terms, sorted, k);
    }
    lemma_sum_nonneg(part, idf_fn());
}

/// Returns the index where the prefix sum of the weights first exceeds the threshold.
///
/// On terms in ascending order of weight, those before the split are non-essential and those from
/// the split on are essential.
pub fn prefix_sum_split(terms: &Vec<Term>, threshold: Score) -> (split: usize)
    ensures
        is_prefix_split(idf_values(terms@), threshold, split as int),
{
    let ghost values = idf_values(terms@);
    let len: usize = terms.len();
    let mut sum: i128 = 0;
    let mut i: usize = 0;
    while i < len
        invariant
            i <= len == terms@.len(),
            values == idf_values(terms@),
            sum == weight(terms@.take(i as int)),
            -(i * 0x8000_0000_0000_0000) <= sum <= i * 0x8000_0000_0000_0000,
            forall|j: int| 1 <= j <= i ==> sum_by(#[trigger] values.take(j), value_fn()) <= threshold,
        decreases len - i,
    {
        proof {
            lemma_prefix_step(terms@, i as int);
            lemma_prefix_step(terms@, i + 1);
        }
        sum = sum + terms[i].idf as i128;
        if sum > threshold as i128 {
            return i;
        }
        i = i + 1;
    }
    i
}

/// A term that every document above the threshold contains.
pub open spec fn absolutely_essential(total_idf: int, threshold: Score) -> spec_fn(Term) -> bool {
    |t: Term| t.idf > total_idf - threshold
}

pub open spec fn dispensable(total_idf: int, threshold: Score) -> spec_fn(Term) -> bool {
    |t: Term| t.idf <= total_idf - threshold
}

/// Partitions terms into absolutely essential ones and the rest.
///
/// A term is absolutely essential if its weight is more than the total weight less the threshold.
pub fn partition_absolutely_essential(
    terms: &Vec<Term>,
    total_idf: Score,
    threshold: Score,
) -> (parts: (Vec<Term>, Vec<Term>))
    ensures
        parts.0@ == terms@.filter(absolutely_essential(total_idf as int, threshold)),
        parts.1@ == terms@.filter(dispensable(total_idf as int, threshold)),
{
    let ghost essential = absolutely_essential(total_idf as int, threshold);
    let ghost other = dispensable(total_idf as int, threshold);
    let cutoff: i128 = total_idf as i128 - threshold as i128;
    let mut abs: Vec<Term> = Vec::new();
    let mut rest: Vec<Term> = Vec::new();
    let mut i: usize = 0;
    proof {
        reveal(Seq::filter);
        assert(terms@.take(0).filter(essential) =~= Seq::empty());
        assert(terms@.take(0).filter(other) =~= Seq::empty());
    }
    while i < terms.len()
        invariant
            i <= terms@.len(),
            cutoff == total_idf - threshold,
            essential == absolutely_essential(total_idf as int, threshold),
            other == dispensable(total_idf as int, threshold),
            abs@ == terms@.take(i as int).filter(essential),
            rest@ == terms@.take(i as int).filter(other),
        decreases terms@.len() - i,
    {
        proof {
            reveal(Seq::filter);
            assert(terms@.take(i + 1).drop_last() =~= terms@.take(i as int));
        }
        let term: Term = terms[i];
        if term.idf as i128 > cutoff {
            abs.push(term);
        } else {
            rest.push(term);
        }
        i = i + 1;
    }
    proof {
        assert(terms@.take(i as int) =~= terms@);
    }
    (abs, rest)
}

/// Computes the smallest number of essential terms that a document must contain to exceed the
/// threshold.
///
/// With `m` essential terms a document scores at most the `m` largest weights and the weight of
/// all non-essential terms.
pub fn compute_min_essential_matches(
    essential: &Vec<Term>,
    non_essential_idf_sum: Score,
    threshold: Score,
) -> (m: usize)
    ensures
        is_min_matches(
            idf_values(essential@),
            non_essential_idf_sum as int,
            threshold,
            m as int,
        ),
{
    let ghost values = idf_values(essential@);
    let mut sorted: Vec<Term> = copied(essential);
    sort_by_key(&mut sorted, idf_key, Ghost(idf_fn()));
    let len: usize = sorted.len();
    let mut cumulative: i128 = non_essential_idf_sum as i128;
    let mut i: usize = 0;
    proof {
        assert(sorted@.skip(len as int) =~= Seq::empty());
        lemma_sorted_sums(essential@, sorted@, len as int);
    }
    while i < len && cumulative <= threshold as i128
        invariant
            i <= len == sorted@.len(),
            len == essential@.len(),
            values == idf_values(essential@),
            sorted@.to_multiset() == essential@.to_multiset(),
            sorted_by_key(sorted@, idf_fn()),
            cumulative == non_essential_idf_sum + weight(sorted@.skip(len - i)),
            cumulative == non_essential_idf_sum + top_sum(values, i as int),
            -((i + 1) * 0x8000_0000_0000_0000) <= cumulative,
            cumulative <= (i + 1) * 0x8000_0000_0000_0000,
            forall|j: int|
                0 <= j < i ==> non_essential_idf_sum + #[trigger] top_sum(values, j) <= threshold,
        decreases len - i,
    {
        proof {
            let cut = len - i - 1;
            lemma_prefix_step(sorted@, cut);
            lemma_sum_split(sorted@, cut, idf_fn());
            lemma_sum_split(sorted@, cut + 1, idf_fn());
            lemma_sorted_sums(essential@, sorted@, cut);
        }
        cumulative = cumulative + sorted[len - 1 - i].idf as i128;
        i = i + 1;
    }
    i
}

/// A copy of `terms`.
pub(crate) fn copied(terms: &Vec<Term>) -> (copy: Vec<Term>)
    ensures
        copy@ == terms@,
{
    let mut copy: Vec<Term> = Vec::new();
    let mut i: usize = 0;
    while i < terms.len()
        invariant
            i <= terms@.len(),
            copy@ == terms@.take(i as int),
        decreases terms@.len() - i,
    {
        copy.push(terms[i]);
        i = i + 1;
    }
    copy
}

/// The terms that a list keeps and those that it gives up are all its terms.
pub proof fn lemma_filter_parts(
    terms: Seq<Term>,
    kept: spec_fn(Term) -> bool,
    given_up: spec_fn(Term) -> bool,
)
    requires
        forall|t: Term| #[trigger] kept(t) == !given_up(t),
    ensures
        terms.filter(kept).to_multiset().add(terms.filter(given_up).to_multiset())
            == terms.to_multiset(),
    decreases terms.len(),
{
    broadcast use group_to_multiset_ensures;

    reveal(Seq::filter);
    if terms.len() > 0 {
        let t = terms.last();
        lemma_filter_parts(terms.drop_last(), kept, given_up);
        assert(terms =~= terms.drop_last().push(t));
        assert(kept(t) == !given_up(t));
        assert(terms.filter(kept).to_multiset().add(terms.filter(given_up).to_multiset())
            =~= terms.drop_last().to_multiset().insert(t));
    } else {
        assert(terms.filter(kept).to_multiset().add(terms.filter(given_up).to_multiset())
            =~= terms.to_multiset());
    }
}

/// How many of `values`, from the smallest on, fit under the threshold on top of `base`.
pub open spec fn is_demotion(values: Seq<int>, base: int, threshold: Score, count: int) -> bool {
    &&& 0 <= count <= values.len()
    &&& forall|j: int| 1 <= j <= count ==> base + #[trigger] bottom_sum(values, j) <= threshold
    &&& count < values.len() ==> base + bottom_sum(values, count + 1) > threshold
}

/// The terms `demoted` went from `e` to `n`, which are then `e2` and `n2`. None of them is heavier
/// than a term that stays.
pub open spec fn demotes(
    e: Seq<Term>,
    n: Seq<Term>,
    e2: Seq<Term>,
    n2: Seq<Term>,
    demoted: Seq<Term>,
) -> bool {
    &&& e2.to_multiset().add(demoted.to_multiset()) == e.to_multiset()
    &&& n.to_multiset().add(demoted.to_multiset()) == n2.to_multiset()
    &&& forall|i: int, j: int|
        0 <= i < demoted.len() && 0 <= j < e2.len() ==> (#[trigger] demoted[i]).idf <= (
        #[trigger] e2[j]).idf
}

fn placed_idf_key(placed: &(usize, Term)) -> (key: i128)
    ensures
        key == placed_key_fn(idf_fn())(*placed),
{
    placed.1.idf as i128
}

/// Demotes the lightest essential terms as long as they fit under the threshold together with the
/// non-essential ones.
pub fn rebalance(
    essential: &mut Vec<Term>,
    non_essential: &mut Vec<Term>,
    non_essential_idf_sum: &mut Score,
    threshold: Score,
)
    requires
        forall|j: int|
            0 <= j <= old(essential)@.len() ==> *old(non_essential_idf_sum) + #[trigger] bottom_sum(
                idf_values(old(essential)@),
                j,
            ) >= Score::MIN,
    ensures
        is_demotion(
            idf_values(old(essential)@),
            *old(non_essential_idf_sum) as int,
            threshold,
            old(essential)@.len() - final(essential)@.len(),
        ),
        *final(non_essential_idf_sum) == *old(non_essential_idf_sum) + bottom_sum(
            idf_values(old(essential)@),
            old(essential)@.len() - final(essential)@.len(),
        ),
        exists|demoted: Seq<Term>| #[trigger]
            demotes(
                old(essential)@,
                old(non_essential)@,
                final(essential)@,
                final(non_essential)@,
                demoted,
            ),
        exists|places: Seq<usize>| #[trigger]
            is_lightest(old(essential)@, places, idf_fn()) && places.len() == old(essential)@.len() - final(essential)@.len() && final(essential)@ == swap_out(old(essential)@, places).0
                && same_ties(
                old(non_essential)@ + swap_out(old(essential)@, places).1,
                final(non_essential)@,
                idf_fn(),
            ),
        final(essential)@.len() == old(essential)@.len() ==> *final(essential) == *old(essential)
            && *final(non_essential) == *old(non_essential),
        final(essential)@.len() < old(essential)@.len() ==> sorted_by_key(
            final(non_essential)@,
            idf_fn(),
        ),
        forall|i: int|
            0 <= i < final(essential)@.len() ==> *final(non_essential_idf_sum) + (
            #[trigger] final(essential)@[i]).idf > threshold,
{
    let ghost e = essential@;
    let ghost n = non_essential@;
    let ghost values = idf_values(e);
    let order: Vec<(usize, Term)> = places_by_key(essential, placed_idf_key, Ghost(idf_fn()));
    let ghost sorted = order@.map_values(item_fn());
    let len: usize = order.len();
    let base: Score = *non_essential_idf_sum;
    let mut running: Score = base;
    let mut count: usize = 0;
    proof {
        lemma_sorted_sums(e, sorted, 0);
        assert(sorted.take(0) =~= Seq::empty());
        if len > 0 {
            lemma_prefix_step(sorted, 0);
            lemma_sorted_sums(e, sorted, 1);
            assert(sorted[0] == order@[0].1);
        }
    }
    while count < len && running as i128 + order[count].1.idf as i128 <= threshold as i128
        invariant
            count <= len == sorted.len(),
            len == e.len(),
            sorted == order@.map_values(item_fn()),
            values == idf_values(e),
            sorted.to_multiset() == e.to_multiset(),
            sorted_by_key(sorted, idf_fn()),
            forall|j: int|
                0 <= j <= e.len() ==> base + #[trigger] bottom_sum(values, j) >= Score::MIN,
            running == base + weight(sorted.take(count as int)),
            running == base + bottom_sum(values, count as int),
            count < len ==> sorted[count as int] == order@[count as int].1,
            count < len ==> running + sorted[count as int].idf == base + bottom_sum(
                values,
                count + 1,
            ),
            forall|j: int| 1 <= j <= count ==> base + #[trigger] bottom_sum(values, j) <= threshold,
        decreases len - count,
    {
        proof {
            assert(base + bottom_sum(values, count + 1) >= Score::MIN);
        }
        running = running + order[count].1.idf;
        count = count + 1;
        proof {
            lemma_sorted_sums(e, sorted, count as int);
            if count < len {
                lemma_prefix_step(sorted, count as int);
                lemma_sorted_sums(e, sorted, count + 1);
            }
        }
    }
    proof {
        assert forall|j: int| count <= j < len implies running + (#[trigger] sorted[j]).idf
            > threshold by {
            assert(idf_fn()(sorted[count as int]) <= idf_fn()(sorted[j]));
        }
    }
    if count == 0 {
        proof {
            broadcast use group_to_multiset_ensures;

            let none: Seq<Term> = Seq::empty();
            assert(e.to_multiset().add(none.to_multiset()) =~= e.to_multiset());
            assert(n.to_multiset().add(none.to_multiset()) =~= n.to_multiset());
            assert(demotes(e, n, e, n, none));
            let nowhere: Seq<usize> = Seq::empty();
            assert(is_lightest(e, nowhere, idf_fn()));
            assert(n + swap_out(e, nowhere).1 =~= n);
            assert forall|i: int| 0 <= i < e.len() implies running + (#[trigger] e[i]).idf
                > threshold by {
                let j = lemma_permutation_member(sorted, e, i);
            }
        }
        return ;
    }
    let mut demoted: Vec<Term> = take_first_places(essential, &order, count, Ghost(idf_fn()));
    let ghost moved_over = demoted@;
    non_essential.append(&mut demoted);
    let ghost joined = non_essential@;
    sort_by_key(non_essential, idf_key, Ghost(idf_fn()));
    *non_essential_idf_sum = running;
    proof {
        assert(joined =~= n + moved_over);
        lemma_multiset_commutative(n, moved_over);
        assert forall|i: int, j: int|
            0 <= i < moved_over.len() && 0 <= j < essential@.len() implies (
        #[trigger] moved_over[i]).idf <= (#[trigger] essential@[j]).idf by {
            assert(idf_fn()(moved_over[i]) <= idf_fn()(essential@[j]));
        }
        assert(demotes(e, n, essential@, non_essential@, moved_over));
        let places = choose|places: Seq<usize>| #[trigger]
            is_lightest(e, places, idf_fn()) && places.len() == count && (
                essential@,
                moved_over,
            ) == swap_out(e, places);
        assert(swap_out(e, places).1 == moved_over);
        assert(is_lightest(e, places, idf_fn()));
        let kept = sorted.skip(count as int);
        assert forall|i: int| 0 <= i < essential@.len() implies running + (
        #[trigger] essential@[i]).idf > threshold by {
            let j = lemma_permutation_member(kept, essential@, i);
            assert(kept[j] == sorted[count + j]);
        }
    }
}

/// What is demoted are the lightest terms: in sorted order they come first.
pub proof fn lemma_demoted(
    e: Seq<Term>,
    n: Seq<Term>,
    e2: Seq<Term>,
    n2: Seq<Term>,
    demoted: Seq<Term>,
) -> (parts: (Seq<Term>, Seq<Term>))
    requires
        demotes(e, n, e2, n2, demoted),
    ensures
        demoted.len() == e.len() - e2.len(),
        parts.0.len() == demoted.len(),
        parts.1.len() == e2.len(),
        parts.1.to_multiset() == e2.to_multiset(),
        (parts.0 + parts.1).to_multiset() == e.to_multiset(),
        sorted_by_key(parts.0 + parts.1, idf_fn()),
        sorted_by_key(parts.1, idf_fn()),
        weight(demoted) == bottom_sum(idf_values(e), demoted.len() as int),
{
    broadcast use group_to_multiset_ensures;

    let low = lemma_sorted_copy(demoted);
    let high = lemma_sorted_copy(e2);
    let whole = low + high;
    assert(low.len() == low.to_multiset().len() && demoted.len() == demoted.to_multiset().len());
    assert(high.len() == high.to_multiset().len() && e2.len() == e2.to_multiset().len());
    assert(e.len() == e.to_multiset().len());
    lemma_multiset_commutative(low, high);
    assert(whole.to_multiset() =~= e.to_multiset());
    let c = low.len() as int;
    assert forall|i: int, j: int| 0 <= i <= j < whole.len() implies idf_fn()(#[trigger] whole[i])
        <= idf_fn()(#[trigger] whole[j]) by {
        if j < c {
            assert(idf_fn()(low[i]) <= idf_fn()(low[j]));
        } else if i >= c {
            assert(idf_fn()(high[i - c]) <= idf_fn()(high[j - c]));
        } else {
            let a = lemma_permutation_member(demoted, low, i);
            let b = lemma_permutation_member(e2, high, j - c);
            assert(demoted[a].idf <= e2[b].idf);
        }
    }
    lemma_sorted_sums(e, whole, c);
    assert(whole.take(c) =~= low);
    lemma_sum_permutation(low, demoted, idf_fn());
    (low, high)
}

/// Once the terms are balanced, they stay so: no term that is left fits under the threshold, so a
/// second time nothing is demoted. No term is lost, and none that moved is heavier than one that
/// stayed.
pub proof fn law_rebalance_settles(
    e: Seq<Term>,
    n: Seq<Term>,
    base: int,
    threshold: Score,
    e2: Seq<Term>,
    n2: Seq<Term>,
    demoted: Seq<Term>,
    again: int,
)
    requires
        demotes(e, n, e2, n2, demoted),
        is_demotion(idf_values(e), base, threshold, e.len() - e2.len()),
        is_demotion(
            idf_values(e2),
            base + bottom_sum(idf_values(e), e.len() - e2.len()),
            threshold,
            again,
        ),
    ensures
        e2.to_multiset().add(n2.to_multiset()) == e.to_multiset().add(n.to_multiset()),
        forall|i: int, j: int|
            0 <= i < demoted.len() && 0 <= j < e2.len() ==> (#[trigger] demoted[i]).idf <= (
            #[trigger] e2[j]).idf,
        forall|i: int|
            0 <= i < e2.len() ==> base + bottom_sum(idf_values(e), e.len() - e2.len()) + (
            #[trigger] e2[i]).idf > threshold,
        again == 0,
{
    let parts = lemma_demoted(e, n, e2, n2, demoted);
    let whole = parts.0 + parts.1;
    let high = parts.1;
    let c = demoted.len() as int;
    assert(e2.to_multiset().add(n2.to_multiset()) =~= e.to_multiset().add(n.to_multiset()));
    if e2.len() > 0 {
        lemma_sorted_sums(e, whole, c);
        lemma_sorted_sums(e, whole, c + 1);
        lemma_sorted_sums(e2, high, 0);
        lemma_sorted_sums(e2, high, 1);
        lemma_sum_take(whole, c, idf_fn());
        lemma_sum_take(high, 0, idf_fn());
        assert(high.take(0) =~= Seq::empty());
        assert(whole[c] == high[0]);
        assert forall|i: int| 0 <= i < e2.len() implies base + bottom_sum(
            idf_values(e),
            e.len() - e2.len(),
        ) + (#[trigger] e2[i]).idf > threshold by {
            let j = lemma_permutation_member(high, e2, i);
            assert(idf_fn()(high[0]) <= idf_fn()(high[j]));
        }
    }
}

/// What is promoted of `remaining` from place `i` on, in that order, and what is left: a promoted
/// term is replaced by the last one.
pub open spec fn promotion(
    remaining: Seq<Term>,
    i: int,
    heavy: spec_fn(Term) -> bool,
) -> (Seq<Term>, Seq<Term>)
    decreases remaining.len() - i,
{
    if i < 0 || i >= remaining.len() {
        (Seq::empty(), remaining)
    } else if heavy(remaining[i]) {
        let rest = promotion(remaining.update(i, remaining.last()).drop_last(), i, heavy);
        (seq![remaining[i]] + rest.0, rest.1)
    } else {
        promotion(remaining, i + 1, heavy)
    }
}

/// Promotion parts the terms.
pub proof fn lemma_promotion(remaining: Seq<Term>, i: int, heavy: spec_fn(Term) -> bool)
    requires
        0 <= i <= remaining.len(),
        forall|k: int| 0 <= k < i ==> !heavy(#[trigger] remaining[k]),
    ensures
        promotion(remaining, i, heavy).0.to_multiset().add(
            promotion(remaining, i, heavy).1.to_multiset(),
        ) == remaining.to_multiset(),
        forall|k: int|
            0 <= k < promotion(remaining, i, heavy).0.len() ==> heavy(
                #[trigger] promotion(remaining, i, heavy).0[k],
            ),
        forall|k: int|
            0 <= k < promotion(remaining, i, heavy).1.len() ==> !heavy(
                #[trigger] promotion(remaining, i, heavy).1[k],
            ),
    decreases remaining.len() - i,
{
    broadcast use group_to_multiset_ensures;

    if i >= remaining.len() {
        assert(Seq::<Term>::empty().to_multiset().add(remaining.to_multiset())
            =~= remaining.to_multiset());
    } else if heavy(remaining[i]) {
        let shorter = remaining.update(i, remaining.last()).drop_last();
        let rest = promotion(shorter, i, heavy);
        lemma_promotion(shorter, i, heavy);
        lemma_swap_removed_same(remaining, i);
        let one = seq![remaining[i]];
        assert(one + rest.0 =~= rest.0.insert(0, remaining[i]));
        assert(remaining.remove(i).insert(i, remaining[i]) =~= remaining);
        assert(rest.0.insert(0, remaining[i]).to_multiset().add(rest.1.to_multiset())
            =~= remaining.to_multiset());
        assert forall|k: int| 0 <= k < (one + rest.0).len() implies heavy(
            #[trigger] (one + rest.0)[k],
        ) by {
            if k > 0 {
                assert((one + rest.0)[k] == rest.0[k - 1]);
            }
        }
    } else {
        lemma_promotion(remaining, i + 1, heavy);
    }
}

pub open spec fn neg_idf_fn() -> spec_fn(Term) -> int {
    |t: Term| -(t.idf as int)
}

pub(crate) fn neg_idf_key(term: &Term) -> (key: i128)
    ensures
        key == neg_idf_fn()(*term),
{
    -(term.idf as i128)
}

/// The heaviest term comes first.
pub open spec fn heaviest_first(terms: Seq<Term>) -> bool {
    forall|i: int, j: int|
        0 <= i <= j < terms.len() ==> (#[trigger] terms[i]).idf >= (#[trigger] terms[j]).idf
}

/// Sorts terms by descending weight. Terms of equal weight keep their order.
pub(crate) fn sort_heaviest_first(terms: &mut Vec<Term>)
    ensures
        heaviest_first(final(terms)@),
        final(terms)@.to_multiset() == old(terms)@.to_multiset(),
        same_ties(old(terms)@, final(terms)@, neg_idf_fn()),
{
    sort_by_key(terms, neg_idf_key, Ghost(neg_idf_fn()));
    proof {
        assert forall|i: int, j: int| 0 <= i <= j < terms@.len() implies (#[trigger] terms@[i]).idf
            >= (#[trigger] terms@[j]).idf by {
            assert(neg_idf_fn()(terms@[i]) <= neg_idf_fn()(terms@[j]));
        }
    }
}

/// The absolutely essential terms of `rest` went to `abs`. The lists are then `abs2` and `rest2`, and
/// the latter goes by falling weight.
pub open spec fn promotes(
    abs: Seq<Term>,
    rest: Seq<Term>,
    total_idf: int,
    threshold: Score,
    abs2: Seq<Term>,
    rest2: Seq<Term>,
) -> bool {
    let parts = promotion(rest, 0, absolutely_essential(total_idf, threshold));
    &&& abs2 == abs + parts.0
    &&& rest2.to_multiset() == parts.1.to_multiset()
    &&& heaviest_first(rest2)
    &&& same_ties(parts.1, rest2, neg_idf_fn())
}

/// Promotes remaining terms to absolutely essential ones if their weight is more than the total
/// weight less the threshold, and sorts the others by descending weight.
pub fn promote_to_absolutely_essential(
    abs_essential: &mut Vec<Term>,
    remaining: &mut Vec<Term>,
    total_idf: Score,
    threshold: Score,
)
    ensures
        promotes(
            old(abs_essential)@,
            old(remaining)@,
            total_idf as int,
            threshold,
            final(abs_essential)@,
            final(remaining)@,
        ),
        forall|i: int, j: int|
            0 <= i <= j < final(remaining)@.len() ==> (#[trigger] final(remaining)@[i]).idf >= (
            #[trigger] final(remaining)@[j]).idf,
{
    let ghost heavy = absolutely_essential(total_idf as int, threshold);
    let ghost whole = promotion(remaining@, 0, heavy);
    let ghost first = abs_essential@;
    let cutoff: i128 = total_idf as i128 - threshold as i128;
    let mut i: usize = 0;
    while i < remaining.len()
        invariant
            i <= remaining@.len(),
            cutoff == total_idf - threshold,
            heavy == absolutely_essential(total_idf as int, threshold),
            abs_essential@ + promotion(remaining@, i as int, heavy).0 == first + whole.0,
            promotion(remaining@, i as int, heavy).1 == whole.1,
        decreases remaining@.len() - i,
    {
        let ghost before = remaining@;
        let ghost listed = abs_essential@;
        if remaining[i].idf as i128 > cutoff {
            let term: Term = remaining.swap_remove(i);
            abs_essential.push(term);
            proof {
                assert(heavy(before[i as int]));
                let rest = promotion(remaining@, i as int, heavy);
                assert(abs_essential@ + rest.0 =~= listed + (seq![term] + rest.0));
            }
        } else {
            assert(!heavy(remaining@[i as int]));
            i = i + 1;
        }
    }
    proof {
        assert(abs_essential@ + Seq::<Term>::empty() =~= abs_essential@);
        assert(remaining@ == whole.1);
    }
    sort_heaviest_first(remaining);
}

/// Adds up the weights of `terms`.
pub(crate) fn total_weight(terms: &Vec<Term>) -> (sum: Score)
    requires
        summable(terms@),
    ensures
        sum == weight(terms@),
{
    let mut sum: Score = 0;
    let mut i: usize = 0;
    proof {
        assert(terms@.take(0) =~= Seq::empty());
    }
    while i < terms.len()
        invariant
            i <= terms@.len(),
            summable(terms@),
            sum == weight(terms@.take(i as int)),
        decreases terms@.len() - i,
    {
        proof {
            lemma_prefix_weight(terms@, i as int);
            lemma_prefix_weight(terms@, i + 1);
        }
        sum = sum + terms[i].idf;
        i = i + 1;
    }
    proof {
        assert(terms@.take(i as int) =~= terms@);
    }
    sum
}

/// One term for each scorer.
pub(crate) fn collect_terms(scorers: &Vec<TermScorer>) -> (terms: Vec<Term>)
    ensures
        terms@ == all_terms(scorers@),
{
    let mut terms: Vec<Term> = Vec::new();
    let mut i: usize = 0;
    while i < scorers.len()
        invariant
            i <= scorers@.len(),
            terms@ =~= all_terms(scorers@).take(i as int),
        decreases scorers@.len() - i,
    {
        terms.push(Term { index: i, idf: scorers[i].idf_score() });
        i = i + 1;
    }
    terms
}

} // verus!
