//! Finite sums over sequences.
use vstd::prelude::*;
use vstd::seq_lib::group_to_multiset_ensures;

verus! {

/// The sum of `f` over the elements of `s`.
pub open spec fn sum_by<A>(s: Seq<A>, f: spec_fn(A) -> int) -> int
    decreases s.len(),
{
    if s.len() == 0 {
        0
    } else {
        sum_by(s.drop_last(), f) + f(s.last())
    }
}

pub proof fn lemma_sum_push<A>(s: Seq<A>, a: A, f: spec_fn(A) -> int)
    ensures
        sum_by(s.push(a), f) == sum_by(s, f) + f(a),
{
    assert(s.push(a).drop_last() =~= s);
}

pub proof fn lemma_sum_append<A>(s: Seq<A>, t: Seq<A>, f: spec_fn(A) -> int)
    ensures
        sum_by(s + t, f) == sum_by(s, f) + sum_by(t, f),
    decreases t.len(),
{
    if t.len() == 0 {
        assert(s + t =~= s);
    } else {
        lemma_sum_append(s, t.drop_last(), f);
        assert((s + t).drop_last() =~= s + t.drop_last());
    }
}

pub proof fn lemma_sum_insert<A>(s: Seq<A>, i: int, a: A, f: spec_fn(A) -> int)
    requires
        0 <= i <= s.len(),
    ensures
        sum_by(s.insert(i, a), f) == sum_by(s, f) + f(a),
{
    let l = s.take(i);
    let r = s.skip(i);
    assert(s =~= l + r);
    assert(s.insert(i, a) =~= l.push(a) + r);
    lemma_sum_append(l, r, f);
    lemma_sum_append(l.push(a), r, f);
    lemma_sum_push(l, a, f);
}

pub proof fn lemma_sum_remove<A>(s: Seq<A>, i: int, f: spec_fn(A) -> int)
    requires
        0 <= i < s.len(),
    ensures
        sum_by(s.remove(i), f) == sum_by(s, f) - f(s[i]),
{
    lemma_sum_insert(s.remove(i), i, s[i], f);
    assert(s.remove(i).insert(i, s[i]) =~= s);
}

pub proof fn lemma_sum_update<A>(s: Seq<A>, i: int, a: A, f: spec_fn(A) -> int)
    requires
        0 <= i < s.len(),
    ensures
        sum_by(s.update(i, a), f) == sum_by(s, f) - f(s[i]) + f(a),
{
    lemma_sum_remove(s, i, f);
    lemma_sum_insert(s.remove(i), i, a, f);
    assert(s.remove(i).insert(i, a) =~= s.update(i, a));
}

/// `Vec::swap_remove` takes one element out of the sum.
pub proof fn lemma_sum_swap_remove<A>(s: Seq<A>, i: int, f: spec_fn(A) -> int)
    requires
        0 <= i < s.len(),
    ensures
        sum_by(s.update(i, s.last()).drop_last(), f) == sum_by(s, f) - f(s[i]),
{
    lemma_sum_update(s, i, s.last(), f);
}

/// A sum does not depend on the order of the elements.
pub proof fn lemma_sum_permutation<A>(s: Seq<A>, t: Seq<A>, f: spec_fn(A) -> int)
    requires
        s.to_multiset() == t.to_multiset(),
    ensures
        sum_by(s, f) == sum_by(t, f),
    decreases s.len(),
{
    broadcast use group_to_multiset_ensures;

    assert(s.len() == s.to_multiset().len() && t.len() == t.to_multiset().len());
    if s.len() > 0 {
        let a = s.last();
        assert(s[s.len() - 1] == a);
        assert(s.to_multiset().count(a) > 0);
        assert(t.contains(a));
        let j = choose|j: int| 0 <= j < t.len() && t[j] == a;
        assert(s.remove(s.len() - 1) =~= s.drop_last());
        assert(s.drop_last().to_multiset() == t.remove(j).to_multiset());
        lemma_sum_permutation(s.drop_last(), t.remove(j), f);
        lemma_sum_remove(t, j, f);
    }
}

pub proof fn lemma_sum_le<A>(s: Seq<A>, t: Seq<A>, f: spec_fn(A) -> int, g: spec_fn(A) -> int)
    requires
        s.len() == t.len(),
        forall|i: int| 0 <= i < s.len() ==> f(#[trigger] s[i]) <= g(t[i]),
    ensures
        sum_by(s, f) <= sum_by(t, g),
    decreases s.len(),
{
    if s.len() > 0 {
        assert forall|i: int| 0 <= i < s.drop_last().len() implies f(#[trigger] s.drop_last()[i])
            <= g(t.drop_last()[i]) by {
            assert(f(s[i]) <= g(t[i]));
        }
        lemma_sum_le(s.drop_last(), t.drop_last(), f, g);
        assert(f(s[s.len() - 1]) <= g(t[s.len() - 1]));
    }
}

pub proof fn lemma_sum_eq<A>(s: Seq<A>, t: Seq<A>, f: spec_fn(A) -> int, g: spec_fn(A) -> int)
    requires
        s.len() == t.len(),
        forall|i: int| 0 <= i < s.len() ==> f(#[trigger] s[i]) == g(t[i]),
    ensures
        sum_by(s, f) == sum_by(t, g),
    decreases s.len(),
{
    if s.len() > 0 {
        assert forall|i: int| 0 <= i < s.drop_last().len() implies f(#[trigger] s.drop_last()[i])
            == g(t.drop_last()[i]) by {
            assert(f(s[i]) == g(t[i]));
        }
        lemma_sum_eq(s.drop_last(), t.drop_last(), f, g);
        assert(f(s[s.len() - 1]) == g(t[s.len() - 1]));
    }
}

pub proof fn lemma_sum_nonneg<A>(s: Seq<A>, f: spec_fn(A) -> int)
    requires
        forall|i: int| 0 <= i < s.len() ==> 0 <= f(#[trigger] s[i]),
    ensures
        0 <= sum_by(s, f),
    decreases s.len(),
{
    if s.len() > 0 {
        assert forall|i: int| 0 <= i < s.drop_last().len() implies 0 <= f(
            #[trigger] s.drop_last()[i],
        ) by {
            assert(0 <= f(s[i]));
        }
        lemma_sum_nonneg(s.drop_last(), f);
        assert(0 <= f(s[s.len() - 1]));
    }
}

pub proof fn lemma_sum_zero<A>(s: Seq<A>, f: spec_fn(A) -> int)
    requires
        forall|i: int| 0 <= i < s.len() ==> f(#[trigger] s[i]) == 0,
    ensures
        sum_by(s, f) == 0,
    decreases s.len(),
{
    if s.len() > 0 {
        assert forall|i: int| 0 <= i < s.drop_last().len() implies f(#[trigger] s.drop_last()[i])
            == 0 by {
            assert(f(s[i]) == 0);
        }
        lemma_sum_zero(s.drop_last(), f);
        assert(f(s[s.len() - 1]) == 0);
    }
}

pub proof fn lemma_sum_element<A>(s: Seq<A>, i: int, f: spec_fn(A) -> int)
    requires
        0 <= i < s.len(),
        forall|j: int| 0 <= j < s.len() ==> 0 <= f(#[trigger] s[j]),
    ensures
        f(s[i]) <= sum_by(s, f),
{
    lemma_sum_remove(s, i, f);
    assert forall|j: int| 0 <= j < s.remove(i).len() implies 0 <= f(#[trigger] s.remove(i)[j]) by {
        if j < i {
            assert(0 <= f(s[j]));
        } else {
            assert(0 <= f(s[j + 1]));
        }
    }
    lemma_sum_nonneg(s.remove(i), f);
}

/// One more element of a prefix.
pub proof fn lemma_sum_take<A>(s: Seq<A>, i: int, f: spec_fn(A) -> int)
    requires
        0 <= i < s.len(),
    ensures
        sum_by(s.take(i + 1), f) == sum_by(s.take(i), f) + f(s[i]),
{
    assert(s.take(i + 1).drop_last() =~= s.take(i));
}

/// Prefix sums of non-negative terms grow.
pub proof fn lemma_sum_take_le<A>(s: Seq<A>, i: int, j: int, f: spec_fn(A) -> int)
    requires
        0 <= i <= j <= s.len(),
        forall|n: int| 0 <= n < s.len() ==> 0 <= f(#[trigger] s[n]),
    ensures
        0 <= sum_by(s.take(i), f) <= sum_by(s.take(j), f),
    decreases j,
{
    if i < j {
        lemma_sum_take_le(s, i, j - 1, f);
        lemma_sum_take(s, j - 1, f);
        assert(0 <= f(s[j - 1]));
    } else {
        lemma_sum_nonneg(s.take(i), f);
    }
}

/// A whole sum split at `i`.
pub proof fn lemma_sum_split<A>(s: Seq<A>, i: int, f: spec_fn(A) -> int)
    requires
        0 <= i <= s.len(),
    ensures
        sum_by(s, f) == sum_by(s.take(i), f) + sum_by(s.skip(i), f),
{
    assert(s =~= s.take(i) + s.skip(i));
    lemma_sum_append(s.take(i), s.skip(i), f);
}

pub open spec fn indicator<A>(p: spec_fn(A) -> bool) -> spec_fn(A) -> int {
    |a: A|
        if p(a) {
            1
        } else {
            0
        }
}

/// How many elements of `s` satisfy `p`.
pub open spec fn count_by<A>(s: Seq<A>, p: spec_fn(A) -> bool) -> int {
    sum_by(s, indicator(p))
}

pub proof fn lemma_count_bounds<A>(s: Seq<A>, p: spec_fn(A) -> bool)
    ensures
        0 <= count_by(s, p) <= s.len(),
    decreases s.len(),
{
    if s.len() > 0 {
        lemma_count_bounds(s.drop_last(), p);
    }
}

pub proof fn lemma_count_all<A>(s: Seq<A>, p: spec_fn(A) -> bool)
    requires
        forall|k: int| 0 <= k < s.len() ==> p(#[trigger] s[k]),
    ensures
        count_by(s, p) == s.len(),
    decreases s.len(),
{
    if s.len() > 0 {
        let shorter = s.drop_last();
        assert forall|k: int| 0 <= k < shorter.len() implies p(#[trigger] shorter[k]) by {
            assert(shorter[k] == s[k]);
        }
        lemma_count_all(shorter, p);
        assert(p(s[s.len() - 1]));
    }
}

pub proof fn lemma_count_none<A>(s: Seq<A>, p: spec_fn(A) -> bool)
    requires
        forall|k: int| 0 <= k < s.len() ==> !p(#[trigger] s[k]),
    ensures
        count_by(s, p) == 0,
{
    lemma_sum_zero(s, indicator(p));
}

/// What satisfies one condition satisfies a weaker one.
pub proof fn lemma_count_implied<A>(s: Seq<A>, p: spec_fn(A) -> bool, q: spec_fn(A) -> bool)
    requires
        forall|k: int| 0 <= k < s.len() && p(#[trigger] s[k]) ==> q(s[k]),
    ensures
        count_by(s, p) <= count_by(s, q),
{
    lemma_sum_le(s, s, indicator(p), indicator(q));
}

/// Mapping respects reordering.
pub proof fn lemma_map_permutation<A, B>(s: Seq<A>, t: Seq<A>, f: spec_fn(A) -> B)
    requires
        s.to_multiset() == t.to_multiset(),
    ensures
        s.map_values(f).to_multiset() == t.map_values(f).to_multiset(),
    decreases s.len(),
{
    broadcast use group_to_multiset_ensures;

    assert(s.len() == s.to_multiset().len() && t.len() == t.to_multiset().len());
    if s.len() > 0 {
        let a = s.last();
        assert(s[s.len() - 1] == a);
        assert(s.to_multiset().count(a) > 0);
        assert(t.contains(a));
        let j = choose|j: int| 0 <= j < t.len() && t[j] == a;
        assert(s.remove(s.len() - 1) =~= s.drop_last());
        assert(s.drop_last().to_multiset() == t.remove(j).to_multiset());
        lemma_map_permutation(s.drop_last(), t.remove(j), f);
        assert(s.map_values(f) =~= s.drop_last().map_values(f).push(f(a)));
        assert(t.map_values(f) =~= t.remove(j).map_values(f).insert(j, f(a)));
    } else {
        assert(s.map_values(f) =~= t.map_values(f));
    }
}

/// Taking an element out of one sequence and putting it into another.
pub proof fn lemma_swap_removed<A>(d: Seq<A>, u: Seq<A>, i: int)
    requires
        0 <= i < u.len(),
    ensures
        d.push(u[i]).to_multiset().add(u.update(i, u.last()).drop_last().to_multiset())
            == d.to_multiset().add(u.to_multiset()),
{
    broadcast use group_to_multiset_ensures;
    broadcast use vstd::multiset::group_multiset_axioms;

    let v = u.update(i, u.last());
    assert(v.remove(v.len() - 1) =~= v.drop_last());
    assert(v.to_multiset() == u.to_multiset().insert(u.last()).remove(u[i]));
    assert(v.drop_last().to_multiset() == v.to_multiset().remove(u.last()));
    assert(u.contains(u[i]));
    assert(u.to_multiset().count(u[i]) > 0);
    assert(v.drop_last().to_multiset() =~= u.to_multiset().remove(u[i]));
    assert(d.push(u[i]).to_multiset().add(v.drop_last().to_multiset()) =~= d.to_multiset().add(
        u.to_multiset(),
    ));
}

/// `Vec::swap_remove` leaves the other elements.
pub proof fn lemma_swap_removed_same<A>(u: Seq<A>, i: int)
    requires
        0 <= i < u.len(),
    ensures
        u.update(i, u.last()).drop_last().to_multiset() == u.remove(i).to_multiset(),
{
    broadcast use group_to_multiset_ensures;
    broadcast use vstd::multiset::group_multiset_axioms;

    let v = u.update(i, u.last());
    assert(v.remove(v.len() - 1) =~= v.drop_last());
    assert(u.contains(u[i]));
    assert(u.to_multiset().count(u[i]) > 0);
    assert(v.drop_last().to_multiset() =~= u.to_multiset().remove(u[i]));
}

} // verus!
