//! Stable insertion sort by an integer key.
use vstd::prelude::*;
use vstd::seq_lib::group_to_multiset_ensures;

verus! {

pub open spec fn sorted_by_key<T>(s: Seq<T>, key: spec_fn(T) -> int) -> bool {
    forall|i: int, j: int| 0 <= i <= j < s.len() ==> key(#[trigger] s[i]) <= key(#[trigger] s[j])
}

pub open spec fn has_key<T>(key: spec_fn(T) -> int, k: int) -> spec_fn(T) -> bool {
    |x: T| key(x) == k
}

/// Elements with equal keys come in the same order in `a` and in `b`.
pub open spec fn same_ties<T>(a: Seq<T>, b: Seq<T>, key: spec_fn(T) -> int) -> bool {
    forall|k: int| #[trigger] b.filter(has_key(key, k)) == a.filter(has_key(key, k))
}

/// Moving an element forward over elements with other keys leaves the order of equal keys.
proof fn lemma_move_keeps_ties<T>(s: Seq<T>, i: int, j: int, key: spec_fn(T) -> int)
    requires
        0 <= j <= i < s.len(),
        forall|n: int| j <= n < i ==> key(#[trigger] s[n]) != key(s[i]),
    ensures
        same_ties(s, s.remove(i).insert(j, s[i]), key),
{
    let front = s.take(j);
    let passed = s.subrange(j, i);
    let one = seq![s[i]];
    let back = s.skip(i + 1);
    let t = s.remove(i).insert(j, s[i]);
    assert(s =~= front + passed + one + back);
    assert(t =~= front + one + passed + back);
    assert forall|k: int| #[trigger] t.filter(has_key(key, k)) == s.filter(has_key(key, k)) by {
        let p = has_key(key, k);
        Seq::filter_distributes_over_add(front + passed + one, back, p);
        Seq::filter_distributes_over_add(front + passed, one, p);
        Seq::filter_distributes_over_add(front, passed, p);
        Seq::filter_distributes_over_add(front + one + passed, back, p);
        Seq::filter_distributes_over_add(front + one, passed, p);
        Seq::filter_distributes_over_add(front, one, p);
        if key(s[i]) == k {
            assert forall|n: int| 0 <= n < passed.len() implies !p(#[trigger] passed[n]) by {
                assert(passed[n] == s[j + n]);
            }
            lemma_filter_none(passed, p);
        } else {
            lemma_filter_none(one, p);
        }
        assert(t.filter(p) =~= s.filter(p));
    }
}

proof fn lemma_filter_none<T>(s: Seq<T>, p: spec_fn(T) -> bool)
    requires
        forall|n: int| 0 <= n < s.len() ==> !p(#[trigger] s[n]),
    ensures
        s.filter(p).len() == 0,
    decreases s.len(),
{
    reveal(Seq::filter);
    if s.len() > 0 {
        let shorter = s.drop_last();
        assert forall|n: int| 0 <= n < shorter.len() implies !p(#[trigger] shorter[n]) by {
            assert(shorter[n] == s[n]);
        }
        lemma_filter_none(shorter, p);
        assert(!p(s[s.len() - 1]));
    }
}

/// Moving one element to another place permutes a sequence.
pub proof fn lemma_move_permutes<T>(s: Seq<T>, i: int, j: int)
    requires
        0 <= i < s.len(),
        0 <= j < s.len(),
    ensures
        s.remove(i).insert(j, s[i]).to_multiset() == s.to_multiset(),
        s.remove(i).insert(j, s[i]).len() == s.len(),
{
    broadcast use group_to_multiset_ensures;

    assert(s.remove(i).insert(i, s[i]) =~= s);
}

/// Sorts `items` by ascending key. Items with equal keys keep their order.
pub(crate) fn sort_by_key<T, F: Fn(&T) -> i128>(
    items: &mut Vec<T>,
    key: F,
    Ghost(spec_key): Ghost<spec_fn(T) -> int>,
)
    requires
        forall|x: T| key.requires((&x,)),
        forall|x: T, k: i128| #[trigger] key.ensures((&x,), k) ==> k == spec_key(x),
    ensures
        final(items)@.to_multiset() == old(items)@.to_multiset(),
        final(items)@.len() == old(items)@.len(),
        sorted_by_key(final(items)@, spec_key),
        same_ties(old(items)@, final(items)@, spec_key),
{
    let mut i: usize = 0;
    while i < items.len()
        invariant
            i <= items@.len(),
            items@.len() == old(items)@.len(),
            items@.to_multiset() == old(items)@.to_multiset(),
            sorted_by_key(items@.take(i as int), spec_key),
            same_ties(old(items)@, items@, spec_key),
            forall|x: T| key.requires((&x,)),
            forall|x: T, k: i128| #[trigger] key.ensures((&x,), k) ==> k == spec_key(x),
        decreases items@.len() - i,
    {
        let ghost before = items@;
        let k: i128 = key(&items[i]);
        let mut j: usize = i;
        while j > 0 && key(&items[j - 1]) > k
            invariant
                j <= i < items@.len(),
                items@ == before,
                k == spec_key(before[i as int]),
                forall|n: int| j <= n < i ==> spec_key(#[trigger] before[n]) > k,
                forall|x: T| key.requires((&x,)),
                forall|x: T, k: i128| #[trigger] key.ensures((&x,), k) ==> k == spec_key(x),
            ensures
                j <= i,
                items@ == before,
                forall|n: int| j <= n < i ==> spec_key(#[trigger] before[n]) > k,
                j > 0 ==> spec_key(before[j - 1]) <= k,
            decreases j,
        {
            j = j - 1;
        }
        let item = items.remove(i);
        items.insert(j, item);
        proof {
            lemma_move_permutes(before, i as int, j as int);
            lemma_move_keeps_ties(before, i as int, j as int, spec_key);
            let after = items@;
            let prefix = before.take(i as int);
            assert forall|a: int, b: int| 0 <= a <= b < after.take(i + 1).len() implies spec_key(
                #[trigger] after.take(i + 1)[a],
            ) <= spec_key(#[trigger] after.take(i + 1)[b]) by {
                if a < j {
                    assert(after[a] == before[a] && prefix[a] == before[a]);
                    assert(prefix[j - 1] == before[j - 1]);
                    if b < j {
                        assert(prefix[b] == before[b]);
                    } else if b > j {
                        assert(prefix[b - 1] == before[b - 1]);
                    }
                } else if b > j {
                    assert(prefix[b - 1] == before[b - 1]);
                    if a > j {
                        assert(prefix[a - 1] == before[a - 1]);
                    }
                }
            }
        }
        i = i + 1;
    }
    proof {
        assert(items@.take(i as int) =~= items@);
    }
}

/// Exchanging two items permutes them.
pub proof fn lemma_swap_permutes<A>(s: Seq<A>, i: int, j: int)
    requires
        0 <= i < s.len(),
        0 <= j < s.len(),
    ensures
        s.update(j, s[i]).update(i, s[j]).to_multiset() == s.to_multiset(),
{
    broadcast use group_to_multiset_ensures;

    let once = s.update(j, s[i]);
    if i == j {
        assert(once.update(i, s[j]) =~= s);
    } else {
        assert(once[i] == s[i]);
        assert(s.to_multiset().count(s[j]) > 0);
        assert(once.update(i, s[j]).to_multiset() =~= s.to_multiset());
    }
}

} // verus!
