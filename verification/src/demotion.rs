//! Taking the lightest items out of a list.
use vstd::prelude::*;
use vstd::seq_lib::group_to_multiset_ensures;

use crate::scorer_set::lemma_permutation_member;
use crate::sorting::{has_key, sort_by_key, sorted_by_key};
use crate::sums::{lemma_map_permutation, lemma_swap_removed};

verus! {

pub open spec fn item_fn<T>() -> spec_fn((usize, T)) -> T {
    |placed: (usize, T)| placed.1
}

pub open spec fn place_fn<T>() -> spec_fn((usize, T)) -> usize {
    |placed: (usize, T)| placed.0
}

pub open spec fn placed_key_fn<T>(key: spec_fn(T) -> int) -> spec_fn((usize, T)) -> int {
    |placed: (usize, T)| key(placed.1)
}

pub open spec fn at_fn<T>(items: Seq<T>) -> spec_fn(usize) -> T {
    |place: usize| items[place as int]
}

/// `order` holds each item once, with its place.
pub open spec fn is_placed<T>(items: Seq<T>, order: Seq<(usize, T)>) -> bool {
    &&& order.map_values(item_fn()).to_multiset() == items.to_multiset()
    &&& order.len() == items.len()
    &&& forall|k: int|
        0 <= k < order.len() ==> (#[trigger] order[k]).0 < items.len() && order[k].1
            == items[order[k].0 as int]
    &&& forall|j: int, k: int|
        0 <= j < k < order.len() ==> (#[trigger] order[j]).0 != (#[trigger] order[k]).0
    &&& forall|q: int| 0 <= q < items.len() ==> #[trigger] order.contains((q as usize, items[q]))
}

/// `places` are those of the lightest items, in ascending order. Among equally heavy items the
/// first ones are taken.
pub open spec fn is_lightest<T>(
    items: Seq<T>,
    places: Seq<usize>,
    key: spec_fn(T) -> int,
) -> bool {
    &&& forall|j: int, k: int|
        0 <= j < k < places.len() ==> #[trigger] places[j] < #[trigger] places[k]
    &&& forall|k: int| 0 <= k < places.len() ==> #[trigger] places[k] < items.len()
    &&& forall|k: int, q: int|
        0 <= k < places.len() && 0 <= q < items.len() && !places.contains(q as usize) ==> key(
            items[#[trigger] places[k] as int],
        ) < key(#[trigger] items[q]) || key(items[places[k] as int]) == key(items[q]) && places[k]
            < q
}

/// What is left and what is removed, when the items at `places` are removed from the last place to
/// the first, and each is replaced by the last item.
pub open spec fn swap_out<T>(items: Seq<T>, places: Seq<usize>) -> (Seq<T>, Seq<T>)
    decreases places.len(),
{
    if places.len() == 0 {
        (items, Seq::empty())
    } else {
        let place = places.last() as int;
        let rest = swap_out(items.update(place, items.last()).drop_last(), places.drop_last());
        (rest.0, seq![items[place]] + rest.1)
    }
}

/// Items by ascending key, and by place where keys are equal.
pub open spec fn places_ascend<T>(order: Seq<(usize, T)>, key: spec_fn(T) -> int) -> bool {
    forall|j: int, k: int|
        0 <= j < k < order.len() ==> key((#[trigger] order[j]).1) < key((#[trigger] order[k]).1)
            || key(order[j].1) == key(order[k].1) && order[j].0 < order[k].0
}

spec fn rising<T>(s: Seq<(usize, T)>) -> bool {
    forall|j: int, k: int|
        0 <= j < k < s.len() ==> (#[trigger] s[j]).0 < (#[trigger] s[k]).0
}

/// Picking from rising places leaves them rising.
proof fn lemma_filter_rises<T>(s: Seq<(usize, T)>, p: spec_fn((usize, T)) -> bool)
    requires
        rising(s),
    ensures
        rising(s.filter(p)),
    decreases s.len(),
{
    reveal(Seq::filter);
    if s.len() > 0 {
        let shorter = s.drop_last();
        lemma_filter_rises(shorter, p);
        let picked = shorter.filter(p);
        assert forall|j: int, k: int| 0 <= j < k < s.filter(p).len() implies (
        #[trigger] s.filter(p)[j]).0 < (#[trigger] s.filter(p)[k]).0 by {
            if k == picked.len() {
                assert(s.filter(p)[j] == picked[j]);
                shorter.lemma_filter_contains_rev(p, picked[j]);
                let x = choose|x: int| 0 <= x < shorter.len() && shorter[x] == picked[j];
                assert(s[x].0 < s[s.len() - 1].0);
            } else {
                assert(s.filter(p)[j] == picked[j] && s.filter(p)[k] == picked[k]);
            }
        }
    }
}

/// Where what is picked rises, it does so from one picked item to a later one.
proof fn lemma_picked_rise<T>(s: Seq<(usize, T)>, p: spec_fn((usize, T)) -> bool, j: int, k: int)
    requires
        rising(s.filter(p)),
        0 <= j < k < s.len(),
        p(s[j]),
        p(s[k]),
    ensures
        s[j].0 < s[k].0,
    decreases s.len(),
{
    reveal(Seq::filter);
    let shorter = s.drop_last();
    let picked = shorter.filter(p);
    assert forall|x: int, y: int| 0 <= x < y < picked.len() implies (#[trigger] picked[x]).0 < (
    #[trigger] picked[y]).0 by {
        assert(s.filter(p)[x] == picked[x] && s.filter(p)[y] == picked[y]);
    }
    if k == s.len() - 1 {
        shorter.lemma_filter_contains(p, j);
        assert(picked.contains(shorter[j]));
        let x = choose|x: int| 0 <= x < picked.len() && picked[x] == shorter[j];
        assert(s.filter(p)[x] == picked[x]);
        assert(s.filter(p)[picked.len() as int] == s[k]);
    } else {
        lemma_picked_rise(shorter, p, j, k);
    }
}

/// The items with their places, by ascending key.
pub(crate) fn places_by_key<T: Copy, F: Fn(&(usize, T)) -> i128>(
    items: &Vec<T>,
    key: F,
    Ghost(spec_key): Ghost<spec_fn(T) -> int>,
) -> (order: Vec<(usize, T)>)
    requires
        forall|x: (usize, T)| key.requires((&x,)),
        forall|x: (usize, T), k: i128| #[trigger]
            key.ensures((&x,), k) ==> k == placed_key_fn(spec_key)(x),
    ensures
        is_placed(items@, order@),
        sorted_by_key(order@.map_values(item_fn()), spec_key),
        places_ascend(order@, spec_key),
{
    let mut order: Vec<(usize, T)> = Vec::new();
    let mut i: usize = 0;
    while i < items.len()
        invariant
            i <= items@.len(),
            order@.len() == i,
            forall|j: int| 0 <= j < i ==> #[trigger] order@[j] == (j as usize, items@[j]),
        decreases items@.len() - i,
    {
        order.push((i, items[i]));
        i = i + 1;
    }
    let ghost listed = order@;
    sort_by_key(&mut order, key, Ghost(placed_key_fn(spec_key)));
    proof {
        let sorted = order@;
        assert(listed.map_values(item_fn()) =~= items@);
        lemma_map_permutation(sorted, listed, item_fn());
        assert(listed.no_duplicates());
        listed.lemma_multiset_has_no_duplicates();
        sorted.lemma_multiset_has_no_duplicates_conv();
        assert forall|k: int| 0 <= k < sorted.len() implies (#[trigger] sorted[k]).0 < items@.len()
            && sorted[k].1 == items@[sorted[k].0 as int] by {
            let j = lemma_permutation_member(listed, sorted, k);
        }
        assert forall|j: int, k: int| 0 <= j < k < sorted.len() implies (#[trigger] sorted[j]).0
            != (#[trigger] sorted[k]).0 by {
            assert(sorted[j].1 == items@[sorted[j].0 as int]);
            assert(sorted[k].1 == items@[sorted[k].0 as int]);
            assert(sorted[j] != sorted[k]);
        }
        assert forall|q: int| 0 <= q < items@.len() implies #[trigger] sorted.contains(
            (q as usize, items@[q]),
        ) by {
            assert(listed[q] == (q as usize, items@[q]));
            let k = lemma_permutation_member(sorted, listed, q);
        }
        assert(rising(listed));
        assert forall|j: int, k: int| 0 <= j < k < sorted.len() implies spec_key(
            (#[trigger] sorted[j]).1,
        ) < spec_key((#[trigger] sorted[k]).1) || spec_key(sorted[j].1) == spec_key(sorted[k].1)
            && sorted[j].0 < sorted[k].0 by {
            assert(placed_key_fn(spec_key)(sorted[j]) <= placed_key_fn(spec_key)(sorted[k]));
            if spec_key(sorted[j].1) == spec_key(sorted[k].1) {
                let p = has_key(placed_key_fn(spec_key), spec_key(sorted[j].1));
                lemma_filter_rises(listed, p);
                assert(sorted.filter(p) == listed.filter(p));
                lemma_picked_rise(sorted, p, j, k);
            }
        }
        let own = sorted.map_values(item_fn());
        assert forall|j: int, k: int| 0 <= j <= k < own.len() implies spec_key(#[trigger] own[j])
            <= spec_key(#[trigger] own[k]) by {
            assert(placed_key_fn(spec_key)(sorted[j]) <= placed_key_fn(spec_key)(sorted[k]));
        }
    }
    order
}

fn place_key(place: &usize) -> (key: i128)
    ensures
        key == place_value_fn()(*place),
{
    *place as i128
}

spec fn place_value_fn() -> spec_fn(usize) -> int {
    |place: usize| place as int
}

/// `item` stands at a place that is not among `places`.
pub open spec fn stands_elsewhere<T>(items: Seq<T>, places: Seq<usize>, item: T) -> bool {
    exists|q: int|
        0 <= q < items.len() && #[trigger] items[q] == item && !places.contains(q as usize)
}

/// Removes the items at `places`, which ascend, from the last place to the first. Each is
/// replaced by the last item.
fn remove_places<T: Copy>(items: &mut Vec<T>, places: &Vec<usize>) -> (removed: Vec<T>)
    requires
        forall|j: int, k: int|
            0 <= j < k < places@.len() ==> #[trigger] places@[j] < #[trigger] places@[k],
        forall|k: int| 0 <= k < places@.len() ==> #[trigger] places@[k] < old(items)@.len(),
    ensures
        (final(items)@, removed@) == swap_out(old(items)@, places@),
        removed@.to_multiset() == places@.map_values(at_fn(old(items)@)).to_multiset(),
        final(items)@.to_multiset().add(removed@.to_multiset()) == old(items)@.to_multiset(),
        final(items)@.len() == old(items)@.len() - places@.len(),
        forall|x: int|
            0 <= x < final(items)@.len() ==> stands_elsewhere(
                old(items)@,
                places@,
                #[trigger] final(items)@[x],
            ),
{
    let ghost all = items@;
    let ghost at = at_fn(all);
    let mut removed: Vec<T> = Vec::new();
    let mut i: usize = places.len();
    let len: usize = items.len();
    let ghost mut origin: Seq<int> = Seq::new(all.len(), |x: int| x);
    proof {
        broadcast use group_to_multiset_ensures;

        assert(places@.skip(i as int).map_values(at) =~= Seq::empty());
        assert(all.to_multiset().add(removed@.to_multiset()) =~= all.to_multiset());
        assert(places@.take(i as int) =~= places@);
        assert(removed@ + swap_out(all, places@).1 =~= swap_out(all, places@).1);
    }
    while i > 0
        invariant
            all == old(items)@,
            all.len() == len,
            at == at_fn(all),
            i <= places@.len(),
            forall|j: int, k: int|
                0 <= j < k < places@.len() ==> #[trigger] places@[j] < #[trigger] places@[k],
            forall|k: int| 0 <= k < places@.len() ==> #[trigger] places@[k] < all.len(),
            items@.len() == all.len() - (places@.len() - i),
            i > 0 ==> places@[i - 1] < items@.len(),
            i > 0 ==> forall|x: int| 0 <= x <= places@[i - 1] ==> #[trigger] origin[x] == x,
            origin.len() == items@.len(),
            forall|x: int|
                0 <= x < origin.len() ==> 0 <= #[trigger] origin[x] < all.len() && items@[x]
                    == all[origin[x]],
            forall|x: int, y: int|
                0 <= x < y < origin.len() ==> #[trigger] origin[x] != #[trigger] origin[y],
            forall|x: int, k: int|
                0 <= x < origin.len() && i <= k < places@.len() ==> #[trigger] origin[x]
                    != #[trigger] places@[k],
            removed@.to_multiset() == places@.skip(i as int).map_values(at).to_multiset(),
            items@.to_multiset().add(removed@.to_multiset()) == all.to_multiset(),
            swap_out(items@, places@.take(i as int)).0 == swap_out(all, places@).0,
            removed@ + swap_out(items@, places@.take(i as int)).1 == swap_out(all, places@).1,
        decreases i,
    {
        i = i - 1;
        let place: usize = places[i];
        let ghost before = items@;
        let ghost taken = removed@;
        let ghost old_origin = origin;
        let item: T = items.swap_remove(place);
        removed.push(item);
        proof {
            broadcast use group_to_multiset_ensures;

            assert(places@.take(i + 1).drop_last() =~= places@.take(i as int));
            let rest = swap_out(items@, places@.take(i as int)).1;
            assert(taken + (seq![item] + rest) =~= removed@ + rest);
            assert(old_origin[place as int] == place);
            assert(item == all[place as int]);
            lemma_swap_removed(taken, before, place as int);
            assert(items@.to_multiset().add(removed@.to_multiset()) =~= all.to_multiset()) by {
                assert(removed@.to_multiset().add(items@.to_multiset())
                    == taken.to_multiset().add(before.to_multiset()));
                assert(taken.to_multiset().add(before.to_multiset())
                    =~= before.to_multiset().add(taken.to_multiset()));
            }
            assert(places@.skip(i as int).map_values(at) =~= places@.skip(i + 1).map_values(
                at,
            ).insert(0, item));
            origin = old_origin.update(place as int, old_origin.last()).drop_last();
            assert forall|x: int| 0 <= x < origin.len() implies 0 <= #[trigger] origin[x] < all.len()
                && items@[x] == all[origin[x]] by {
                let from = if x == place {
                    old_origin.len() - 1
                } else {
                    x
                };
                assert(origin[x] == old_origin[from]);
            }
            assert forall|x: int, y: int| 0 <= x < y < origin.len() implies #[trigger] origin[x]
                != #[trigger] origin[y] by {
                let a = if x == place {
                    old_origin.len() - 1
                } else {
                    x
                };
                let b = if y == place {
                    old_origin.len() - 1
                } else {
                    y
                };
                assert(origin[x] == old_origin[a] && origin[y] == old_origin[b]);
                if a < b {
                    assert(old_origin[a] != old_origin[b]);
                } else {
                    assert(old_origin[b] != old_origin[a]);
                }
            }
            assert forall|x: int, k: int|
                0 <= x < origin.len() && i <= k < places@.len() implies #[trigger] origin[x]
                != #[trigger] places@[k] by {
                let a = if x == place {
                    old_origin.len() - 1
                } else {
                    x
                };
                assert(origin[x] == old_origin[a]);
                if k == i {
                    if a < place {
                        assert(old_origin[a] != old_origin[place as int]);
                    } else {
                        assert(old_origin[place as int] != old_origin[a]);
                    }
                }
            }
            if i > 0 {
                assert(places@[i - 1] < places@[i as int]);
                assert forall|x: int| 0 <= x <= places@[i - 1] implies #[trigger] origin[x] == x by {
                    assert(origin[x] == old_origin[x]);
                }
            }
        }
    }
    proof {
        assert(places@.skip(0) =~= places@);
        assert(places@.take(0) =~= Seq::empty());
        assert(removed@ + Seq::<T>::empty() =~= removed@);
        assert forall|x: int| 0 <= x < items@.len() implies stands_elsewhere(
            all,
            places@,
            #[trigger] items@[x],
        ) by {
            let q = origin[x];
            assert(all[q] == items@[x]);
            if places@.contains(q as usize) {
                let k = choose|k: int| 0 <= k < places@.len() && places@[k] == q as usize;
                assert(origin[x] != places@[k]);
            }
        }
    }
    removed
}

/// Takes out the items at the first `count` places of `order`, the last place first.
pub(crate) fn take_first_places<T: Copy>(
    items: &mut Vec<T>,
    order: &Vec<(usize, T)>,
    count: usize,
    Ghost(key): Ghost<spec_fn(T) -> int>,
) -> (removed: Vec<T>)
    requires
        is_placed(old(items)@, order@),
        sorted_by_key(order@.map_values(item_fn()), key),
        places_ascend(order@, key),
        count <= order@.len(),
    ensures
        exists|places: Seq<usize>| #[trigger]
            is_lightest(old(items)@, places, key) && places.len() == count && (
                final(items)@,
                removed@,
            ) == swap_out(old(items)@, places),
        removed@.to_multiset() == order@.map_values(item_fn()).take(count as int).to_multiset(),
        removed@.len() == count,
        final(items)@.to_multiset().add(removed@.to_multiset()) == old(items)@.to_multiset(),
        final(items)@.len() == old(items)@.len() - count,
        final(items)@.to_multiset() == order@.map_values(item_fn()).skip(
            count as int,
        ).to_multiset(),
        forall|x: int, y: int|
            0 <= x < removed@.len() && 0 <= y < final(items)@.len() ==> key(
                #[trigger] removed@[x],
            ) <= key(#[trigger] final(items)@[y]),
{
    let ghost all = items@;
    let ghost sorted = order@.map_values(item_fn());
    let mut places: Vec<usize> = Vec::new();
    let mut i: usize = 0;
    while i < count
        invariant
            i <= count <= order@.len(),
            places@.len() == i,
            forall|j: int| 0 <= j < i ==> #[trigger] places@[j] == order@[j].0,
        decreases count - i,
    {
        places.push(order[i].0);
        i = i + 1;
    }
    let ghost listed = places@;
    sort_by_key(&mut places, place_key, Ghost(place_value_fn()));
    proof {
        assert(listed =~= order@.take(count as int).map_values(place_fn()));
        assert forall|j: int, k: int| 0 <= j < listed.len() && 0 <= k < listed.len() && j
            != k implies listed[j] != listed[k] by {
            if j < k {
                assert(order@[j].0 != order@[k].0);
            } else {
                assert(order@[k].0 != order@[j].0);
            }
        }
        assert(listed.no_duplicates());
        listed.lemma_multiset_has_no_duplicates();
        places@.lemma_multiset_has_no_duplicates_conv();
        assert forall|j: int, k: int| 0 <= j < k < places@.len() implies #[trigger] places@[j]
            < #[trigger] places@[k] by {
            assert(place_value_fn()(places@[j]) <= place_value_fn()(places@[k]));
            assert(places@[j] != places@[k]);
        }
        assert forall|k: int| 0 <= k < places@.len() implies #[trigger] places@[k] < all.len() by {
            let j = lemma_permutation_member(listed, places@, k);
        }
    }
    let removed: Vec<T> = remove_places(items, &places);
    proof {
        assert forall|k: int, q: int|
            0 <= k < places@.len() && 0 <= q < all.len() && !places@.contains(
                q as usize,
            ) implies key(all[#[trigger] places@[k] as int]) < key(#[trigger] all[q]) || key(
            all[places@[k] as int],
        ) == key(all[q]) && places@[k] < q by {
            let j = lemma_permutation_member(listed, places@, k);
            assert(order@.contains((q as usize, all[q])));
            let x = choose|x: int| 0 <= x < order@.len() && order@[x] == (q as usize, all[q]);
            if x < count {
                let y = lemma_permutation_member(places@, listed, x);
                assert(places@[y] == q as usize);
            }
            assert(order@[j].1 == all[order@[j].0 as int]);
        }
        assert(is_lightest(all, places@, key));
    }
    proof {
        broadcast use group_to_multiset_ensures;
        broadcast use vstd::multiset::group_multiset_axioms;

        let at = at_fn(all);
        let first = sorted.take(count as int);
        let last = sorted.skip(count as int);
        lemma_map_permutation(places@, listed, at);
        assert(listed.map_values(at) =~= first);
        assert(removed@.len() == removed@.to_multiset().len());
        assert(first.len() == first.to_multiset().len());
        assert(sorted =~= first + last);
        vstd::seq_lib::lemma_multiset_commutative(first, last);
        assert forall|a: T| items@.to_multiset().count(a) == last.to_multiset().count(a) by {
            assert(items@.to_multiset().add(removed@.to_multiset()).count(a)
                == first.to_multiset().add(last.to_multiset()).count(a));
        }
        assert(items@.to_multiset() =~= last.to_multiset());
        assert forall|x: int, y: int|
            0 <= x < removed@.len() && 0 <= y < items@.len() implies key(#[trigger] removed@[x])
            <= key(#[trigger] items@[y]) by {
            let a = lemma_permutation_member(first, removed@, x);
            let b = lemma_permutation_member(last, items@, y);
            assert(sorted[a] == first[a] && sorted[count + b] == last[b]);
            assert(key(sorted[a]) <= key(sorted[count + b]));
        }
    }
    removed
}

} // verus!
