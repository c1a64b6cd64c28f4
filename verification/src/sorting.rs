//! Sorting of positions by a key, ties kept in their listed order.

use vstd::prelude::*;
use vstd::relations::{sorted_by, total_ordering};
use vstd::seq_lib::{group_to_multiset_ensures, lemma_multiset_commutative, lemma_sorted_unique};

verus! {

/// Whether position `i` stands before position `j`, or is it: the lower key first, and of
/// two equal keys the lower position.
pub open spec fn key_leq(keys: Seq<(u64, u64)>, i: usize, j: usize) -> bool {
    let a = keys[i as int];
    let b = keys[j as int];
    ||| a.0 < b.0
    ||| a.0 == b.0 && a.1 < b.1
    ||| a.0 == b.0 && a.1 == b.1 && i <= j
}

/// The order of positions that `keys` gives.
pub open spec fn key_order(keys: Seq<(u64, u64)>) -> spec_fn(usize, usize) -> bool {
    |i: usize, j: usize| key_leq(keys, i, j)
}

/// `key_order` is a total order, so that a list of positions has one sorted form.
pub proof fn key_order_is_total(keys: Seq<(u64, u64)>)
    ensures
        total_ordering(key_order(keys)),
{
}

fn merge(keys: &Vec<(u64, u64)>, left: &Vec<usize>, right: &Vec<usize>) -> (merged: Vec<usize>)
    requires
        forall|i: int| 0 <= i < left@.len() ==> left@[i] < keys@.len(),
        forall|i: int| 0 <= i < right@.len() ==> right@[i] < keys@.len(),
        sorted_by(left@, key_order(keys@)),
        sorted_by(right@, key_order(keys@)),
    ensures
        sorted_by(merged@, key_order(keys@)),
        merged@.to_multiset() == (left@ + right@).to_multiset(),
{
    let ghost leq = key_order(keys@);
    let mut merged: Vec<usize> = Vec::new();
    let mut i: usize = 0;
    let mut j: usize = 0;
    assert(left@.take(0) + right@.take(0) =~= merged@);
    while i < left.len() || j < right.len()
        invariant
            i <= left@.len(),
            j <= right@.len(),
            leq == key_order(keys@),
            forall|i: int| 0 <= i < left@.len() ==> left@[i] < keys@.len(),
            forall|i: int| 0 <= i < right@.len() ==> right@[i] < keys@.len(),
            sorted_by(left@, leq),
            sorted_by(right@, leq),
            sorted_by(merged@, leq),
            forall|a: int, b: int|
                0 <= a < merged@.len() && i <= b < left@.len() ==> #[trigger] leq(
                    merged@[a],
                    left@[b],
                ),
            forall|a: int, b: int|
                0 <= a < merged@.len() && j <= b < right@.len() ==> #[trigger] leq(
                    merged@[a],
                    right@[b],
                ),
            merged@.to_multiset() == (left@.take(i as int) + right@.take(j as int)).to_multiset(),
        decreases left@.len() - i + right@.len() - j,
    {
        broadcast use group_to_multiset_ensures;

        let from_left: bool = if i == left.len() {
            false
        } else if j == right.len() {
            true
        } else {
            let a: usize = left[i];
            let b: usize = right[j];
            let ka: (u64, u64) = keys[a];
            let kb: (u64, u64) = keys[b];
            ka.0 < kb.0 || (ka.0 == kb.0 && (ka.1 < kb.1 || (ka.1 == kb.1 && a <= b)))
        };
        let ghost before = merged@;
        let ghost done = left@.take(i as int) + right@.take(j as int);
        proof {
            key_order_is_total(keys@);
            lemma_multiset_commutative(left@.take(i as int), right@.take(j as int));
        }
        if from_left {
            merged.push(left[i]);
            proof {
                lemma_multiset_commutative(left@.take(i + 1), right@.take(j as int));
                assert(left@.take(i + 1) =~= left@.take(i as int).push(left@[i as int]));
                assert forall|b: int| j <= b < right@.len() implies #[trigger] leq(
                    left@[i as int],
                    right@[b],
                ) by {
                    assert(leq(left@[i as int], right@[j as int]));
                    assert(b > j ==> leq(right@[j as int], right@[b]));
                }
                assert forall|b: int| i < b < left@.len() implies #[trigger] leq(
                    left@[i as int],
                    left@[b],
                ) by {}
            }
            i = i + 1;
        } else {
            merged.push(right[j]);
            proof {
                lemma_multiset_commutative(left@.take(i as int), right@.take(j + 1));
                assert(right@.take(j + 1) =~= right@.take(j as int).push(right@[j as int]));
                assert forall|b: int| i <= b < left@.len() implies #[trigger] leq(
                    right@[j as int],
                    left@[b],
                ) by {
                    assert(leq(right@[j as int], left@[i as int]));
                    assert(b > i ==> leq(left@[i as int], left@[b]));
                }
                assert forall|b: int| j < b < right@.len() implies #[trigger] leq(
                    right@[j as int],
                    right@[b],
                ) by {}
            }
            j = j + 1;
        }
    }
    assert(left@.take(left@.len() as int) =~= left@);
    assert(right@.take(right@.len() as int) =~= right@);
    merged
}

/// Sorts the positions `picks` by their keys.
pub fn sort_picks(keys: &Vec<(u64, u64)>, picks: Vec<usize>) -> (sorted: Vec<usize>)
    requires
        forall|i: int| 0 <= i < picks@.len() ==> picks@[i] < keys@.len(),
    ensures
        sorted@ == picks@.sort_by(key_order(keys@)),
    decreases picks@.len(),
{
    let ghost leq = key_order(keys@);
    proof {
        key_order_is_total(keys@);
        picks@.lemma_sort_by_ensures(leq);
    }
    if picks.len() <= 1 {
        proof {
            lemma_sorted_unique(picks@, picks@.sort_by(leq), leq);
        }
        return picks;
    }
    let ghost all = picks@;
    let mut left: Vec<usize> = picks;
    let mid: usize = left.len() / 2;
    let right: Vec<usize> = left.split_off(mid);
    let ghost l0 = left@;
    let ghost r0 = right@;
    assert(l0 + r0 =~= all);
    let left: Vec<usize> = sort_picks(keys, left);
    let right: Vec<usize> = sort_picks(keys, right);
    proof {
        l0.lemma_sort_by_ensures(leq);
        r0.lemma_sort_by_ensures(leq);
        lemma_multiset_commutative(l0, r0);
        lemma_multiset_commutative(left@, right@);
        lemma_in_range_kept(keys@, l0, left@);
        lemma_in_range_kept(keys@, r0, right@);
    }
    let sorted: Vec<usize> = merge(keys, &left, &right);
    proof {
        lemma_sorted_unique(sorted@, all.sort_by(leq), leq);
    }
    sorted
}

proof fn lemma_in_range_kept(keys: Seq<(u64, u64)>, before: Seq<usize>, after: Seq<usize>)
    requires
        before.to_multiset() == after.to_multiset(),
        forall|i: int| 0 <= i < before.len() ==> before[i] < keys.len(),
    ensures
        forall|i: int| 0 <= i < after.len() ==> after[i] < keys.len(),
{
    broadcast use group_to_multiset_ensures;

    assert forall|i: int| 0 <= i < after.len() implies after[i] < keys.len() by {
        assert(after.contains(after[i]));
        assert(after.to_multiset().count(after[i]) > 0);
        assert(before.contains(after[i]));
    }
}

/// The items at the positions `picks`.
pub open spec fn picked<T>(items: Seq<T>, picks: Seq<usize>) -> Seq<T> {
    Seq::new(picks.len(), |i: int| items[picks[i] as int])
}

/// The sum of `weight` over the positions `s`.
pub open spec fn weight_sum(s: Seq<usize>, weight: spec_fn(usize) -> nat) -> nat
    decreases s.len(),
{
    if s.len() == 0 {
        0
    } else {
        weight_sum(s.drop_last(), weight) + weight(s.last())
    }
}

proof fn lemma_weight_sum_remove(s: Seq<usize>, weight: spec_fn(usize) -> nat, i: int)
    requires
        0 <= i < s.len(),
    ensures
        weight_sum(s, weight) == weight_sum(s.remove(i), weight) + weight(s[i]),
    decreases s.len(),
{
    if i == s.len() - 1 {
        assert(s.remove(i) =~= s.drop_last());
    } else {
        lemma_weight_sum_remove(s.drop_last(), weight, i);
        assert(s.remove(i).drop_last() =~= s.drop_last().remove(i));
        assert(s.remove(i).last() == s.last());
    }
}

/// A sum does not depend on the order of its terms.
pub(crate) proof fn lemma_weight_sum_permuted(s: Seq<usize>, t: Seq<usize>, weight: spec_fn(usize) -> nat)
    requires
        s.to_multiset() == t.to_multiset(),
    ensures
        weight_sum(s, weight) == weight_sum(t, weight),
    decreases s.len(),
{
    broadcast use group_to_multiset_ensures;

    if s.len() == 0 {
        assert(t.len() == 0) by {
            assert(t.to_multiset().len() == t.len());
            assert(s.to_multiset().len() == s.len());
        }
    } else {
        let x = s.last();
        assert(s.to_multiset().count(x) > 0) by {
            assert(s.contains(x));
        }
        assert(t.contains(x));
        let i = choose|i: int| 0 <= i < t.len() && t[i] == x;
        assert(s.drop_last() =~= s.remove(s.len() - 1));
        assert(s.drop_last().to_multiset() =~= t.remove(i).to_multiset());
        lemma_weight_sum_permuted(s.drop_last(), t.remove(i), weight);
        lemma_weight_sum_remove(t, weight, i);
    }
}

/// Items picked in another order are the same items.
pub(crate) proof fn lemma_picked_permuted<T>(items: Seq<T>, s: Seq<usize>, t: Seq<usize>)
    requires
        s.to_multiset() == t.to_multiset(),
    ensures
        picked(items, s).to_multiset() == picked(items, t).to_multiset(),
    decreases s.len(),
{
    broadcast use group_to_multiset_ensures;

    assert(t.to_multiset().len() == t.len());
    assert(s.to_multiset().len() == s.len());
    if s.len() == 0 {
        assert(picked(items, s) =~= picked(items, t));
    } else {
        let x = s.last();
        assert(s.to_multiset().count(x) > 0) by {
            assert(s.contains(x));
        }
        assert(t.contains(x));
        let i = choose|i: int| 0 <= i < t.len() && t[i] == x;
        assert(s.drop_last() =~= s.remove(s.len() - 1));
        assert(s.drop_last().to_multiset() =~= t.remove(i).to_multiset());
        lemma_picked_permuted(items, s.drop_last(), t.remove(i));
        assert(picked(items, s) =~= picked(items, s.drop_last()).push(items[x as int]));
        assert(picked(items, t.remove(i)) =~= picked(items, t).remove(i));
        assert(picked(items, t).to_multiset() =~= picked(items, t).remove(i).to_multiset().insert(
            items[x as int],
        ));
    }
}

/// The positions `0..n`.
pub open spec fn all_positions(n: nat) -> Seq<usize> {
    Seq::new(n, |i: int| i as usize)
}

/// All positions in the order of their keys.
pub open spec fn sorted_positions(keys: Seq<(u64, u64)>) -> Seq<usize> {
    all_positions(keys.len()).sort_by(key_order(keys))
}

/// The sorted positions are the positions, each once.
pub proof fn sorted_positions_are_all(keys: Seq<(u64, u64)>)
    requires
        keys.len() <= usize::MAX,
    ensures
        sorted_positions(keys).len() == keys.len(),
        sorted_positions(keys).no_duplicates(),
        forall|i: int| 0 <= i < keys.len() ==> #[trigger] sorted_positions(keys)[i] < keys.len(),
        sorted_positions(keys).to_multiset() == all_positions(keys.len()).to_multiset(),
{
    broadcast use group_to_multiset_ensures;

    let n = keys.len();
    let picks = all_positions(n);
    let leq = key_order(keys);
    let sorted = sorted_positions(keys);
    key_order_is_total(keys);
    picks.lemma_sort_by_ensures(leq);
    assert(picks.to_multiset().len() == picks.len());
    assert(sorted.to_multiset().len() == sorted.len());
    assert(picks.no_duplicates());
    picks.lemma_multiset_has_no_duplicates();
    assert forall|x: usize| sorted.to_multiset().contains(x) implies sorted.to_multiset().count(x)
        == 1 by {}
    sorted.lemma_multiset_has_no_duplicates_conv();
    assert forall|i: int| 0 <= i < n implies #[trigger] sorted[i] < n by {
        assert(sorted.contains(sorted[i]));
        assert(sorted.to_multiset().count(sorted[i]) > 0);
        assert(picks.contains(sorted[i]));
    }
}

/// Sorting rearranges: every item stays, as often as it was there.
pub proof fn sorting_keeps_items<T>(items: Seq<T>, keys: Seq<(u64, u64)>)
    requires
        keys.len() == items.len(),
        items.len() <= usize::MAX,
    ensures
        picked(items, sorted_positions(keys)).len() == items.len(),
        picked(items, sorted_positions(keys)).to_multiset() == items.to_multiset(),
{
    sorted_positions_are_all(keys);
    lemma_picked_permuted(items, sorted_positions(keys), all_positions(items.len()));
    assert(picked(items, all_positions(items.len())) =~= items);
}

/// Sorts items by keys that are given for them; equal keys keep their order.
pub fn sort_items<T>(items: Vec<T>, keys: &Vec<(u64, u64)>) -> (sorted: Vec<T>)
    requires
        keys@.len() == items@.len(),
    ensures
        sorted@ == picked(items@, sorted_positions(keys@)),
{
    let ghost all = items@;
    let n: usize = items.len();
    let mut picks: Vec<usize> = Vec::new();
    for i in 0..n
        invariant
            picks@ == all_positions(i as nat),
    {
        picks.push(i);
        assert(picks@ =~= all_positions((i + 1) as nat));
    }
    proof {
        sorted_positions_are_all(keys@);
    }
    let order: Vec<usize> = sort_picks(keys, picks);
    let mut slots: Vec<Option<T>> = Vec::new();
    for item in it: items
        invariant
            it.seq() == all,
            slots@.len() == it.index(),
            forall|j: int| 0 <= j < it.index() ==> #[trigger] slots@[j] == Some(all[j]),
    {
        slots.push(Some(item));
    }
    let mut sorted: Vec<T> = Vec::new();
    for i in 0..n
        invariant
            n == all.len(),
            order@.len() == n,
            order@.no_duplicates(),
            forall|i: int| 0 <= i < n ==> #[trigger] order@[i] < n,
            slots@.len() == n,
            sorted@ == picked(all, order@).take(i as int),
            forall|j: int|
                i <= j < n ==> #[trigger] slots@[order@[j] as int] == Some(all[order@[j] as int]),
    {
        let position: usize = order[i];
        let ghost before = slots@;
        assert(before[order@[i as int] as int] == Some(all[position as int]));
        let item: Option<T> = slots[position].take();
        sorted.push(item.unwrap());
        proof {
            assert(sorted@ =~= picked(all, order@).take(i + 1));
            assert forall|j: int| i + 1 <= j < n implies #[trigger] slots@[order@[j] as int]
                == Some(all[order@[j] as int]) by {
                assert(order@[j] != order@[i as int]);
                assert(before[order@[j] as int] == Some(all[order@[j] as int]));
            }
        }
    }
    assert(picked(all, order@).take(n as int) =~= picked(all, order@));
    sorted
}

} // verus!
