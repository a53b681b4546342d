//! Putting a list in the order of keys that were drawn for its entries.

use vstd::prelude::*;

verus! {

/// Entry `a` comes before entry `b`: its key is smaller, or the keys are
/// equal and it stood first.
pub open spec fn key_before(keys: Seq<u64>, a: int, b: int) -> bool {
    keys[a] < keys[b] || (keys[a] == keys[b] && a < b)
}

/// `order` names every position of a list of `len` entries exactly once.
pub open spec fn is_permutation(order: Seq<int>, len: int) -> bool {
    &&& order.len() == len
    &&& forall|i: int| 0 <= i < order.len() ==> 0 <= #[trigger] order[i] < len
    &&& forall|i: int, j: int|
        0 <= i < j < order.len() ==> #[trigger] order[i] != #[trigger] order[j]
    &&& forall|position: int| 0 <= position < len ==> #[trigger] order.contains(position)
}

/// `order` lists the positions of `keys` by ascending key, and positions
/// with equal keys as they stood.
pub open spec fn is_key_order(keys: Seq<u64>, order: Seq<int>) -> bool {
    &&& is_permutation(order, keys.len() as int)
    &&& forall|i: int, j: int|
        0 <= i < j < order.len() ==> key_before(keys, #[trigger] order[i], #[trigger] order[j])
}

/// The entries of `items` in the order `order`.
pub open spec fn arranged<A>(items: Seq<A>, order: Seq<int>) -> Seq<A> {
    Seq::new(order.len(), |i: int| items[order[i]])
}

/// The keys of a list of keyed entries.
pub open spec fn keys_of<T>(keyed: Seq<(u64, T)>) -> Seq<u64> {
    keyed.map_values(|entry: (u64, T)| entry.0)
}

/// The entries of a list of keyed entries, without their keys.
pub open spec fn items_of<T>(keyed: Seq<(u64, T)>) -> Seq<T> {
    keyed.map_values(|entry: (u64, T)| entry.1)
}

/// Two orders by the same keys agree on their first `upto` places.
proof fn lemma_key_orders_agree(keys: Seq<u64>, one: Seq<int>, other: Seq<int>, upto: int)
    requires
        is_key_order(keys, one),
        is_key_order(keys, other),
        0 <= upto <= keys.len(),
    ensures
        forall|i: int| 0 <= i < upto ==> one[i] == other[i],
    decreases upto,
{
    if upto > 0 {
        let at = upto - 1;
        lemma_key_orders_agree(keys, one, other, at);
        if one[at] != other[at] {
            // Each of the two positions stands somewhere in the other order,
            // and neither place can be before or behind `at`.
            assert(other.contains(one[at]));
            let there = choose|k: int| 0 <= k < other.len() && other[k] == one[at];
            assert(one.contains(other[at]));
            let here = choose|k: int| 0 <= k < one.len() && one[k] == other[at];
            if there < at {
                assert(one[there] == other[there]);
                assert(one[there] != one[at]);
            }
            if here < at {
                assert(other[here] == one[here]);
                assert(other[here] != other[at]);
            }
            assert(key_before(keys, other[at], other[there]));
            assert(key_before(keys, one[at], one[here]));
        }
    }
}

/// The keys leave no choice: there is one order by them only.
pub proof fn lemma_key_order_unique(keys: Seq<u64>, one: Seq<int>, other: Seq<int>)
    requires
        is_key_order(keys, one),
        is_key_order(keys, other),
    ensures
        one == other,
{
    lemma_key_orders_agree(keys, one, other, keys.len() as int);
    assert(one =~= other);
}

/// Finds the entry that comes before all others.
fn first_smallest<T>(keyed: &Vec<(u64, T)>) -> (best: usize)
    requires
        keyed.len() > 0,
    ensures
        best < keyed.len(),
        forall|k: int| 0 <= k < best ==> keyed[best as int].0 < (#[trigger] keyed[k]).0,
        forall|k: int| best < k < keyed.len() ==> keyed[best as int].0 <= (#[trigger] keyed[k]).0,
{
    let mut best: usize = 0;
    let mut k: usize = 1;
    while k < keyed.len()
        invariant
            best < k <= keyed.len(),
            forall|j: int| 0 <= j < best ==> keyed[best as int].0 < (#[trigger] keyed[j]).0,
            forall|j: int| best < j < k ==> keyed[best as int].0 <= (#[trigger] keyed[j]).0,
        decreases keyed.len() - k,
    {
        if keyed[k].0 < keyed[best].0 {
            best = k;
        }
        k += 1;
    }
    best
}

/// Sorts the entries by their keys; entries with equal keys stay as they
/// stood.
pub fn sort_by_keys<T>(keyed: Vec<(u64, T)>) -> (sorted: Vec<T>)
    ensures
        exists|order: Seq<int>|
            is_key_order(keys_of(keyed@), order) && sorted@ == arranged(items_of(keyed@), order),
{
    let ghost keys = keys_of(keyed@);
    let ghost items = items_of(keyed@);
    let ghost mut left: Seq<int> = Seq::new(keyed@.len(), |i: int| i);
    let ghost mut done: Seq<int> = Seq::empty();
    let mut keyed = keyed;
    let mut sorted: Vec<T> = Vec::new();
    proof {
        assert forall|position: int| 0 <= position < keys.len() implies left.contains(position) by {
            assert(left[position] == position);
        }
    }
    while keyed.len() > 0
        invariant
            keys.len() == items.len(),
            left.len() == keyed.len(),
            done.len() + left.len() == keys.len(),
            sorted.len() == done.len(),
            forall|k: int|
                0 <= k < left.len() ==> 0 <= #[trigger] left[k] < keys.len() && keyed[k].0
                    == keys[left[k]] && keyed[k].1 == items[left[k]],
            forall|a: int, b: int| 0 <= a < b < left.len() ==> #[trigger] left[a] < #[trigger] left[b],
            forall|position: int|
                0 <= position < keys.len() ==> #[trigger] done.contains(position) || left.contains(
                    position,
                ),
            forall|i: int|
                0 <= i < done.len() ==> 0 <= #[trigger] done[i] < keys.len() && sorted[i]
                    == items[done[i]],
            forall|i: int, j: int|
                0 <= i < j < done.len() ==> key_before(keys, #[trigger] done[i], #[trigger] done[j]),
            forall|i: int, k: int|
                0 <= i < done.len() && 0 <= k < left.len() ==> key_before(
                    keys,
                    #[trigger] done[i],
                    #[trigger] left[k],
                ),
        decreases keyed.len(),
    {
        let best = first_smallest(&keyed);
        let ghost taken = left[best as int];
        proof {
            assert forall|k: int| 0 <= k < left.len() && k != best implies key_before(
                keys,
                taken,
                #[trigger] left[k],
            ) by {
                assert(keyed[k].0 == keys[left[k]]);
                if k < best {
                    assert(left[k] < left[best as int]);
                } else {
                    assert(left[best as int] < left[k]);
                }
            }
        }
        let entry = keyed.remove(best);
        sorted.push(entry.1);
        proof {
            let ghost left_before = left;
            let ghost done_before = done;
            done = done.push(taken);
            left = left.remove(best as int);
            assert forall|position: int| 0 <= position < keys.len() implies #[trigger] done.contains(
                position,
            ) || left.contains(position) by {
                if done_before.contains(position) {
                    let i = choose|i: int| 0 <= i < done_before.len() && done_before[i] == position;
                    assert(done[i] == position);
                } else {
                    assert(left_before.contains(position));
                    let k = choose|k: int| 0 <= k < left_before.len() && left_before[k] == position;
                    if k < best {
                        assert(left[k] == position);
                    } else if k == best {
                        assert(done[done.len() - 1] == position);
                    } else {
                        assert(left[k - 1] == position);
                    }
                }
            }
        }
    }
    proof {
        assert forall|i: int, j: int| 0 <= i < j < done.len() implies #[trigger] done[i]
            != #[trigger] done[j] by {
            assert(key_before(keys, done[i], done[j]));
        }
        assert forall|position: int| 0 <= position < keys.len() implies #[trigger] done.contains(
            position,
        ) by {
            if left.contains(position) {
                let k = choose|k: int| 0 <= k < left.len() && left[k] == position;
            }
        }
        assert(is_key_order(keys, done));
        assert(sorted@ =~= arranged(items, done));
    }
    sorted
}

} // verus!
