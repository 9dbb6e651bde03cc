//! Insertion sort of a vector by integer keys that are kept beside it.

use vstd::prelude::*;
use vstd::seq_lib::{to_multiset_insert, to_multiset_remove};

verus! {

/// No two items of the sequence have the same key.
pub open spec fn keys_distinct<T>(items: Seq<T>, key: spec_fn(T) -> int) -> bool {
    forall|a: int, b: int|
        0 <= a < items.len() && 0 <= b < items.len() && a != b ==> key(items[a]) != key(items[b])
}

/// The keys of the items ascend, repetitions allowed.
pub open spec fn keys_ordered<T>(items: Seq<T>, key: spec_fn(T) -> int) -> bool {
    forall|a: int, b: int| 0 <= a < b < items.len() ==> key(items[a]) <= key(items[b])
}

/// `keys` holds the key of each item, in order.
pub open spec fn keys_match<T>(items: Seq<T>, keys: Seq<i64>, key: spec_fn(T) -> int) -> bool {
    &&& items.len() == keys.len()
    &&& forall|k: int| 0 <= k < items.len() ==> keys[k] == key(#[trigger] items[k])
}

/// Moving the item at `from` down to `to` keeps the items and says where each
/// one went.
proof fn lemma_move<T>(s: Seq<T>, from: int, to: int)
    requires
        0 <= to <= from < s.len(),
    ensures
        s.remove(from).insert(to, s[from]).len() == s.len(),
        s.remove(from).insert(to, s[from]).to_multiset() == s.to_multiset(),
        forall|k: int|
            0 <= k < s.len() ==> #[trigger] s.remove(from).insert(to, s[from])[k] == s[if k < to {
                k
            } else if k == to {
                from
            } else if k <= from {
                k - 1
            } else {
                k
            }],
{
    broadcast use vstd::multiset::group_multiset_axioms;

    let cut = s.remove(from);
    let moved = cut.insert(to, s[from]);
    s.remove_ensures(from);
    cut.insert_ensures(to, s[from]);
    to_multiset_remove(s, from);
    to_multiset_insert(cut, to, s[from]);
    s.to_multiset_ensures();
    assert(s.contains(s[from]));
    assert(moved.to_multiset() =~= s.to_multiset());
}

/// Sorts `items` by their keys, ascending, moving each item down past the
/// items of greater key; `keys` is carried along.
pub(crate) fn sort_by_keys<T, V>(
    items: &mut Vec<T>,
    keys: &mut Vec<i64>,
    Ghost(key): Ghost<spec_fn(T) -> int>,
    Ghost(content): Ghost<spec_fn(T) -> V>,
)
    requires
        keys_match(old(items)@, old(keys)@, key),
    ensures
        keys_match(final(items)@, final(keys)@, key),
        final(items)@.len() == old(items)@.len(),
        final(items)@.to_multiset() == old(items)@.to_multiset(),
        final(items)@.map_values(content).to_multiset() == old(items)@.map_values(
            content,
        ).to_multiset(),
        keys_ordered(final(items)@, key),
        keys_distinct(old(items)@, key) ==> keys_distinct(final(items)@, key),
        forall|k: int|
            0 <= k < final(items)@.len() ==> old(items)@.contains(#[trigger] final(items)@[k]),
        forall|k: int|
            0 <= k < old(items)@.len() ==> final(items)@.contains(#[trigger] old(items)@[k]),
{
    let ghost before = items@;
    let n: usize = items.len();
    let mut j: usize = 0;
    while j < n
        invariant
            j <= n,
            items.len() == n,
            keys_match(items@, keys@, key),
            items@.to_multiset() == before.to_multiset(),
            items@.map_values(content).to_multiset() == before.map_values(content).to_multiset(),
            forall|a: int, b: int| 0 <= a < b < j ==> keys@[a] <= keys@[b],
            keys_distinct(before, key) ==> keys_distinct(items@, key),
        decreases n - j,
    {
        let moving: i64 = keys[j];
        let mut i: usize = j;
        while i > 0 && keys[i - 1] > moving
            invariant
                i <= j < n,
                keys.len() == n,
                forall|k: int| i <= k < j ==> keys@[k] > moving,
            decreases i,
        {
            i = i - 1;
        }
        if i < j {
            let ghost held = items@;
            let ghost held_keys = keys@;
            proof {
                lemma_move(held, j as int, i as int);
                lemma_move(held_keys, j as int, i as int);
                lemma_move(held.map_values(content), j as int, i as int);
            }
            let item = items.remove(j);
            items.insert(i, item);
            let k: i64 = keys.remove(j);
            keys.insert(i, k);
            proof {
                assert(items@.map_values(content) =~= held.map_values(content).remove(
                    j as int,
                ).insert(i as int, held.map_values(content)[j as int]));
                assert forall|a: int, b: int|
                    0 <= a < items@.len() && 0 <= b < items@.len() && a != b && keys_distinct(
                        held,
                        key,
                    ) implies key(items@[a]) != key(items@[b]) by {
                    let from_a = if a < i { a } else if a == i { j as int } else if a <= j { a - 1 } else { a };
                    let from_b = if b < i { b } else if b == i { j as int } else if b <= j { b - 1 } else { b };
                    assert(items@[a] == held[from_a]);
                    assert(items@[b] == held[from_b]);
                }
                assert forall|a: int, b: int| 0 <= a < b < j + 1 implies keys@[a] <= keys@[b] by {
                    let from_a = if a < i { a } else if a == i { j as int } else { a - 1 };
                    let from_b = if b < i { b } else if b == i { j as int } else { b - 1 };
                    assert(keys@[a] == held_keys[from_a]);
                    assert(keys@[b] == held_keys[from_b]);
                    if b == i {
                        if i > 0 {
                            assert(held_keys[a] <= held_keys[i as int - 1]);
                        }
                    }
                }
            }
        }
        j = j + 1;
    }
    proof {
        before.to_multiset_ensures();
        items@.to_multiset_ensures();
        assert forall|k: int| 0 <= k < items@.len() implies before.contains(
            #[trigger] items@[k],
        ) by {
            assert(items@.contains(items@[k]));
            assert(items@.to_multiset().count(items@[k]) > 0);
            assert(before.to_multiset().count(items@[k]) > 0);
        }
        assert forall|k: int| 0 <= k < before.len() implies items@.contains(
            #[trigger] before[k],
        ) by {
            assert(before.contains(before[k]));
            assert(before.to_multiset().count(before[k]) > 0);
            assert(items@.to_multiset().count(before[k]) > 0);
        }
    }
}

} // verus!
