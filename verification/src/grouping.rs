//! Grouping of indexed items by key, in order of first appearance.
//!
//! Both stages of duplicate detection are instances of one operation: split a
//! list of item indices into groups of equal key, keeping the items of each
//! group in the order given and the groups in the order in which their
//! first item appears. This module states that operation and proves the three
//! ways in which such a grouping grows by one item.

use vstd::prelude::*;

verus! {

/// Each element is smaller than every later one.
pub open spec fn strictly_increasing(s: Seq<usize>) -> bool {
    forall|a: int, b: int| 0 <= a < b < s.len() ==> s[a] < s[b]
}

/// The key of item `x`; an item outside `keys`, or one whose entry is `None`,
/// has no key and takes no part in the grouping.
pub open spec fn key_of<K>(keys: Seq<Option<K>>, x: usize) -> Option<K> {
    if x < keys.len() {
        keys[x as int]
    } else {
        None
    }
}

/// `group` is a non-empty increasing run of items of `items` that all carry
/// the same key.
pub open spec fn is_group<K>(items: Seq<usize>, keys: Seq<Option<K>>, group: Seq<usize>) -> bool {
    &&& group.len() > 0
    &&& strictly_increasing(group)
    &&& key_of(keys, group[0]) is Some
    &&& forall|a: int|
        0 <= a < group.len() ==> items.contains(#[trigger] group[a]) && key_of(keys, group[a])
            == key_of(keys, group[0])
}

/// Some group holds `x`.
pub open spec fn covered(groups: Seq<Seq<usize>>, x: usize) -> bool {
    exists|g: int| 0 <= g < groups.len() && #[trigger] groups[g].contains(x)
}

/// `groups` is the grouping of `items` by key in order of first appearance:
/// every group is a run of equal-keyed items, different groups have different
/// keys and stand in the order of their first items, and every item that has
/// a key is in a group.
pub open spec fn is_grouping<K>(
    items: Seq<usize>,
    keys: Seq<Option<K>>,
    groups: Seq<Seq<usize>>,
) -> bool {
    &&& forall|g: int| 0 <= g < groups.len() ==> is_group(items, keys, #[trigger] groups[g])
    &&& forall|g: int, h: int|
        #![trigger groups[g], groups[h]]
        0 <= g < h < groups.len() ==> key_of(keys, groups[g][0]) != key_of(keys, groups[h][0])
            && groups[g][0] < groups[h][0]
    &&& forall|k: int|
        0 <= k < items.len() && key_of(keys, #[trigger] items[k]) is Some ==> covered(
            groups,
            items[k],
        )
}

/// Another item of `items` carries the key of `x`.
pub open spec fn has_twin<K>(items: Seq<usize>, keys: Seq<Option<K>>, x: usize) -> bool {
    exists|j: int|
        0 <= j < items.len() && #[trigger] items[j] != x && key_of(keys, items[j]) == key_of(
            keys,
            x,
        )
}

/// `groups` is the grouping of `items` by key with the groups of a single
/// item left out: every group has two items or more, and every item that
/// shares its key with another item is in a group.
pub open spec fn is_repeat_grouping<K>(
    items: Seq<usize>,
    keys: Seq<Option<K>>,
    groups: Seq<Seq<usize>>,
) -> bool {
    &&& forall|g: int|
        0 <= g < groups.len() ==> is_group(items, keys, #[trigger] groups[g]) && groups[g].len()
            >= 2
    &&& forall|g: int, h: int|
        #![trigger groups[g], groups[h]]
        0 <= g < h < groups.len() ==> key_of(keys, groups[g][0]) != key_of(keys, groups[h][0])
            && groups[g][0] < groups[h][0]
    &&& forall|k: int|
        0 <= k < items.len() && key_of(keys, #[trigger] items[k]) is Some && has_twin(
            items,
            keys,
            items[k],
        ) ==> covered(groups, items[k])
}

/// In a grouping, two different items of equal key stand in one group, which
/// therefore has two items or more.
pub proof fn lemma_twins_share_group<K>(
    items: Seq<usize>,
    keys: Seq<Option<K>>,
    groups: Seq<Seq<usize>>,
    x: usize,
    y: usize,
    g: int,
)
    requires
        is_grouping(items, keys, groups),
        items.contains(x),
        items.contains(y),
        x != y,
        key_of(keys, x) is Some,
        key_of(keys, x) == key_of(keys, y),
        0 <= g < groups.len(),
        groups[g].contains(x),
    ensures
        groups[g].contains(y),
        groups[g].len() >= 2,
{
    let ky = choose|k: int| 0 <= k < items.len() && items[k] == y;
    assert(covered(groups, items[ky]));
    let h = choose|h: int| 0 <= h < groups.len() && #[trigger] groups[h].contains(y);
    assert(is_group(items, keys, groups[g]));
    assert(is_group(items, keys, groups[h]));
    let a = choose|a: int| 0 <= a < groups[g].len() && groups[g][a] == x;
    let b = choose|b: int| 0 <= b < groups[h].len() && groups[h][b] == y;
    assert(key_of(keys, groups[g][a]) == key_of(keys, groups[g][0]));
    assert(key_of(keys, groups[h][b]) == key_of(keys, groups[h][0]));
    if g < h {
        assert(key_of(keys, groups[g][0]) != key_of(keys, groups[h][0]));
    }
    if h < g {
        assert(key_of(keys, groups[h][0]) != key_of(keys, groups[g][0]));
    }
    assert(g == h);
    assert(a != b);
}

/// Nothing grouped yet.
pub proof fn lemma_grouping_start<K>(items: Seq<usize>, keys: Seq<Option<K>>)
    ensures
        is_grouping(items.take(0), keys, Seq::<Seq<usize>>::empty()),
{
}

/// An item without a key leaves the grouping as it is.
pub proof fn lemma_grouping_skip<K>(
    items: Seq<usize>,
    keys: Seq<Option<K>>,
    groups: Seq<Seq<usize>>,
    k: int,
)
    requires
        0 <= k < items.len(),
        is_grouping(items.take(k), keys, groups),
        key_of(keys, items[k]) is None,
    ensures
        is_grouping(items.take(k + 1), keys, groups),
{
    let before = items.take(k);
    let after = items.take(k + 1);
    assert forall|x: usize| before.contains(x) implies after.contains(x) by {
        let j = choose|j: int| 0 <= j < before.len() && before[j] == x;
        assert(after[j] == x);
    }
    assert forall|g: int| 0 <= g < groups.len() implies is_group(
        after,
        keys,
        #[trigger] groups[g],
    ) by {
        assert(is_group(before, keys, groups[g]));
    }
    assert forall|j: int| 0 <= j < after.len() && key_of(keys, #[trigger] after[j]) is Some
        implies covered(groups, after[j]) by {
        assert(j < k);
        assert(before[j] == after[j]);
    }
}

/// An item whose key is that of group `g` joins that group at its end.
pub proof fn lemma_grouping_join<K>(
    items: Seq<usize>,
    keys: Seq<Option<K>>,
    groups: Seq<Seq<usize>>,
    k: int,
    g: int,
)
    requires
        0 <= k < items.len(),
        strictly_increasing(items),
        is_grouping(items.take(k), keys, groups),
        0 <= g < groups.len(),
        key_of(keys, items[k]) == key_of(keys, groups[g][0]),
    ensures
        is_grouping(items.take(k + 1), keys, groups.update(g, groups[g].push(items[k]))),
{
    let before = items.take(k);
    let after = items.take(k + 1);
    let x = items[k];
    let grown = groups[g].push(x);
    let next = groups.update(g, grown);
    assert(is_group(before, keys, groups[g]));
    assert(after[k] == x);
    assert forall|y: usize| before.contains(y) implies after.contains(y) && y < x by {
        let j = choose|j: int| 0 <= j < before.len() && before[j] == y;
        assert(after[j] == y);
        assert(items[j] == y);
    }
    assert forall|h: int| 0 <= h < next.len() implies is_group(after, keys, #[trigger] next[h]) by {
        assert(is_group(before, keys, groups[h]));
        if h == g {
            assert forall|a: int, b: int| 0 <= a < b < grown.len() implies grown[a] < grown[b] by {
                if b == groups[g].len() {
                    assert(before.contains(groups[g][a]));
                }
            }
            assert forall|a: int| 0 <= a < grown.len() implies after.contains(#[trigger] grown[a])
                && key_of(keys, grown[a]) == key_of(keys, grown[0]) by {
                if a < groups[g].len() {
                    assert(before.contains(groups[g][a]));
                }
            }
        } else {
            assert(next[h] == groups[h]);
            assert forall|a: int| 0 <= a < groups[h].len() implies after.contains(
                #[trigger] groups[h][a],
            ) by {
                assert(before.contains(groups[h][a]));
            }
        }
    }
    assert forall|p: int, q: int|
        #![trigger next[p], next[q]]
        0 <= p < q < next.len() implies key_of(keys, next[p][0]) != key_of(keys, next[q][0])
        && next[p][0] < next[q][0] by {
        assert(next[p][0] == groups[p][0]);
        assert(next[q][0] == groups[q][0]);
    }
    assert forall|j: int| 0 <= j < after.len() && key_of(keys, #[trigger] after[j]) is Some
        implies covered(next, after[j]) by {
        if j < k {
            assert(before[j] == after[j]);
            assert(covered(groups, before[j]));
            let h = choose|h: int|
                0 <= h < groups.len() && #[trigger] groups[h].contains(before[j]);
            let a = choose|a: int| 0 <= a < groups[h].len() && groups[h][a] == before[j];
            assert(next[h][a] == before[j]);
            assert(next[h].contains(after[j]));
        } else {
            assert(grown[groups[g].len() as int] == x);
            assert(next[g].contains(x));
        }
    }
}

/// An item whose key no group carries opens a new group after all others.
pub proof fn lemma_grouping_open<K>(
    items: Seq<usize>,
    keys: Seq<Option<K>>,
    groups: Seq<Seq<usize>>,
    k: int,
)
    requires
        0 <= k < items.len(),
        strictly_increasing(items),
        is_grouping(items.take(k), keys, groups),
        key_of(keys, items[k]) is Some,
        forall|g: int|
            0 <= g < groups.len() ==> key_of(keys, (#[trigger] groups[g])[0]) != key_of(
                keys,
                items[k],
            ),
    ensures
        is_grouping(items.take(k + 1), keys, groups.push(seq![items[k]])),
{
    let before = items.take(k);
    let after = items.take(k + 1);
    let x = items[k];
    let fresh = seq![x];
    let next = groups.push(fresh);
    assert(after[k] == x);
    assert forall|y: usize| before.contains(y) implies after.contains(y) && y < x by {
        let j = choose|j: int| 0 <= j < before.len() && before[j] == y;
        assert(after[j] == y);
        assert(items[j] == y);
    }
    assert forall|h: int| 0 <= h < next.len() implies is_group(after, keys, #[trigger] next[h]) by {
        if h < groups.len() {
            assert(is_group(before, keys, groups[h]));
            assert(next[h] == groups[h]);
            assert forall|a: int| 0 <= a < groups[h].len() implies after.contains(
                #[trigger] groups[h][a],
            ) by {
                assert(before.contains(groups[h][a]));
            }
        } else {
            assert(fresh[0] == x);
        }
    }
    assert forall|p: int, q: int|
        #![trigger next[p], next[q]]
        0 <= p < q < next.len() implies key_of(keys, next[p][0]) != key_of(keys, next[q][0])
        && next[p][0] < next[q][0] by {
        assert(is_group(before, keys, groups[p]));
        if q == groups.len() {
            assert(before.contains(groups[p][0]));
        }
    }
    assert forall|j: int| 0 <= j < after.len() && key_of(keys, #[trigger] after[j]) is Some
        implies covered(next, after[j]) by {
        if j < k {
            assert(before[j] == after[j]);
            assert(covered(groups, before[j]));
            let h = choose|h: int|
                0 <= h < groups.len() && #[trigger] groups[h].contains(before[j]);
            assert(next[h].contains(after[j]));
        } else {
            assert(fresh[0] == x);
            assert(next[groups.len() as int].contains(x));
        }
    }
}

} // verus!
