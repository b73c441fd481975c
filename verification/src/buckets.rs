//! Size bucketing: the cheap first stage that decides which files are worth
//! hashing at all.

use crate::grouping::{
    covered, has_twin, is_group, is_grouping, key_of, lemma_grouping_join, lemma_grouping_open,
    lemma_grouping_start,
};
use crate::record::{all_indices, size_keys, FileRecord};
use std::collections::HashMap;
use vstd::prelude::*;

verus! {

broadcast use vstd::std_specs::hash::group_hash_axioms;

/// The files of one size: indices into the record list, in order.
#[derive(Clone, Debug, PartialEq, Eq)]
pub struct SizeBucket {
    pub size: u64,
    pub members: Vec<usize>,
}

/// The member lists of a sequence of buckets.
pub open spec fn bucket_members(buckets: Seq<SizeBucket>) -> Seq<Seq<usize>> {
    Seq::new(buckets.len(), |b: int| buckets[b].members@)
}

/// `buckets` is the size bucketing of `records`: the grouping of all record
/// indices by size in order of first appearance, each bucket labelled with
/// the size its members share.
pub open spec fn is_size_bucketing(records: Seq<FileRecord>, buckets: Seq<SizeBucket>) -> bool {
    &&& is_grouping(all_indices(records.len()), size_keys(records), bucket_members(buckets))
    &&& forall|b: int|
        0 <= b < buckets.len() ==> records[(#[trigger] buckets[b]).members@[0] as int].size
            == buckets[b].size
}

/// Buckets the records by size. One pass over the records.
pub fn bucket_by_size(records: &Vec<FileRecord>) -> (buckets: Vec<SizeBucket>)
    ensures
        is_size_bucketing(records@, buckets@),
{
    let n = records.len();
    let ghost items = all_indices(records@.len());
    let ghost keys = size_keys(records@);
    let mut buckets: Vec<SizeBucket> = Vec::new();
    let mut slot_of: HashMap<u64, usize> = HashMap::new();
    let mut i: usize = 0;
    proof {
        lemma_grouping_start(items, keys);
        assert(bucket_members(buckets@) =~= Seq::<Seq<usize>>::empty());
    }
    while i < n
        invariant
            i <= n,
            n == records@.len(),
            items == all_indices(records@.len()),
            keys == size_keys(records@),
            is_grouping(items.take(i as int), keys, bucket_members(buckets@)),
            forall|b: int|
                0 <= b < buckets@.len() ==> {
                    &&& (#[trigger] buckets@[b]).members@.len() > 0
                    &&& buckets@[b].members@[0] < n
                    &&& records@[buckets@[b].members@[0] as int].size == buckets@[b].size
                    &&& slot_of@.contains_key(buckets@[b].size)
                    &&& slot_of@[buckets@[b].size] == b
                },
            forall|s: u64|
                slot_of@.contains_key(s) ==> slot_of@[s] < buckets@.len()
                    && buckets@[slot_of@[s] as int].size == s,
        decreases n - i,
    {
        let size = records[i].size;
        let ghost before = bucket_members(buckets@);
        assert(items[i as int] == i);
        assert(key_of(keys, i) == Some(size));
        match slot_of.get(&size) {
            Some(slot) => {
                let b = *slot;
                buckets[b].members.push(i);
                proof {
                    assert(key_of(keys, before[b as int][0]) == Some(size));
                    lemma_grouping_join(items, keys, before, i as int, b as int);
                    assert(bucket_members(buckets@) =~= before.update(
                        b as int,
                        before[b as int].push(i),
                    ));
                }
            },
            None => {
                let mut members: Vec<usize> = Vec::new();
                members.push(i);
                slot_of.insert(size, buckets.len());
                buckets.push(SizeBucket { size, members });
                proof {
                    assert forall|g: int| 0 <= g < before.len() implies key_of(
                        keys,
                        (#[trigger] before[g])[0],
                    ) != key_of(keys, items[i as int]) by {
                        assert(buckets@[g].size != size);
                    }
                    lemma_grouping_open(items, keys, before, i as int);
                    assert(bucket_members(buckets@) =~= before.push(seq![i]));
                }
            },
        }
        i += 1;
    }
    assert(items.take(n as int) =~= items);
    buckets
}

/// Some record of size `a` stands before every record of size `b`.
pub open spec fn size_seen_before(records: Seq<FileRecord>, a: u64, b: u64) -> bool {
    exists|i: int|
        0 <= i < records.len() && (#[trigger] records[i]).size == a && forall|j: int|
            0 <= j < records.len() && (#[trigger] records[j]).size == b ==> i < j
}

/// Record `x` comes before record `y` in bucket order: by first appearance of
/// their sizes and, for one size, by position. Files are hashed and groups
/// are reported in this order.
pub open spec fn reported_before(records: Seq<FileRecord>, x: usize, y: usize) -> bool {
    if records[x as int].size == records[y as int].size {
        x < y
    } else {
        size_seen_before(records, records[x as int].size, records[y as int].size)
    }
}

/// A record of a bucket's size is a member of that bucket.
pub proof fn lemma_bucket_holds_its_size(
    records: Seq<FileRecord>,
    buckets: Seq<SizeBucket>,
    b: int,
    j: int,
)
    requires
        is_size_bucketing(records, buckets),
        0 <= b < buckets.len(),
        0 <= j < records.len(),
        records[j].size == buckets[b].size,
        records.len() <= usize::MAX,
    ensures
        bucket_members(buckets)[b].contains(j as usize),
{
    let items = all_indices(records.len());
    let keys = size_keys(records);
    let all = bucket_members(buckets);
    assert(items[j] == j as usize);
    assert(key_of(keys, items[j]) == Some(records[j].size));
    assert(covered(all, items[j]));
    let c = choose|c: int| 0 <= c < all.len() && #[trigger] all[c].contains(j as usize);
    let a = choose|a: int| 0 <= a < all[c].len() && all[c][a] == j as usize;
    assert(is_group(items, keys, all[c]));
    assert(is_group(items, keys, all[b]));
    assert(key_of(keys, all[c][a]) == key_of(keys, all[c][0]));
    assert(items.contains(all[b][0]));
    assert(key_of(keys, all[b][0]) == Some(buckets[b].size));
    if c < b {
        assert(key_of(keys, all[c][0]) != key_of(keys, all[b][0]));
    }
    if b < c {
        assert(key_of(keys, all[b][0]) != key_of(keys, all[c][0]));
    }
}

/// Every member of a bucket is a record of the bucket's size.
pub proof fn lemma_member_has_bucket_size(
    records: Seq<FileRecord>,
    buckets: Seq<SizeBucket>,
    b: int,
    x: usize,
)
    requires
        is_size_bucketing(records, buckets),
        0 <= b < buckets.len(),
        bucket_members(buckets)[b].contains(x),
    ensures
        x < records.len(),
        records[x as int].size == buckets[b].size,
        bucket_members(buckets)[b][0] <= x,
{
    let items = all_indices(records.len());
    let keys = size_keys(records);
    let all = bucket_members(buckets);
    let a = choose|a: int| 0 <= a < all[b].len() && all[b][a] == x;
    assert(is_group(items, keys, all[b]));
    assert(key_of(keys, all[b][a]) == key_of(keys, all[b][0]));
    assert(items.contains(all[b][0]));
    assert(key_of(keys, all[b][0]) == Some(buckets[b].size));
}

/// Members of an earlier bucket differ in size from those of a later one
/// and come before them in bucket order.
pub proof fn lemma_buckets_in_scan_order(
    records: Seq<FileRecord>,
    buckets: Seq<SizeBucket>,
    c: int,
    b: int,
    x: usize,
    y: usize,
)
    requires
        records.len() <= usize::MAX,
        is_size_bucketing(records, buckets),
        0 <= c < b < buckets.len(),
        buckets[c].members@.contains(x),
        buckets[b].members@.contains(y),
    ensures
        records[x as int].size != records[y as int].size,
        reported_before(records, x, y),
{
    let items = all_indices(records.len());
    let skeys = size_keys(records);
    let all = bucket_members(buckets);
    assert(all[c] == buckets[c].members@);
    assert(all[b] == buckets[b].members@);
    lemma_member_has_bucket_size(records, buckets, c, x);
    lemma_member_has_bucket_size(records, buckets, b, y);
    assert(is_group(items, skeys, all[c]));
    assert(is_group(items, skeys, all[b]));
    let first = all[c][0];
    assert(all[c].contains(first));
    assert(all[b].contains(all[b][0]));
    lemma_member_has_bucket_size(records, buckets, c, first);
    lemma_member_has_bucket_size(records, buckets, b, all[b][0]);
    assert(key_of(skeys, all[c][0]) != key_of(skeys, all[b][0]));
    assert(buckets[c].size != buckets[b].size);
    assert(all[c][0] < all[b][0]);
    assert forall|j: int|
        0 <= j < records.len() && (#[trigger] records[j]).size == buckets[b].size implies (
    first as int) < j by {
        lemma_bucket_holds_its_size(records, buckets, b, j);
        lemma_member_has_bucket_size(records, buckets, b, j as usize);
    }
    assert(records[first as int].size == buckets[c].size);
    assert(size_seen_before(records, buckets[c].size, buckets[b].size));
}

/// `plan` lists the records whose content must be hashed: exactly those that
/// share their size with another record, each once, in bucket order.
pub open spec fn is_hashing_plan(records: Seq<FileRecord>, plan: Seq<usize>) -> bool {
    let items = all_indices(records.len());
    let keys = size_keys(records);
    &&& forall|a: int|
        0 <= a < plan.len() ==> (#[trigger] plan[a]) < records.len() && has_twin(
            items,
            keys,
            plan[a],
        )
    &&& forall|a: int, b: int|
        0 <= a < b < plan.len() ==> reported_before(records, #[trigger] plan[a], #[trigger] plan[b])
    &&& forall|i: int|
        0 <= i < items.len() && has_twin(items, keys, #[trigger] items[i]) ==> plan.contains(
            items[i],
        )
}

impl SizeBucket {
    /// Whether the bucket can hold duplicates at all: a bucket of a single
    /// file cannot, and its file is never hashed.
    pub fn needs_hashing(&self) -> (b: bool)
        ensures
            b == (self.members@.len() >= 2),
    {
        self.members.len() >= 2
    }
}

/// What holds of the plan gathered from the first `done` buckets; `home`
/// tells for each entry the bucket it came from.
spec fn is_partial_plan(
    buckets: Seq<SizeBucket>,
    done: int,
    plan: Seq<usize>,
    home: Seq<int>,
) -> bool {
    &&& home.len() == plan.len()
    &&& forall|a: int|
        0 <= a < plan.len() ==> 0 <= #[trigger] home[a] < done && buckets[home[a]].members@.len()
            >= 2 && buckets[home[a]].members@.contains(plan[a])
    &&& forall|a: int, b: int|
        0 <= a < b < plan.len() ==> #[trigger] home[a] <= #[trigger] home[b] && (home[a] == home[b]
            ==> plan[a] < plan[b])
    &&& forall|c: int, t: int|
        0 <= c < done && 0 <= t < buckets[c].members@.len() && buckets[c].members@.len() >= 2
            ==> plan.contains(#[trigger] buckets[c].members@[t])
}

proof fn lemma_partial_plan_done(
    records: Seq<FileRecord>,
    buckets: Seq<SizeBucket>,
    plan: Seq<usize>,
    home: Seq<int>,
)
    requires
        records.len() <= usize::MAX,
        is_size_bucketing(records, buckets),
        is_partial_plan(buckets, buckets.len() as int, plan, home),
    ensures
        is_hashing_plan(records, plan),
{
    let items = all_indices(records.len());
    let keys = size_keys(records);
    let all = bucket_members(buckets);
    assert forall|a: int| 0 <= a < plan.len() implies (#[trigger] plan[a]) < records.len()
        && has_twin(items, keys, plan[a]) by {
        let c = home[a];
        let here = buckets[c].members@;
        assert(all[c] == here);
        lemma_member_has_bucket_size(records, buckets, c, plan[a]);
        assert(is_group(items, keys, here));
        let other = if here[0] == plan[a] {
            here[1]
        } else {
            here[0]
        };
        assert(here.contains(other));
        lemma_member_has_bucket_size(records, buckets, c, other);
        assert(items[other as int] == other);
    }
    assert forall|a: int, b: int| 0 <= a < b < plan.len() implies reported_before(
        records,
        #[trigger] plan[a],
        #[trigger] plan[b],
    ) by {
        assert(all[home[a]] == buckets[home[a]].members@);
        assert(all[home[b]] == buckets[home[b]].members@);
        if home[a] == home[b] {
            lemma_member_has_bucket_size(records, buckets, home[a], plan[a]);
            lemma_member_has_bucket_size(records, buckets, home[b], plan[b]);
        } else {
            lemma_buckets_in_scan_order(records, buckets, home[a], home[b], plan[a], plan[b]);
        }
    }
    assert forall|i: int| 0 <= i < items.len() && has_twin(items, keys, #[trigger] items[i])
        implies plan.contains(items[i]) by {
        let x = items[i];
        let j = choose|j: int|
            0 <= j < items.len() && #[trigger] items[j] != x && key_of(keys, items[j]) == key_of(
                keys,
                x,
            );
        assert(covered(all, items[i]));
        let c = choose|c: int| 0 <= c < all.len() && #[trigger] all[c].contains(x);
        assert(all[c] == buckets[c].members@);
        lemma_member_has_bucket_size(records, buckets, c, x);
        lemma_bucket_holds_its_size(records, buckets, c, j);
        let t = choose|t: int| 0 <= t < all[c].len() && all[c][t] == x;
        let u = choose|u: int| 0 <= u < all[c].len() && all[c][u] == items[j];
        assert(t != u);
        assert(plan.contains(buckets[c].members@[t]));
    }
}

/// The records whose content must be hashed to resolve the duplicates among
/// `records`. A record whose size no other record has is not among them.
pub fn hashing_plan(records: &Vec<FileRecord>) -> (plan: Vec<usize>)
    ensures
        is_hashing_plan(records@, plan@),
{
    let n = records.len();
    let buckets = bucket_by_size(records);
    let mut plan: Vec<usize> = Vec::new();
    let ghost mut home: Seq<int> = Seq::empty();
    let mut b: usize = 0;
    while b < buckets.len()
        invariant
            b <= buckets@.len(),
            n == records@.len(),
            is_size_bucketing(records@, buckets@),
            is_partial_plan(buckets@, b as int, plan@, home),
        decreases buckets@.len() - b,
    {
        if buckets[b].needs_hashing() {
            let ghost plan0 = plan@;
            let ghost home0 = home;
            let ghost here = buckets@[b as int].members@;
            proof {
                assert(bucket_members(buckets@)[b as int] == here);
                assert(is_group(all_indices(records@.len()), size_keys(records@), here));
            }
            let mut t: usize = 0;
            while t < buckets[b].members.len()
                invariant
                    b < buckets@.len(),
                    here == buckets@[b as int].members@,
                    here.len() >= 2,
                    t <= here.len(),
                    plan@ == plan0 + here.take(t as int),
                    home == home0 + Seq::new(t as nat, |a: int| b as int),
                decreases here.len() - t,
            {
                plan.push(buckets[b].members[t]);
                proof {
                    home = home.push(b as int);
                    assert(here.take(t as int + 1) =~= here.take(t as int).push(here[t as int]));
                    assert(home =~= home0 + Seq::new((t + 1) as nat, |a: int| b as int));
                }
                t += 1;
            }
            proof {
                assert(here.take(here.len() as int) =~= here);
                let plan2 = plan@;
                assert forall|a: int| 0 <= a < plan2.len() implies 0 <= #[trigger] home[a] < b + 1
                    && buckets@[home[a]].members@.len() >= 2 && buckets@[home[a]].members@.contains(
                    plan2[a],
                ) by {
                    if a < plan0.len() {
                        assert(home[a] == home0[a]);
                        assert(plan2[a] == plan0[a]);
                    } else {
                        assert(plan2[a] == here[a - plan0.len()]);
                    }
                }
                assert forall|a: int, c: int| 0 <= a < c < plan2.len() implies #[trigger] home[a]
                    <= #[trigger] home[c] && (home[a] == home[c] ==> plan2[a] < plan2[c]) by {
                    if c < plan0.len() {
                        assert(home[a] == home0[a] && home[c] == home0[c]);
                        assert(plan2[a] == plan0[a] && plan2[c] == plan0[c]);
                    } else if a < plan0.len() {
                        assert(home[a] == home0[a]);
                    } else {
                        assert(plan2[a] == here[a - plan0.len()]);
                        assert(plan2[c] == here[c - plan0.len()]);
                    }
                }
                assert forall|c: int, u: int|
                    0 <= c < b + 1 && 0 <= u < buckets@[c].members@.len()
                        && buckets@[c].members@.len() >= 2 implies plan2.contains(
                    #[trigger] buckets@[c].members@[u],
                ) by {
                    if c < b {
                        let a = choose|a: int|
                            0 <= a < plan0.len() && plan0[a] == buckets@[c].members@[u];
                        assert(plan2[a] == plan0[a]);
                    } else {
                        assert(plan2[plan0.len() + u] == here[u]);
                    }
                }
            }
        }
        b += 1;
    }
    proof {
        lemma_partial_plan_done(records@, buckets@, plan@, home);
    }
    plan
}

} // verus!
