//! Confirmation of duplicates inside one size bucket, by content digest.

use crate::buckets::SizeBucket;
use crate::digest::{fingerprint_of, Digest};
use crate::grouping::{
    covered, has_twin, is_group, is_grouping, is_repeat_grouping, key_of, lemma_grouping_join,
    lemma_grouping_open, lemma_grouping_skip, lemma_grouping_start, lemma_twins_share_group,
    strictly_increasing,
};
use crate::record::FileRecord;
use std::collections::HashMap;
use vstd::prelude::*;

verus! {

broadcast use vstd::std_specs::hash::group_hash_axioms;

/// The files of one size bucket that share a digest: indices into the
/// record list, in order.
#[derive(Clone, Debug, PartialEq, Eq)]
pub struct HashBucket {
    pub digest: Digest,
    pub members: Vec<usize>,
}

/// A confirmed set of duplicates: two files or more of one size and one
/// digest, as indices into the record list, in order.
#[derive(Clone, Debug, PartialEq, Eq)]
pub struct DuplicateGroup {
    pub size: u64,
    pub digest: Digest,
    pub members: Vec<usize>,
}

impl DuplicateGroup {
    /// The paths of the group's members among `records`, in order. `None` if
    /// some member is not an index into `records`.
    pub fn paths(&self, records: &Vec<FileRecord>) -> (paths: Option<Vec<String>>)
        ensures
            match paths {
                Some(p) => {
                    &&& p@.len() == self.members@.len()
                    &&& forall|k: int|
                        0 <= k < p@.len() ==> #[trigger] self.members@[k] < records@.len()
                    &&& forall|k: int|
                        0 <= k < p@.len() ==> (#[trigger] p@[k])@
                            == records@[self.members@[k] as int].path@
                },
                None => exists|k: int|
                    0 <= k < self.members@.len() && #[trigger] self.members@[k] >= records@.len(),
            },
    {
        let mut paths: Vec<String> = Vec::new();
        let mut k: usize = 0;
        while k < self.members.len()
            invariant
                k <= self.members@.len(),
                paths@.len() == k,
                forall|j: int| 0 <= j < k ==> #[trigger] self.members@[j] < records@.len(),
                forall|j: int|
                    0 <= j < k ==> (#[trigger] paths@[j])@
                        == records@[self.members@[j] as int].path@,
            decreases self.members@.len() - k,
        {
            let m = self.members[k];
            if m >= records.len() {
                return None;
            }
            paths.push(records[m].path.clone());
            k += 1;
        }
        Some(paths)
    }
}

/// The digest outcomes as grouping keys: record `i` has the key `Some(d@)`
/// where its content was hashed to `d`, and none where it was not. The
/// contracts of both stages speak of outcomes in this form.
pub open spec fn digest_keys(digests: Seq<Option<Digest>>) -> Seq<Option<Seq<u8>>> {
    Seq::new(
        digests.len(),
        |i: int|
            match digests[i] {
                Some(d) => Some(d@),
                None => None,
            },
    )
}

/// The member lists of a sequence of hash buckets.
pub open spec fn hash_bucket_members(buckets: Seq<HashBucket>) -> Seq<Seq<usize>> {
    Seq::new(buckets.len(), |b: int| buckets[b].members@)
}

/// The member lists of a sequence of duplicate groups.
pub open spec fn group_members(groups: Seq<DuplicateGroup>) -> Seq<Seq<usize>> {
    Seq::new(groups.len(), |g: int| groups[g].members@)
}

/// `buckets` is the digest bucketing of `members`: the grouping of those
/// members that have a digest, by digest, in order of first appearance, each
/// bucket labelled with the digest its members share.
pub open spec fn is_digest_bucketing(
    members: Seq<usize>,
    outcomes: Seq<Option<Seq<u8>>>,
    buckets: Seq<HashBucket>,
) -> bool {
    &&& is_grouping(members, outcomes, hash_bucket_members(buckets))
    &&& forall|b: int|
        0 <= b < buckets.len() ==> key_of(outcomes, (#[trigger] buckets[b]).members@[0]) == Some(
            buckets[b].digest@,
        )
}

/// `groups` are the duplicates confirmed inside `bucket`: the grouping by
/// digest of those members that have one, without the groups of a single
/// file, each group labelled with the bucket's size and its members' digest.
pub open spec fn is_confirmation(
    bucket: SizeBucket,
    outcomes: Seq<Option<Seq<u8>>>,
    groups: Seq<DuplicateGroup>,
) -> bool {
    &&& is_repeat_grouping(bucket.members@, outcomes, group_members(groups))
    &&& forall|g: int|
        0 <= g < groups.len() ==> (#[trigger] groups[g]).size == bucket.size && key_of(
            outcomes,
            groups[g].members@[0],
        ) == Some(groups[g].digest@)
}

/// Buckets `members` by digest. A member without a digest, be it `None` or
/// beyond the end of `digests`, enters no bucket.
///
/// The bucket of a digest is looked up by the digest's fingerprint, which
/// leads to the first bucket that has it; from there on digests are compared
/// in full.
pub fn bucket_by_digest(members: &Vec<usize>, digests: &Vec<Option<Digest>>) -> (buckets: Vec<
    HashBucket,
>)
    requires
        strictly_increasing(members@),
    ensures
        is_digest_bucketing(members@, digest_keys(digests@), buckets@),
{
    let ghost items = members@;
    let ghost keys = digest_keys(digests@);
    let mut buckets: Vec<HashBucket> = Vec::new();
    let mut first_with: HashMap<u64, usize> = HashMap::new();
    let mut k: usize = 0;
    proof {
        lemma_grouping_start(items, keys);
        assert(hash_bucket_members(buckets@) =~= Seq::<Seq<usize>>::empty());
    }
    while k < members.len()
        invariant
            k <= members@.len(),
            items == members@,
            keys == digest_keys(digests@),
            strictly_increasing(items),
            is_grouping(items.take(k as int), keys, hash_bucket_members(buckets@)),
            forall|b: int|
                0 <= b < buckets@.len() ==> (#[trigger] buckets@[b]).members@.len() > 0 && key_of(
                    keys,
                    buckets@[b].members@[0],
                ) == Some(buckets@[b].digest@),
            forall|b: int|
                0 <= b < buckets@.len() ==> first_with@.contains_key(
                    fingerprint_of((#[trigger] buckets@[b]).digest@) as u64,
                ) && first_with@[fingerprint_of(buckets@[b].digest@) as u64] <= b,
            forall|p: u64|
                first_with@.contains_key(p) ==> #[trigger] first_with@[p] < buckets@.len(),
        decreases members@.len() - k,
    {
        let m = members[k];
        let ghost before = hash_bucket_members(buckets@);
        let outcome: Option<Digest> = if m < digests.len() {
            digests[m]
        } else {
            None
        };
        match outcome {
            None => {
                proof {
                    lemma_grouping_skip(items, keys, before, k as int);
                }
            },
            Some(d) => {
                assert(key_of(keys, m) == Some(d@));
                let print = d.fingerprint();
                let (indexed, start) = match first_with.get(&print) {
                    Some(first) => (true, *first),
                    None => (false, buckets.len()),
                };
                let mut b: usize = start;
                let mut found = false;
                while b < buckets.len() && !found
                    invariant
                        b <= buckets@.len(),
                        found ==> b < buckets@.len() && buckets@[b as int].digest@ == d@,
                        forall|c: int| 0 <= c < b ==> (#[trigger] buckets@[c]).digest@ != d@,
                    decreases buckets@.len() - b + if found { 0int } else { 1int },
                {
                    if buckets[b].digest.same_as(&d) {
                        found = true;
                    } else {
                        b += 1;
                    }
                }
                if found {
                    buckets[b].members.push(m);
                    proof {
                        lemma_grouping_join(items, keys, before, k as int, b as int);
                        assert(hash_bucket_members(buckets@) =~= before.update(
                            b as int,
                            before[b as int].push(m),
                        ));
                    }
                } else {
                    let mut fresh: Vec<usize> = Vec::new();
                    fresh.push(m);
                    if !indexed {
                        first_with.insert(print, buckets.len());
                    }
                    buckets.push(HashBucket { digest: d, members: fresh });
                    proof {
                        assert forall|g: int| 0 <= g < before.len() implies key_of(
                            keys,
                            (#[trigger] before[g])[0],
                        ) != key_of(keys, items[k as int]) by {
                            assert(buckets@[g].digest@ != d@);
                        }
                        lemma_grouping_open(items, keys, before, k as int);
                        assert(hash_bucket_members(buckets@) =~= before.push(seq![m]));
                    }
                }
            },
        }
        k += 1;
    }
    assert(items.take(members@.len() as int) =~= items);
    buckets
}

/// Confirms the duplicates inside one size bucket. Reads the digests of the
/// bucket's members only; a bucket of a single file is settled without
/// reading any.
pub fn confirm_bucket(bucket: &SizeBucket, digests: &Vec<Option<Digest>>) -> (groups: Vec<
    DuplicateGroup,
>)
    requires
        strictly_increasing(bucket.members@),
    ensures
        is_confirmation(*bucket, digest_keys(digests@), groups@),
{
    let ghost items = bucket.members@;
    let ghost keys = digest_keys(digests@);
    let mut groups: Vec<DuplicateGroup> = Vec::new();
    if bucket.members.len() < 2 {
        assert(is_repeat_grouping(items, keys, group_members(groups@)));
        return groups;
    }
    let candidates = bucket_by_digest(&bucket.members, digests);
    let ghost found = candidates@;
    let ghost all = hash_bucket_members(candidates@);
    let ghost mut origin: Seq<int> = Seq::empty();
    for hb in it: candidates
        invariant
            it.seq() == found,
            all == hash_bucket_members(found),
            is_digest_bucketing(items, keys, found),
            keys == digest_keys(digests@),
            origin.len() == groups@.len(),
            forall|o: int|
                0 <= o < origin.len() ==> {
                    &&& 0 <= #[trigger] origin[o] < it.index()
                    &&& groups@[o].members@ == all[origin[o]]
                    &&& groups@[o].digest == found[origin[o]].digest
                    &&& groups@[o].size == bucket.size
                    &&& all[origin[o]].len() >= 2
                },
            forall|o: int, p: int| 0 <= o < p < origin.len() ==> origin[o] < origin[p],
            forall|h: int|
                0 <= h < it.index() && (#[trigger] all[h]).len() >= 2 ==> exists|o: int|
                    0 <= o < origin.len() && origin[o] == h,
    {
        let ghost h = it.index() as int;
        assert(hb == found[h]);
        if hb.members.len() >= 2 {
            groups.push(
                DuplicateGroup { size: bucket.size, digest: hb.digest, members: hb.members },
            );
            proof {
                let ghost prev = origin;
                origin = origin.push(h);
                assert forall|g: int| 0 <= g < h && (#[trigger] all[g]).len() >= 2 implies exists|
                    o: int,
                |
                    0 <= o < origin.len() && origin[o] == g by {
                    let o = choose|o: int| 0 <= o < prev.len() && prev[o] == g;
                    assert(origin[o] == g);
                }
                assert(origin[prev.len() as int] == h);
            }
        }
    }
    proof {
        let out = group_members(groups@);
        assert forall|g: int| 0 <= g < out.len() implies is_group(items, keys, #[trigger] out[g])
            && out[g].len() >= 2 by {
            assert(out[g] == all[origin[g]]);
        }
        assert forall|g: int, h: int|
            #![trigger out[g], out[h]]
            0 <= g < h < out.len() implies key_of(keys, out[g][0]) != key_of(keys, out[h][0])
            && out[g][0] < out[h][0] by {
            assert(out[g] == all[origin[g]]);
            assert(out[h] == all[origin[h]]);
        }
        assert forall|k: int|
            0 <= k < items.len() && key_of(keys, #[trigger] items[k]) is Some && has_twin(
                items,
                keys,
                items[k],
            ) implies covered(out, items[k]) by {
            let x = items[k];
            let j = choose|j: int|
                0 <= j < items.len() && #[trigger] items[j] != x && key_of(keys, items[j])
                    == key_of(keys, x);
            assert(covered(all, x));
            let h = choose|h: int| 0 <= h < all.len() && #[trigger] all[h].contains(x);
            lemma_twins_share_group(items, keys, all, x, items[j], h);
            let o = choose|o: int| 0 <= o < origin.len() && origin[o] == h;
            assert(out[o] == all[h]);
        }
        assert forall|g: int| 0 <= g < groups@.len() implies (#[trigger] groups@[g]).size
            == bucket.size && key_of(keys, groups@[g].members@[0]) == Some(groups@[g].digest@) by {
            assert(groups@[g].members@ == all[origin[g]]);
            assert(key_of(keys, found[origin[g]].members@[0]) == Some(found[origin[g]].digest@));
        }
    }
    groups
}

} // verus!
