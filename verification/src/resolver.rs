//! The duplicate resolver: from the complete list of file records and the
//! outcomes of their contents to the confirmed groups of duplicates.

use crate::buckets::{
    bucket_by_size, bucket_members, hashing_plan, is_hashing_plan, is_size_bucketing,
    lemma_bucket_holds_its_size, lemma_buckets_in_scan_order, lemma_member_has_bucket_size,
    reported_before, SizeBucket,
};
use crate::confirm::{confirm_bucket, digest_keys, group_members, is_confirmation, DuplicateGroup};
use crate::digest::{digest_of, sha256, Digest};
use crate::error::ScanError;
use crate::grouping::{covered, has_twin, is_group, key_of};
use crate::laws::{agree_on_shared_sizes, lemma_unshared_sizes_are_immaterial};
use crate::record::{all_indices, size_keys, FileRecord};
use vstd::prelude::*;

verus! {

/// What decides whether two files are duplicates, as a grouping key: record
/// `i` has the key `Some((size, digest))` where its content was hashed, and
/// none where it was not.
pub open spec fn content_keys(records: Seq<FileRecord>, outcomes: Seq<Option<Seq<u8>>>) -> Seq<
    Option<(u64, Seq<u8>)>,
> {
    Seq::new(
        records.len(),
        |i: int|
            if i < outcomes.len() {
                match outcomes[i] {
                    Some(d) => Some((records[i].size, d)),
                    None => None,
                }
            } else {
                None
            },
    )
}

/// `groups` are the duplicates among `records`, as lists of record indices:
/// every group holds two records or more of one size and one digest, no two
/// groups share size and digest, every record that shares size and digest
/// with another is in a group, and the groups stand in reporting order.
pub open spec fn is_duplicate_partition(
    records: Seq<FileRecord>,
    outcomes: Seq<Option<Seq<u8>>>,
    groups: Seq<Seq<usize>>,
) -> bool {
    let items = all_indices(records.len());
    let keys = content_keys(records, outcomes);
    &&& forall|g: int|
        0 <= g < groups.len() ==> is_group(items, keys, #[trigger] groups[g]) && groups[g].len()
            >= 2
    &&& forall|g: int, h: int|
        #![trigger groups[g], groups[h]]
        0 <= g < h < groups.len() ==> key_of(keys, groups[g][0]) != key_of(keys, groups[h][0])
            && reported_before(records, groups[g][0], groups[h][0])
    &&& forall|i: int|
        0 <= i < items.len() && key_of(keys, #[trigger] items[i]) is Some && has_twin(
            items,
            keys,
            items[i],
        ) ==> covered(groups, items[i])
}

/// `groups` is the resolution of `records` under `outcomes`: the duplicate
/// partition, each group labelled with the size and the digest of its
/// members.
pub open spec fn is_resolution(
    records: Seq<FileRecord>,
    outcomes: Seq<Option<Seq<u8>>>,
    groups: Seq<DuplicateGroup>,
) -> bool {
    &&& is_duplicate_partition(records, outcomes, group_members(groups))
    &&& forall|g: int|
        0 <= g < groups.len() ==> key_of(
            content_keys(records, outcomes),
            (#[trigger] groups[g]).members@[0],
        ) == Some((groups[g].size, groups[g].digest@))
}

/// Every group gathered so far is a run of two records or more of one
/// size and digest, labelled with both.
spec fn groups_are_sound(
    records: Seq<FileRecord>,
    outcomes: Seq<Option<Seq<u8>>>,
    groups: Seq<DuplicateGroup>,
) -> bool {
    let items = all_indices(records.len());
    let keys = content_keys(records, outcomes);
    forall|g: int|
        0 <= g < groups.len() ==> {
            &&& is_group(items, keys, (#[trigger] groups[g]).members@)
            &&& groups[g].members@.len() >= 2
            &&& key_of(keys, groups[g].members@[0]) == Some((groups[g].size, groups[g].digest@))
        }
}

/// Every group gathered so far came from one of the first `done` buckets;
/// `home` tells which.
spec fn groups_have_homes(
    buckets: Seq<SizeBucket>,
    done: int,
    groups: Seq<DuplicateGroup>,
    home: Seq<int>,
) -> bool {
    &&& home.len() == groups.len()
    &&& forall|g: int|
        0 <= g < home.len() ==> 0 <= #[trigger] home[g] < done
            && buckets[home[g]].members@.contains(groups[g].members@[0])
}

/// The groups gathered so far differ in size or digest and stand in
/// reporting order.
spec fn groups_are_ordered(
    records: Seq<FileRecord>,
    outcomes: Seq<Option<Seq<u8>>>,
    groups: Seq<DuplicateGroup>,
) -> bool {
    let keys = content_keys(records, outcomes);
    forall|g: int, h: int|
        #![trigger groups[g], groups[h]]
        0 <= g < h < groups.len() ==> key_of(keys, groups[g].members@[0]) != key_of(
            keys,
            groups[h].members@[0],
        ) && reported_before(records, groups[g].members@[0], groups[h].members@[0])
}

/// Every member of the first `done` buckets that shares size and digest
/// with another record is in a group.
spec fn buckets_are_settled(
    records: Seq<FileRecord>,
    outcomes: Seq<Option<Seq<u8>>>,
    buckets: Seq<SizeBucket>,
    done: int,
    groups: Seq<DuplicateGroup>,
) -> bool {
    let items = all_indices(records.len());
    let keys = content_keys(records, outcomes);
    forall|c: int, a: int|
        0 <= c < done && 0 <= a < buckets[c].members@.len() && key_of(
            keys,
            #[trigger] buckets[c].members@[a],
        ) is Some && has_twin(items, keys, buckets[c].members@[a]) ==> covered(
            group_members(groups),
            buckets[c].members@[a],
        )
}

/// What holds of the groups gathered from the first `done` buckets.
spec fn is_partial_resolution(
    records: Seq<FileRecord>,
    outcomes: Seq<Option<Seq<u8>>>,
    buckets: Seq<SizeBucket>,
    done: int,
    groups: Seq<DuplicateGroup>,
    home: Seq<int>,
) -> bool {
    &&& groups_are_sound(records, outcomes, groups)
    &&& groups_have_homes(buckets, done, groups, home)
    &&& groups_are_ordered(records, outcomes, groups)
    &&& buckets_are_settled(records, outcomes, buckets, done, groups)
}

/// Inside a bucket the content key of a member is its digest key paired
/// with the bucket's size.
proof fn lemma_keys_inside_bucket(
    records: Seq<FileRecord>,
    outcomes: Seq<Option<Seq<u8>>>,
    buckets: Seq<SizeBucket>,
    b: int,
    x: usize,
)
    requires
        is_size_bucketing(records, buckets),
        0 <= b < buckets.len(),
        buckets[b].members@.contains(x),
    ensures
        x < records.len(),
        all_indices(records.len()).contains(x),
        records[x as int].size == buckets[b].size,
        key_of(content_keys(records, outcomes), x) == (match key_of(outcomes, x) {
            Some(d) => Some((buckets[b].size, d)),
            None => None,
        }),
{
    assert(bucket_members(buckets)[b] == buckets[b].members@);
    lemma_member_has_bucket_size(records, buckets, b, x);
    assert(all_indices(records.len())[x as int] == x);
}

/// A group confirmed inside a bucket is a sound group of the whole.
proof fn lemma_confirmed_group_is_sound(
    records: Seq<FileRecord>,
    outcomes: Seq<Option<Seq<u8>>>,
    buckets: Seq<SizeBucket>,
    b: int,
    fresh: Seq<DuplicateGroup>,
    f: int,
)
    requires
        is_size_bucketing(records, buckets),
        0 <= b < buckets.len(),
        is_confirmation(buckets[b], outcomes, fresh),
        0 <= f < fresh.len(),
    ensures
        is_group(
            all_indices(records.len()),
            content_keys(records, outcomes),
            fresh[f].members@,
        ),
        fresh[f].members@.len() >= 2,
        key_of(content_keys(records, outcomes), fresh[f].members@[0]) == Some(
            (fresh[f].size, fresh[f].digest@),
        ),
        buckets[b].members@.contains(fresh[f].members@[0]),
{
    let items = all_indices(records.len());
    let keys = content_keys(records, outcomes);
    let dkeys = outcomes;
    let here = buckets[b].members@;
    let n = fresh[f].members@;
    assert(group_members(fresh)[f] == n);
    assert(is_group(here, dkeys, n));
    assert(here.contains(n[0]));
    lemma_keys_inside_bucket(records, outcomes, buckets, b, n[0]);
    assert forall|a: int| 0 <= a < n.len() implies items.contains(#[trigger] n[a]) && key_of(
        keys,
        n[a],
    ) == key_of(keys, n[0]) by {
        assert(here.contains(n[a]));
        lemma_keys_inside_bucket(records, outcomes, buckets, b, n[a]);
        assert(key_of(dkeys, n[a]) == key_of(dkeys, n[0]));
    }
}

/// A group from an earlier bucket is reported before a group from a later
/// one, and differs from it in size.
proof fn lemma_earlier_bucket_reports_first(
    records: Seq<FileRecord>,
    outcomes: Seq<Option<Seq<u8>>>,
    buckets: Seq<SizeBucket>,
    c: int,
    b: int,
    x: usize,
    y: usize,
)
    requires
        records.len() <= usize::MAX,
        is_size_bucketing(records, buckets),
        0 <= c < b < buckets.len(),
        buckets[c].members@.contains(x),
        buckets[b].members@.contains(y),
        key_of(content_keys(records, outcomes), x) is Some,
    ensures
        key_of(content_keys(records, outcomes), x) != key_of(content_keys(records, outcomes), y),
        reported_before(records, x, y),
{
    lemma_keys_inside_bucket(records, outcomes, buckets, c, x);
    lemma_keys_inside_bucket(records, outcomes, buckets, b, y);
    lemma_buckets_in_scan_order(records, buckets, c, b, x, y);
}

/// A member of a bucket that has a twin among all records has one inside
/// the bucket, and is therefore in a group confirmed there.
proof fn lemma_twin_is_confirmed(
    records: Seq<FileRecord>,
    outcomes: Seq<Option<Seq<u8>>>,
    buckets: Seq<SizeBucket>,
    b: int,
    fresh: Seq<DuplicateGroup>,
    a: int,
)
    requires
        records.len() <= usize::MAX,
        is_size_bucketing(records, buckets),
        0 <= b < buckets.len(),
        is_confirmation(buckets[b], outcomes, fresh),
        0 <= a < buckets[b].members@.len(),
        key_of(content_keys(records, outcomes), buckets[b].members@[a]) is Some,
        has_twin(
            all_indices(records.len()),
            content_keys(records, outcomes),
            buckets[b].members@[a],
        ),
    ensures
        covered(group_members(fresh), buckets[b].members@[a]),
{
    let items = all_indices(records.len());
    let keys = content_keys(records, outcomes);
    let dkeys = outcomes;
    let here = buckets[b].members@;
    let x = here[a];
    assert(here.contains(x));
    lemma_keys_inside_bucket(records, outcomes, buckets, b, x);
    let j = choose|j: int|
        0 <= j < items.len() && #[trigger] items[j] != x && key_of(keys, items[j]) == key_of(
            keys,
            x,
        );
    let y = items[j];
    assert(y == j as usize);
    assert(records[j].size == buckets[b].size);
    lemma_bucket_holds_its_size(records, buckets, b, j);
    assert(bucket_members(buckets)[b] == here);
    let t = choose|t: int| 0 <= t < here.len() && here[t] == y;
    assert(here[t] != x && key_of(dkeys, here[t]) == key_of(dkeys, x));
    assert(has_twin(here, dkeys, x));
    assert(key_of(dkeys, here[a]) is Some);
}

proof fn lemma_partial_resolution_grows(
    records: Seq<FileRecord>,
    outcomes: Seq<Option<Seq<u8>>>,
    buckets: Seq<SizeBucket>,
    done: int,
    groups: Seq<DuplicateGroup>,
    home: Seq<int>,
    fresh: Seq<DuplicateGroup>,
)
    requires
        records.len() <= usize::MAX,
        is_size_bucketing(records, buckets),
        0 <= done < buckets.len(),
        is_partial_resolution(records, outcomes, buckets, done, groups, home),
        is_confirmation(buckets[done], outcomes, fresh),
    ensures
        is_partial_resolution(
            records,
            outcomes,
            buckets,
            done + 1,
            groups + fresh,
            home + Seq::new(fresh.len(), |g: int| done),
        ),
{
    let keys = content_keys(records, outcomes);
    let dkeys = outcomes;
    let here = buckets[done].members@;
    let groups2 = groups + fresh;
    let home2 = home + Seq::new(fresh.len(), |g: int| done);
    let old_len = groups.len() as int;
    assert forall|g: int| 0 <= g < groups2.len() implies {
        &&& is_group(all_indices(records.len()), keys, (#[trigger] groups2[g]).members@)
        &&& groups2[g].members@.len() >= 2
        &&& key_of(keys, groups2[g].members@[0]) == Some((groups2[g].size, groups2[g].digest@))
    } by {
        if g < old_len {
            assert(groups2[g] == groups[g]);
        } else {
            assert(groups2[g] == fresh[g - old_len]);
            lemma_confirmed_group_is_sound(records, outcomes, buckets, done, fresh, g - old_len);
        }
    }
    assert(groups_are_sound(records, outcomes, groups2));
    assert forall|g: int| 0 <= g < home2.len() implies 0 <= #[trigger] home2[g] < done + 1
        && buckets[home2[g]].members@.contains(groups2[g].members@[0]) by {
        if g < old_len {
            assert(home2[g] == home[g]);
            assert(groups2[g] == groups[g]);
        } else {
            assert(groups2[g] == fresh[g - old_len]);
            lemma_confirmed_group_is_sound(records, outcomes, buckets, done, fresh, g - old_len);
        }
    }
    assert(groups_have_homes(buckets, done + 1, groups2, home2));
    assert forall|g: int, h: int|
        #![trigger groups2[g], groups2[h]]
        0 <= g < h < groups2.len() implies key_of(keys, groups2[g].members@[0]) != key_of(
        keys,
        groups2[h].members@[0],
    ) && reported_before(records, groups2[g].members@[0], groups2[h].members@[0]) by {
        if h < old_len {
            assert(groups2[g] == groups[g]);
            assert(groups2[h] == groups[h]);
        } else if g < old_len {
            assert(groups2[g] == groups[g]);
            assert(groups2[h] == fresh[h - old_len]);
            lemma_confirmed_group_is_sound(records, outcomes, buckets, done, fresh, h - old_len);
            lemma_earlier_bucket_reports_first(
                records,
                outcomes,
                buckets,
                home[g],
                done,
                groups[g].members@[0],
                fresh[h - old_len].members@[0],
            );
        } else {
            let p = fresh[g - old_len].members@;
            let q = fresh[h - old_len].members@;
            assert(groups2[g] == fresh[g - old_len]);
            assert(groups2[h] == fresh[h - old_len]);
            lemma_confirmed_group_is_sound(records, outcomes, buckets, done, fresh, g - old_len);
            lemma_confirmed_group_is_sound(records, outcomes, buckets, done, fresh, h - old_len);
            lemma_keys_inside_bucket(records, outcomes, buckets, done, p[0]);
            lemma_keys_inside_bucket(records, outcomes, buckets, done, q[0]);
            assert(group_members(fresh)[g - old_len] == p);
            assert(group_members(fresh)[h - old_len] == q);
            assert(key_of(dkeys, p[0]) != key_of(dkeys, q[0]));
            assert(p[0] < q[0]);
        }
    }
    assert(groups_are_ordered(records, outcomes, groups2));
    let out = group_members(groups);
    let new = group_members(fresh);
    let out2 = group_members(groups2);
    assert forall|c: int, a: int|
        0 <= c < done + 1 && 0 <= a < buckets[c].members@.len() && key_of(
            keys,
            #[trigger] buckets[c].members@[a],
        ) is Some && has_twin(all_indices(records.len()), keys, buckets[c].members@[a])
        implies covered(out2, buckets[c].members@[a]) by {
        let x = buckets[c].members@[a];
        if c < done {
            assert(covered(out, x));
            let g = choose|g: int| 0 <= g < out.len() && #[trigger] out[g].contains(x);
            assert(out2[g] == out[g]);
        } else {
            lemma_twin_is_confirmed(records, outcomes, buckets, done, fresh, a);
            let g = choose|g: int| 0 <= g < new.len() && #[trigger] new[g].contains(x);
            assert(out2[old_len + g] == new[g]);
        }
    }
    assert(buckets_are_settled(records, outcomes, buckets, done + 1, groups2));
}

proof fn lemma_partial_resolution_done(
    records: Seq<FileRecord>,
    outcomes: Seq<Option<Seq<u8>>>,
    buckets: Seq<SizeBucket>,
    groups: Seq<DuplicateGroup>,
    home: Seq<int>,
)
    requires
        records.len() <= usize::MAX,
        is_size_bucketing(records, buckets),
        is_partial_resolution(records, outcomes, buckets, buckets.len() as int, groups, home),
    ensures
        is_resolution(records, outcomes, groups),
{
    let items = all_indices(records.len());
    let keys = content_keys(records, outcomes);
    let skeys = size_keys(records);
    let all = bucket_members(buckets);
    let out = group_members(groups);
    assert forall|g: int| 0 <= g < out.len() implies is_group(items, keys, #[trigger] out[g])
        && out[g].len() >= 2 by {
        assert(out[g] == groups[g].members@);
    }
    assert forall|g: int, h: int|
        #![trigger out[g], out[h]]
        0 <= g < h < out.len() implies key_of(keys, out[g][0]) != key_of(keys, out[h][0])
        && reported_before(records, out[g][0], out[h][0]) by {
        assert(out[g] == groups[g].members@);
        assert(out[h] == groups[h].members@);
    }
    assert forall|i: int|
        0 <= i < items.len() && key_of(keys, #[trigger] items[i]) is Some && has_twin(
            items,
            keys,
            items[i],
        ) implies covered(out, items[i]) by {
        assert(key_of(skeys, items[i]) is Some);
        assert(covered(all, items[i]));
        let c = choose|c: int| 0 <= c < all.len() && #[trigger] all[c].contains(items[i]);
        let a = choose|a: int| 0 <= a < all[c].len() && all[c][a] == items[i];
        assert(buckets[c].members@[a] == items[i]);
    }
}

/// Resolves the duplicates among `records`, given for each record the
/// digest of its content where it was hashed. `digests[i]` belongs to
/// `records[i]`; `None`, or an index at which `digests` has ended, stands for
/// a file that could not be hashed, which then enters no group.
///
/// Only the digests of records that share their size with another record
/// are read.
pub fn resolve(records: &Vec<FileRecord>, digests: &Vec<Option<Digest>>) -> (groups: Vec<
    DuplicateGroup,
>)
    ensures
        is_resolution(records@, digest_keys(digests@), groups@),
{
    let n = records.len();
    let buckets = bucket_by_size(records);
    let mut groups: Vec<DuplicateGroup> = Vec::new();
    let ghost mut home: Seq<int> = Seq::empty();
    let mut b: usize = 0;
    while b < buckets.len()
        invariant
            b <= buckets@.len(),
            n == records@.len(),
            is_size_bucketing(records@, buckets@),
            is_partial_resolution(
                records@,
                digest_keys(digests@),
                buckets@,
                b as int,
                groups@,
                home,
            ),
        decreases buckets@.len() - b,
    {
        proof {
            assert(is_group(
                all_indices(records@.len()),
                size_keys(records@),
                bucket_members(buckets@)[b as int],
            ));
        }
        let mut confirmed = confirm_bucket(&buckets[b], digests);
        proof {
            lemma_partial_resolution_grows(
                records@,
                digest_keys(digests@),
                buckets@,
                b as int,
                groups@,
                home,
                confirmed@,
            );
            home = home + Seq::new(confirmed@.len(), |g: int| b as int);
        }
        groups.append(&mut confirmed);
        b += 1;
    }
    proof {
        lemma_partial_resolution_done(
            records@,
            digest_keys(digests@),
            buckets@,
            groups@,
            home,
        );
    }
    groups
}

/// What hashing every readable content would give: record `i` has the
/// outcome `Some(sha256(c))` where its content `c` is present, and none
/// where it is `None` or `contents` has ended.
pub open spec fn content_digests(contents: Seq<Option<Seq<u8>>>) -> Seq<Option<Seq<u8>>> {
    Seq::new(
        contents.len(),
        |i: int|
            match contents[i] {
                Some(c) => Some(sha256(c)),
                None => None,
            },
    )
}

/// The contents as byte strings: `Some(c@)` where content `c` is present.
pub open spec fn content_views(contents: Seq<Option<Vec<u8>>>) -> Seq<Option<Seq<u8>>> {
    Seq::new(
        contents.len(),
        |i: int|
            match contents[i] {
                Some(c) => Some(c@),
                None => None,
            },
    )
}

/// Hashes the content of a file held in memory. A content that could not be
/// read is a `HashFailure`; an empty content has a digest like any other.
pub fn hash_content(content: &Option<Vec<u8>>) -> (outcome: Result<Digest, ScanError>)
    ensures
        match outcome {
            Ok(d) => content is Some && d@ == sha256(content->0@),
            Err(e) => content is None && e == ScanError::HashFailure,
        },
{
    match content {
        Some(bytes) => Ok(digest_of(bytes.as_slice())),
        None => Err(ScanError::HashFailure),
    }
}

/// The outcome of resolving a set of files held in memory.
#[derive(Clone, Debug, PartialEq, Eq)]
pub struct Scan {
    /// The confirmed groups of duplicates, in reporting order.
    pub groups: Vec<DuplicateGroup>,
    /// The records whose content was looked at, in the order in which it was
    /// done. No other content was read or hashed.
    pub examined: Vec<usize>,
}

/// Resolves the duplicates among files held in memory. `contents[i]` is the
/// content of `records[i]`; `None`, or an index at which `contents` has
/// ended, stands for a file that cannot be read, which then enters no group.
///
/// Hashes the contents named by the hashing plan and no others.
pub fn find_duplicates(records: &Vec<FileRecord>, contents: &Vec<Option<Vec<u8>>>) -> (scan: Scan)
    ensures
        is_resolution(records@, content_digests(content_views(contents@)), scan.groups@),
        is_hashing_plan(records@, scan.examined@),
{
    let n = records.len();
    let plan = hashing_plan(records);
    let mut digests: Vec<Option<Digest>> = Vec::new();
    let mut i: usize = 0;
    while i < n
        invariant
            i <= n,
            digests@.len() == i,
            forall|j: int| 0 <= j < i ==> digests@[j] is None,
        decreases n - i,
    {
        digests.push(None);
        i += 1;
    }
    let ghost wanted = content_digests(content_views(contents@));
    let mut k: usize = 0;
    while k < plan.len()
        invariant
            k <= plan@.len(),
            n == records@.len(),
            digests@.len() == n,
            wanted == content_digests(content_views(contents@)),
            is_hashing_plan(records@, plan@),
            forall|j: int|
                0 <= j < n ==> #[trigger] digests@[j] is None || key_of(
                    digest_keys(digests@),
                    j as usize,
                ) == key_of(wanted, j as usize),
            forall|a: int|
                0 <= a < k ==> key_of(digest_keys(digests@), #[trigger] plan@[a]) == key_of(
                    wanted,
                    plan@[a],
                ),
        decreases plan@.len() - k,
    {
        let m = plan[k];
        if m < contents.len() {
            match hash_content(&contents[m]) {
                Ok(d) => {
                    digests.set(m, Some(d));
                },
                Err(_) => {},
            }
        }
        k += 1;
    }
    let groups = resolve(records, &digests);
    proof {
        let items = all_indices(records@.len());
        assert forall|j: int|
            0 <= j < records@.len() && has_twin(
                items,
                size_keys(records@),
                #[trigger] items[j],
            ) implies key_of(digest_keys(digests@), j as usize) == key_of(wanted, j as usize) by {
            assert(plan@.contains(items[j]));
            let a = choose|a: int| 0 <= a < plan@.len() && plan@[a] == items[j];
            assert(plan@[a] == j as usize);
        }
        assert(agree_on_shared_sizes(records@, digest_keys(digests@), wanted));
        lemma_unshared_sizes_are_immaterial(records@, digest_keys(digests@), wanted, groups@);
    }
    Scan { groups, examined: plan }
}

} // verus!
