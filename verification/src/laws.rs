//! What holds of every resolution, proved from the contracts of the two
//! stages: which files are grouped, which are not, what need not be hashed,
//! and that the answer is determined by the input.

use crate::buckets::{is_hashing_plan, reported_before, size_seen_before};
use crate::confirm::{group_members, DuplicateGroup};
use crate::digest::sha256;
use crate::grouping::{covered, has_twin, is_group, key_of, strictly_increasing};
use crate::record::{all_indices, size_keys, FileRecord};
use crate::resolver::{content_digests, content_keys, is_duplicate_partition, is_resolution};
use vstd::prelude::*;

verus! {

/// Two outcome lists agree wherever a digest matters: on every record that
/// shares its size with another record.
pub open spec fn agree_on_shared_sizes(
    records: Seq<FileRecord>,
    first: Seq<Option<Seq<u8>>>,
    second: Seq<Option<Seq<u8>>>,
) -> bool {
    forall|i: int|
        0 <= i < records.len() && has_twin(
            all_indices(records.len()),
            size_keys(records),
            #[trigger] all_indices(records.len())[i],
        ) ==> key_of(first, i as usize) == key_of(second, i as usize)
}

/// Two records of equal content key are twins in size, so outcome lists that
/// agree on shared sizes give both the same content key.
proof fn lemma_content_twins_are_size_twins(
    records: Seq<FileRecord>,
    first: Seq<Option<Seq<u8>>>,
    second: Seq<Option<Seq<u8>>>,
    x: usize,
    y: usize,
)
    requires
        records.len() <= usize::MAX,
        agree_on_shared_sizes(records, first, second),
        x < records.len(),
        y < records.len(),
        x != y,
        records[x as int].size == records[y as int].size,
    ensures
        key_of(content_keys(records, first), x) == key_of(content_keys(records, second), x),
        key_of(content_keys(records, first), y) == key_of(content_keys(records, second), y),
{
    let items = all_indices(records.len());
    let skeys = size_keys(records);
    assert(items[x as int] == x);
    assert(items[y as int] == y);
    assert(items[y as int] != x && key_of(skeys, items[y as int]) == key_of(skeys, x));
    assert(has_twin(items, skeys, items[x as int]));
    assert(items[x as int] != y && key_of(skeys, items[x as int]) == key_of(skeys, y));
    assert(has_twin(items, skeys, items[y as int]));
}

/// The size pre-filter loses nothing: the digest of a file whose size no
/// other file has is immaterial. If two outcome lists agree on every record
/// that shares its size with another, a resolution under one is a
/// resolution under the other.
pub proof fn lemma_unshared_sizes_are_immaterial(
    records: Seq<FileRecord>,
    first: Seq<Option<Seq<u8>>>,
    second: Seq<Option<Seq<u8>>>,
    groups: Seq<DuplicateGroup>,
)
    requires
        records.len() <= usize::MAX,
        agree_on_shared_sizes(records, first, second),
        is_resolution(records, first, groups),
    ensures
        is_resolution(records, second, groups),
{
    let items = all_indices(records.len());
    let k1 = content_keys(records, first);
    let k2 = content_keys(records, second);
    let out = group_members(groups);
    // Every member of a group has the same content key under both lists.
    assert forall|g: int, a: int| 0 <= g < out.len() && 0 <= a < out[g].len() implies key_of(
        k1,
        #[trigger] out[g][a],
    ) == key_of(k2, out[g][a]) by {
        assert(is_group(items, k1, out[g]));
        let other = if a == 0 {
            1
        } else {
            0
        };
        assert(items.contains(out[g][a]));
        assert(items.contains(out[g][other]));
        assert(key_of(k1, out[g][other]) == key_of(k1, out[g][0]));
        assert(key_of(k1, out[g][a]) == key_of(k1, out[g][0]));
        assert(out[g][a] != out[g][other]);
        lemma_content_twins_are_size_twins(records, first, second, out[g][a], out[g][other]);
    }
    assert forall|g: int| 0 <= g < out.len() implies is_group(items, k2, #[trigger] out[g])
        && out[g].len() >= 2 by {
        assert(is_group(items, k1, out[g]));
        assert(key_of(k1, out[g][0]) == key_of(k2, out[g][0]));
        assert forall|a: int| 0 <= a < out[g].len() implies items.contains(#[trigger] out[g][a])
            && key_of(k2, out[g][a]) == key_of(k2, out[g][0]) by {
            assert(key_of(k1, out[g][a]) == key_of(k2, out[g][a]));
        }
    }
    assert forall|g: int, h: int|
        #![trigger out[g], out[h]]
        0 <= g < h < out.len() implies key_of(k2, out[g][0]) != key_of(k2, out[h][0])
        && reported_before(records, out[g][0], out[h][0]) by {
        assert(is_group(items, k1, out[g]));
        assert(is_group(items, k1, out[h]));
        assert(key_of(k1, out[g][0]) == key_of(k2, out[g][0]));
        assert(key_of(k1, out[h][0]) == key_of(k2, out[h][0]));
    }
    assert forall|i: int|
        0 <= i < items.len() && key_of(k2, #[trigger] items[i]) is Some && has_twin(
            items,
            k2,
            items[i],
        ) implies covered(out, items[i]) by {
        let x = items[i];
        let j = choose|j: int|
            0 <= j < items.len() && #[trigger] items[j] != x && key_of(k2, items[j]) == key_of(
                k2,
                x,
            );
        lemma_content_twins_are_size_twins(records, first, second, x, items[j]);
        assert(items[j] != x && key_of(k1, items[j]) == key_of(k1, x));
        assert(has_twin(items, k1, items[i]));
    }
    assert forall|g: int| 0 <= g < groups.len() implies key_of(
        k2,
        (#[trigger] groups[g]).members@[0],
    ) == Some((groups[g].size, groups[g].digest@)) by {
        assert(out[g] == groups[g].members@);
        assert(key_of(k1, out[g][0]) == key_of(k2, out[g][0]));
    }
}

/// Some group holds both `x` and `y`.
pub open spec fn in_same_group(groups: Seq<DuplicateGroup>, x: usize, y: usize) -> bool {
    exists|g: int|
        0 <= g < groups.len() && (#[trigger] groups[g]).members@.contains(x)
            && groups[g].members@.contains(y)
}

/// Some group holds `x`.
pub open spec fn in_a_group(groups: Seq<DuplicateGroup>, x: usize) -> bool {
    exists|g: int| 0 <= g < groups.len() && (#[trigger] groups[g]).members@.contains(x)
}

/// A member of a group carries the content key of the group's first member.
proof fn lemma_member_key(
    records: Seq<FileRecord>,
    outcomes: Seq<Option<Seq<u8>>>,
    groups: Seq<Seq<usize>>,
    g: int,
    x: usize,
)
    requires
        is_duplicate_partition(records, outcomes, groups),
        0 <= g < groups.len(),
        groups[g].contains(x),
    ensures
        x < records.len(),
        key_of(content_keys(records, outcomes), x) is Some,
        key_of(content_keys(records, outcomes), x) == key_of(
            content_keys(records, outcomes),
            groups[g][0],
        ),
{
    let items = all_indices(records.len());
    let keys = content_keys(records, outcomes);
    assert(is_group(items, keys, groups[g]));
    let a = choose|a: int| 0 <= a < groups[g].len() && groups[g][a] == x;
    assert(key_of(keys, groups[g][a]) == key_of(keys, groups[g][0]));
}

/// Two groups that hold records of one content key are one group.
proof fn lemma_one_group_per_key(
    records: Seq<FileRecord>,
    outcomes: Seq<Option<Seq<u8>>>,
    groups: Seq<Seq<usize>>,
    g: int,
    h: int,
    x: usize,
    y: usize,
)
    requires
        is_duplicate_partition(records, outcomes, groups),
        0 <= g < groups.len(),
        0 <= h < groups.len(),
        groups[g].contains(x),
        groups[h].contains(y),
        key_of(content_keys(records, outcomes), x) == key_of(content_keys(records, outcomes), y),
    ensures
        g == h,
{
    let keys = content_keys(records, outcomes);
    lemma_member_key(records, outcomes, groups, g, x);
    lemma_member_key(records, outcomes, groups, h, y);
    if g < h {
        assert(key_of(keys, groups[g][0]) != key_of(keys, groups[h][0]));
    }
    if h < g {
        assert(key_of(keys, groups[h][0]) != key_of(keys, groups[g][0]));
    }
}

/// Two different records of one content key stand together in a group.
proof fn lemma_twins_are_grouped(
    records: Seq<FileRecord>,
    outcomes: Seq<Option<Seq<u8>>>,
    groups: Seq<Seq<usize>>,
    x: usize,
    y: usize,
) -> (g: int)
    requires
        records.len() <= usize::MAX,
        is_duplicate_partition(records, outcomes, groups),
        x < records.len(),
        y < records.len(),
        x != y,
        key_of(content_keys(records, outcomes), x) is Some,
        key_of(content_keys(records, outcomes), x) == key_of(content_keys(records, outcomes), y),
    ensures
        0 <= g < groups.len(),
        groups[g].contains(x),
        groups[g].contains(y),
{
    let items = all_indices(records.len());
    let keys = content_keys(records, outcomes);
    assert(items[x as int] == x);
    assert(items[y as int] == y);
    assert(items[y as int] != x && key_of(keys, items[y as int]) == key_of(keys, x));
    assert(has_twin(items, keys, items[x as int]));
    assert(items[x as int] != y && key_of(keys, items[x as int]) == key_of(keys, y));
    assert(has_twin(items, keys, items[y as int]));
    assert(covered(groups, items[x as int]));
    assert(covered(groups, items[y as int]));
    let g = choose|g: int| 0 <= g < groups.len() && #[trigger] groups[g].contains(x);
    let h = choose|h: int| 0 <= h < groups.len() && #[trigger] groups[h].contains(y);
    lemma_one_group_per_key(records, outcomes, groups, g, h, x, y);
    g
}

/// Soundness and completeness of grouping, over digests: two different
/// records stand in one group exactly if they have the same size and both
/// were hashed to the same digest.
pub proof fn lemma_grouped_iff_same_size_and_digest(
    records: Seq<FileRecord>,
    outcomes: Seq<Option<Seq<u8>>>,
    groups: Seq<DuplicateGroup>,
    x: usize,
    y: usize,
)
    requires
        records.len() <= usize::MAX,
        is_resolution(records, outcomes, groups),
        x < records.len(),
        y < records.len(),
        x != y,
    ensures
        in_same_group(groups, x, y) <==> (records[x as int].size == records[y as int].size
            && key_of(outcomes, x) is Some && key_of(outcomes, x) == key_of(outcomes, y)),
{
    let keys = content_keys(records, outcomes);
    let out = group_members(groups);
    if in_same_group(groups, x, y) {
        let g = choose|g: int|
            0 <= g < groups.len() && (#[trigger] groups[g]).members@.contains(x)
                && groups[g].members@.contains(y);
        assert(out[g] == groups[g].members@);
        lemma_member_key(records, outcomes, out, g, x);
        lemma_member_key(records, outcomes, out, g, y);
    }
    if records[x as int].size == records[y as int].size && key_of(outcomes, x) is Some && key_of(
        outcomes,
        x,
    ) == key_of(outcomes, y) {
        let g = lemma_twins_are_grouped(records, outcomes, out, x, y);
        assert(out[g] == groups[g].members@);
    }
}

/// No hash collides among the given contents: two of them with one digest
/// are the same bytes.
pub open spec fn collision_free(contents: Seq<Option<Seq<u8>>>) -> bool {
    forall|i: int, j: int|
        0 <= i < contents.len() && 0 <= j < contents.len() && (#[trigger] contents[i]) is Some
            && (#[trigger] contents[j]) is Some && sha256(contents[i]->0) == sha256(
            contents[j]->0,
        ) ==> contents[i]->0 == contents[j]->0
}

/// Every record states the length of its content, where that is present:
/// no file has changed since it was recorded.
pub open spec fn sizes_match_contents(
    records: Seq<FileRecord>,
    contents: Seq<Option<Seq<u8>>>,
) -> bool {
    forall|i: int|
        0 <= i < records.len() && i < contents.len() && (#[trigger] contents[i]) is Some
            ==> records[i].size == contents[i]->0.len()
}

/// Soundness and completeness of grouping, over contents: where no file has
/// changed since it was recorded and no hash collides among the contents,
/// two different records stand in one group exactly if both contents are
/// readable and are the same bytes.
pub proof fn lemma_grouped_iff_same_content(
    records: Seq<FileRecord>,
    contents: Seq<Option<Seq<u8>>>,
    groups: Seq<DuplicateGroup>,
    x: usize,
    y: usize,
)
    requires
        records.len() <= usize::MAX,
        sizes_match_contents(records, contents),
        collision_free(contents),
        is_resolution(records, content_digests(contents), groups),
        x < records.len(),
        y < records.len(),
        x != y,
    ensures
        in_same_group(groups, x, y) <==> (key_of(contents, x) is Some && key_of(contents, x)
            == key_of(contents, y)),
{
    lemma_grouped_iff_same_size_and_digest(records, content_digests(contents), groups, x, y);
}

/// Completeness without any assumption on the hash: two different records of
/// one recorded size whose contents are readable and the same bytes stand
/// in one group.
pub proof fn lemma_equal_contents_are_grouped(
    records: Seq<FileRecord>,
    contents: Seq<Option<Seq<u8>>>,
    groups: Seq<DuplicateGroup>,
    x: usize,
    y: usize,
)
    requires
        records.len() <= usize::MAX,
        is_resolution(records, content_digests(contents), groups),
        x < records.len(),
        y < records.len(),
        x != y,
        records[x as int].size == records[y as int].size,
        key_of(contents, x) is Some,
        key_of(contents, x) == key_of(contents, y),
    ensures
        in_same_group(groups, x, y),
{
    lemma_grouped_iff_same_size_and_digest(records, content_digests(contents), groups, x, y);
}

/// Two different empty files stand in one group: the empty content has a
/// digest like any other.
pub proof fn lemma_empty_files_are_grouped(
    records: Seq<FileRecord>,
    contents: Seq<Option<Seq<u8>>>,
    groups: Seq<DuplicateGroup>,
    x: usize,
    y: usize,
)
    requires
        records.len() <= usize::MAX,
        is_resolution(records, content_digests(contents), groups),
        x < records.len(),
        y < records.len(),
        x != y,
        records[x as int].size == 0,
        records[y as int].size == 0,
        key_of(contents, x) == Some(Seq::<u8>::empty()),
        key_of(contents, y) == Some(Seq::<u8>::empty()),
    ensures
        in_same_group(groups, x, y),
{
    lemma_equal_contents_are_grouped(records, contents, groups, x, y);
}

/// No group holds files of differing size: every member of a group has the
/// size the group is labelled with.
pub proof fn lemma_group_has_one_size(
    records: Seq<FileRecord>,
    outcomes: Seq<Option<Seq<u8>>>,
    groups: Seq<DuplicateGroup>,
    g: int,
    a: int,
)
    requires
        is_resolution(records, outcomes, groups),
        0 <= g < groups.len(),
        0 <= a < groups[g].members@.len(),
    ensures
        groups[g].members@[a] < records.len(),
        records[groups[g].members@[a] as int].size == groups[g].size,
        key_of(outcomes, groups[g].members@[a]) == Some(groups[g].digest@),
{
    let out = group_members(groups);
    assert(out[g] == groups[g].members@);
    assert(out[g].contains(out[g][a]));
    lemma_member_key(records, outcomes, out, g, out[g][a]);
    assert(out[g].contains(out[g][0]));
    lemma_member_key(records, outcomes, out, g, out[g][0]);
}

/// A file that was not hashed, because it could not be read or because it
/// was never a candidate, is in no group.
pub proof fn lemma_unhashed_is_in_no_group(
    records: Seq<FileRecord>,
    outcomes: Seq<Option<Seq<u8>>>,
    groups: Seq<DuplicateGroup>,
    x: usize,
)
    requires
        is_resolution(records, outcomes, groups),
        key_of(outcomes, x) is None,
    ensures
        !in_a_group(groups, x),
{
    let out = group_members(groups);
    if in_a_group(groups, x) {
        let g = choose|g: int| 0 <= g < groups.len() && (#[trigger] groups[g]).members@.contains(x);
        assert(out[g] == groups[g].members@);
        lemma_member_key(records, outcomes, out, g, x);
    }
}

/// No two records have the same size.
pub open spec fn sizes_are_unique(records: Seq<FileRecord>) -> bool {
    forall|i: int, j: int|
        0 <= i < j < records.len() ==> (#[trigger] records[i]).size != (#[trigger] records[j]).size
}

/// Where all sizes are unique nothing is hashed and nothing is reported.
pub proof fn lemma_unique_sizes_need_no_hashing(
    records: Seq<FileRecord>,
    outcomes: Seq<Option<Seq<u8>>>,
    groups: Seq<DuplicateGroup>,
    plan: Seq<usize>,
)
    requires
        sizes_are_unique(records),
        is_hashing_plan(records, plan),
        is_resolution(records, outcomes, groups),
    ensures
        plan.len() == 0,
        groups.len() == 0,
{
    let items = all_indices(records.len());
    let skeys = size_keys(records);
    if plan.len() > 0 {
        let x = plan[0];
        assert(has_twin(items, skeys, x));
        let j = choose|j: int|
            0 <= j < items.len() && #[trigger] items[j] != x && key_of(skeys, items[j]) == key_of(
                skeys,
                x,
            );
        assert(records[j].size == records[x as int].size);
        if j < x {
            assert(records[j].size != records[x as int].size);
        } else {
            assert(records[x as int].size != records[j].size);
        }
    }
    if groups.len() > 0 {
        let out = group_members(groups);
        assert(out[0] == groups[0].members@);
        lemma_group_has_one_size(records, outcomes, groups, 0, 0);
        lemma_group_has_one_size(records, outcomes, groups, 0, 1);
        assert(is_group(items, content_keys(records, outcomes), out[0]));
        let x = out[0][0];
        let y = out[0][1];
        assert(x < y);
        assert(records[x as int].size != records[y as int].size);
    }
}

/// Every file to be hashed is named once in the plan: no content is hashed
/// twice.
pub proof fn lemma_plan_names_each_file_once(
    records: Seq<FileRecord>,
    plan: Seq<usize>,
    a: int,
    b: int,
)
    requires
        is_hashing_plan(records, plan),
        0 <= a < b < plan.len(),
    ensures
        plan[a] != plan[b],
{
    assert(reported_before(records, plan[a], plan[b]));
}

/// Two sequences that hold the same elements, each in strictly ascending
/// order of one asymmetric relation, are the same sequence.
proof fn lemma_ordered_with_same_elements(
    s: Seq<usize>,
    t: Seq<usize>,
    before: spec_fn(usize, usize) -> bool,
)
    requires
        forall|a: int, b: int| 0 <= a < b < s.len() ==> before(#[trigger] s[a], #[trigger] s[b]),
        forall|a: int, b: int| 0 <= a < b < t.len() ==> before(#[trigger] t[a], #[trigger] t[b]),
        forall|x: usize, y: usize| !(#[trigger] before(x, y) && before(y, x)),
        forall|x: usize| s.contains(x) <==> t.contains(x),
    ensures
        s == t,
    decreases s.len(),
{
    if s.len() == 0 {
        if t.len() > 0 {
            assert(t.contains(t[0]));
        }
        assert(s =~= t);
    } else if t.len() == 0 {
        assert(s.contains(s[0]));
    } else {
        assert(s.contains(s[0]));
        assert(t.contains(t[0]));
        let a = choose|a: int| 0 <= a < s.len() && s[a] == t[0];
        let b = choose|b: int| 0 <= b < t.len() && t[b] == s[0];
        if a > 0 && b > 0 {
            assert(before(s[0], s[a]));
            assert(before(t[0], t[b]));
        }
        assert(s[0] == t[0]);
        let s1 = s.subrange(1, s.len() as int);
        let t1 = t.subrange(1, t.len() as int);
        assert forall|x: usize| s1.contains(x) <==> t1.contains(x) by {
            if s1.contains(x) {
                let i = choose|i: int| 0 <= i < s1.len() && s1[i] == x;
                assert(s[i + 1] == x);
                assert(before(s[0], s[i + 1]));
                assert(s.contains(x));
                let j = choose|j: int| 0 <= j < t.len() && t[j] == x;
                assert(j != 0);
                assert(t1[j - 1] == x);
            }
            if t1.contains(x) {
                let j = choose|j: int| 0 <= j < t1.len() && t1[j] == x;
                assert(t[j + 1] == x);
                assert(before(t[0], t[j + 1]));
                assert(t.contains(x));
                let i = choose|i: int| 0 <= i < s.len() && s[i] == x;
                assert(i != 0);
                assert(s1[i - 1] == x);
            }
        }
        assert forall|a: int, b: int| 0 <= a < b < s1.len() implies before(
            #[trigger] s1[a],
            #[trigger] s1[b],
        ) by {
            assert(before(s[a + 1], s[b + 1]));
        }
        assert forall|a: int, b: int| 0 <= a < b < t1.len() implies before(
            #[trigger] t1[a],
            #[trigger] t1[b],
        ) by {
            assert(before(t[a + 1], t[b + 1]));
        }
        lemma_ordered_with_same_elements(s1, t1, before);
        assert(s =~= seq![s[0]] + s1);
        assert(t =~= seq![t[0]] + t1);
    }
}

/// Bucket order never turns round: of two records at most one comes before
/// the other.
proof fn lemma_reported_before_is_asymmetric(records: Seq<FileRecord>, x: usize, y: usize)
    ensures
        !(reported_before(records, x, y) && reported_before(records, y, x)),
{
    let a = records[x as int].size;
    let b = records[y as int].size;
    if a != b && size_seen_before(records, a, b) && size_seen_before(records, b, a) {
        let i = choose|i: int|
            0 <= i < records.len() && (#[trigger] records[i]).size == a && forall|j: int|
                0 <= j < records.len() && (#[trigger] records[j]).size == b ==> i < j;
        let k = choose|k: int|
            0 <= k < records.len() && (#[trigger] records[k]).size == b && forall|j: int|
                0 <= j < records.len() && (#[trigger] records[j]).size == a ==> k < j;
        assert(records[k].size == b);
        assert(records[i].size == a);
        assert(i < k);
        assert(k < i);
    }
}

/// Every group of one duplicate partition is a group of any other of the same
/// input.
proof fn lemma_group_is_in_other_partition(
    records: Seq<FileRecord>,
    outcomes: Seq<Option<Seq<u8>>>,
    p: Seq<Seq<usize>>,
    q: Seq<Seq<usize>>,
    g: int,
) -> (h: int)
    requires
        records.len() <= usize::MAX,
        is_duplicate_partition(records, outcomes, p),
        is_duplicate_partition(records, outcomes, q),
        0 <= g < p.len(),
    ensures
        0 <= h < q.len(),
        q[h] == p[g],
{
    let items = all_indices(records.len());
    let keys = content_keys(records, outcomes);
    assert(is_group(items, keys, p[g]));
    let x = p[g][0];
    let y = p[g][1];
    assert(p[g].contains(x));
    assert(p[g].contains(y));
    lemma_member_key(records, outcomes, p, g, x);
    lemma_member_key(records, outcomes, p, g, y);
    assert(x < y);
    let h = lemma_twins_are_grouped(records, outcomes, q, x, y);
    assert(is_group(items, keys, q[h]));
    assert forall|z: usize| p[g].contains(z) <==> q[h].contains(z) by {
        if p[g].contains(z) {
            lemma_member_key(records, outcomes, p, g, z);
            if z != x {
                let h2 = lemma_twins_are_grouped(records, outcomes, q, x, z);
                lemma_one_group_per_key(records, outcomes, q, h, h2, x, x);
            }
        }
        if q[h].contains(z) {
            lemma_member_key(records, outcomes, q, h, z);
            lemma_member_key(records, outcomes, q, h, x);
            if z != x {
                let g2 = lemma_twins_are_grouped(records, outcomes, p, x, z);
                lemma_one_group_per_key(records, outcomes, p, g, g2, x, x);
            }
        }
    }
    let less = |a: usize, b: usize| a < b;
    assert forall|a: int, b: int| 0 <= a < b < p[g].len() implies less(
        #[trigger] p[g][a],
        #[trigger] p[g][b],
    ) by {}
    assert forall|a: int, b: int| 0 <= a < b < q[h].len() implies less(
        #[trigger] q[h][a],
        #[trigger] q[h][b],
    ) by {}
    lemma_ordered_with_same_elements(p[g], q[h], less);
    h
}

/// The first members of the groups of a partition, in order.
spec fn leaders(groups: Seq<Seq<usize>>) -> Seq<usize> {
    Seq::new(groups.len(), |g: int| groups[g][0])
}

/// Two duplicate partitions of the same input are the same sequence of
/// groups.
proof fn lemma_partition_is_unique(
    records: Seq<FileRecord>,
    outcomes: Seq<Option<Seq<u8>>>,
    p: Seq<Seq<usize>>,
    q: Seq<Seq<usize>>,
)
    requires
        records.len() <= usize::MAX,
        is_duplicate_partition(records, outcomes, p),
        is_duplicate_partition(records, outcomes, q),
    ensures
        p == q,
{
    let items = all_indices(records.len());
    let keys = content_keys(records, outcomes);
    let lp = leaders(p);
    let lq = leaders(q);
    let before = |x: usize, y: usize| reported_before(records, x, y);
    assert forall|x: usize, y: usize| !(#[trigger] before(x, y) && before(y, x)) by {
        lemma_reported_before_is_asymmetric(records, x, y);
    }
    assert forall|a: int, b: int| 0 <= a < b < lp.len() implies before(
        #[trigger] lp[a],
        #[trigger] lp[b],
    ) by {
        assert(reported_before(records, p[a][0], p[b][0]));
    }
    assert forall|a: int, b: int| 0 <= a < b < lq.len() implies before(
        #[trigger] lq[a],
        #[trigger] lq[b],
    ) by {
        assert(reported_before(records, q[a][0], q[b][0]));
    }
    assert forall|x: usize| lp.contains(x) <==> lq.contains(x) by {
        if lp.contains(x) {
            let g = choose|g: int| 0 <= g < lp.len() && lp[g] == x;
            let h = lemma_group_is_in_other_partition(records, outcomes, p, q, g);
            assert(lq[h] == x);
        }
        if lq.contains(x) {
            let h = choose|h: int| 0 <= h < lq.len() && lq[h] == x;
            let g = lemma_group_is_in_other_partition(records, outcomes, q, p, h);
            assert(lp[g] == x);
        }
    }
    lemma_ordered_with_same_elements(lp, lq, before);
    assert(p.len() == lp.len());
    assert(q.len() == lq.len());
    assert forall|g: int| 0 <= g < p.len() implies p[g] == q[g] by {
        let h = lemma_group_is_in_other_partition(records, outcomes, p, q, g);
        assert(lp[g] == lq[g]);
        assert(q[h][0] == q[g][0]);
        assert(is_group(items, keys, q[h]));
        assert(is_group(items, keys, q[g]));
        assert(q[h].contains(q[h][0]));
        assert(q[g].contains(q[g][0]));
        lemma_one_group_per_key(records, outcomes, q, h, g, q[h][0], q[g][0]);
    }
    assert(p =~= q);
}

/// The resolution is a function of its input: two results for the same
/// records and digest outcomes hold the same groups in the same order, with
/// the same labels. Resolving twice gives the same answer, whatever the
/// order in which buckets were built or walked.
pub proof fn lemma_resolution_is_unique(
    records: Seq<FileRecord>,
    outcomes: Seq<Option<Seq<u8>>>,
    first: Seq<DuplicateGroup>,
    second: Seq<DuplicateGroup>,
)
    requires
        records.len() <= usize::MAX,
        is_resolution(records, outcomes, first),
        is_resolution(records, outcomes, second),
    ensures
        first.len() == second.len(),
        forall|g: int|
            0 <= g < first.len() ==> {
                &&& (#[trigger] first[g]).members@ == second[g].members@
                &&& first[g].size == second[g].size
                &&& first[g].digest@ == second[g].digest@
            },
{
    let p = group_members(first);
    let q = group_members(second);
    lemma_partition_is_unique(records, outcomes, p, q);
    assert forall|g: int| 0 <= g < first.len() implies {
        &&& (#[trigger] first[g]).members@ == second[g].members@
        &&& first[g].size == second[g].size
        &&& first[g].digest@ == second[g].digest@
    } by {
        assert(p[g] == first[g].members@);
        assert(q[g] == second[g].members@);
    }
}

} // verus!
