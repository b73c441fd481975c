use dupfinder::buckets::{bucket_by_size, hashing_plan, SizeBucket};
use dupfinder::confirm::{bucket_by_digest, confirm_bucket, DuplicateGroup, HashBucket};
use dupfinder::digest::{digest_of, Digest};
use dupfinder::record::FileRecord;
use dupfinder::error::ScanError;
use dupfinder::resolver::{find_duplicates, hash_content, resolve, Scan};

fn rec(path: &str, size: u64) -> FileRecord {
    FileRecord::new(path.to_string(), size)
}

fn file(path: &str, content: &[u8]) -> (FileRecord, Option<Vec<u8>>) {
    (rec(path, content.len() as u64), Some(content.to_vec()))
}

fn scan(files: Vec<(FileRecord, Option<Vec<u8>>)>) -> (Vec<FileRecord>, Scan) {
    let (records, contents): (Vec<FileRecord>, Vec<Option<Vec<u8>>>) = files.into_iter().unzip();
    let scan = find_duplicates(&records, &contents);
    (records, scan)
}

fn paths(records: &Vec<FileRecord>, groups: &Vec<DuplicateGroup>) -> Vec<Vec<String>> {
    groups.iter().map(|g| g.paths(records).unwrap()).collect()
}

fn d(byte: u8) -> Digest {
    Digest::from_bytes([byte; 32])
}

#[test]
fn two_equal_files_and_one_different() {
    let (records, scan) = scan(vec![
        file("a.txt", b"hello"),
        file("b.txt", b"hello"),
        file("c.txt", b"world"),
    ]);
    assert_eq!(paths(&records, &scan.groups), vec![vec!["a.txt", "b.txt"]]);
    assert_eq!(scan.groups[0].size, 5);
    assert_eq!(scan.groups[0].digest, digest_of(b"hello"));
    assert_eq!(scan.groups[0].members, vec![0, 1]);
    assert_eq!(scan.examined, vec![0, 1, 2]);
}

#[test]
fn two_empty_files_are_duplicates() {
    let (records, scan) = scan(vec![file("x.bin", b""), file("y.bin", b"")]);
    assert_eq!(paths(&records, &scan.groups), vec![vec!["x.bin", "y.bin"]]);
    assert_eq!(scan.groups[0].size, 0);
    assert_eq!(
        scan.groups[0].digest.to_hex(),
        "e3b0c44298fc1c149afbf4c8996fb92427ae41e4649b934ca495991b7852b855"
    );
}

#[test]
fn unreadable_file_is_left_out_and_the_rest_is_reported() {
    let (records, scan) = scan(vec![
        file("a", b"same"),
        (rec("gone", 4), None),
        file("b", b"same"),
        file("p", b"other!"),
        file("q", b"other!"),
    ]);
    assert_eq!(paths(&records, &scan.groups), vec![vec!["a", "b"], vec!["p", "q"]]);
    assert_eq!(scan.examined, vec![0, 1, 2, 3, 4]);
}

#[test]
fn unreadable_twin_leaves_no_group() {
    let (_, scan) = scan(vec![file("a", b"same"), (rec("gone", 4), None)]);
    assert!(scan.groups.is_empty());
    assert_eq!(scan.examined, vec![0, 1]);
}

#[test]
fn missing_contents_count_as_unreadable() {
    let records = vec![rec("a", 1), rec("b", 1), rec("c", 1)];
    let contents = vec![Some(vec![9u8]), Some(vec![9u8])];
    let scan = find_duplicates(&records, &contents);
    assert_eq!(scan.groups.len(), 1);
    assert_eq!(scan.groups[0].members, vec![0, 1]);
}

#[test]
fn unique_sizes_give_no_groups_and_no_hashing() {
    let (_, scan) = scan(vec![
        file("a", b"1"),
        file("b", b"22"),
        file("c", b"333"),
        file("d", b""),
    ]);
    assert!(scan.groups.is_empty());
    assert!(scan.examined.is_empty());
    let records = vec![rec("a", 1), rec("b", 2), rec("c", 3)];
    assert!(hashing_plan(&records).is_empty());
}

#[test]
fn unique_sizes_are_not_grouped_even_with_equal_digests() {
    let records = vec![rec("a", 1), rec("b", 2)];
    let digests = vec![Some(d(1)), Some(d(1))];
    assert!(resolve(&records, &digests).is_empty());
}

#[test]
fn no_files_no_groups() {
    let scan = find_duplicates(&vec![], &vec![]);
    assert!(scan.groups.is_empty());
    assert!(scan.examined.is_empty());
}

#[test]
fn same_size_different_content_is_not_a_duplicate() {
    let (_, scan) = scan(vec![file("a", b"abcd"), file("b", b"abce")]);
    assert!(scan.groups.is_empty());
    assert_eq!(scan.examined, vec![0, 1]);
}

#[test]
fn resolving_twice_gives_the_same_groups() {
    let files = vec![
        file("a", b"one"),
        file("b", b"two"),
        file("c", b"one"),
        file("d", b"longer"),
        file("e", b"two"),
        file("f", b"longer"),
        file("g", b"one"),
    ];
    let (records, first) = scan(files.clone());
    let (_, second) = scan(files);
    assert_eq!(first, second);
    assert_eq!(
        paths(&records, &first.groups),
        vec![vec!["a", "c", "g"], vec!["b", "e"], vec!["d", "f"]]
    );
}

#[test]
fn every_group_has_one_size_and_one_digest() {
    let (records, scan) = scan(vec![
        file("a", b"xx"),
        file("b", b"yyy"),
        file("c", b"xx"),
        file("d", b"yyy"),
        file("e", b"zz"),
    ]);
    assert_eq!(scan.groups.len(), 2);
    for g in &scan.groups {
        assert!(g.members.len() >= 2);
        for &m in &g.members {
            assert_eq!(records[m].size, g.size);
        }
    }
}

#[test]
fn groups_come_by_first_appearance_of_size_then_of_group() {
    // sizes: 1, 2, 1, 2, 1; the size-1 bucket is seen first although its
    // only group starts later than the size-2 group.
    let records = vec![rec("a", 1), rec("b", 2), rec("c", 1), rec("d", 2), rec("e", 1)];
    let digests = vec![Some(d(10)), Some(d(20)), Some(d(30)), Some(d(20)), Some(d(30))];
    let groups = resolve(&records, &digests);
    let members: Vec<Vec<usize>> = groups.iter().map(|g| g.members.clone()).collect();
    assert_eq!(members, vec![vec![2, 4], vec![1, 3]]);
    assert_eq!(groups[0].size, 1);
    assert_eq!(groups[0].digest, d(30));
    assert_eq!(groups[1].size, 2);
    assert_eq!(groups[1].digest, d(20));
}

#[test]
fn resolve_reads_short_digest_lists_as_missing() {
    let records = vec![rec("a", 1), rec("b", 1), rec("c", 1)];
    let digests = vec![Some(d(1)), Some(d(1))];
    let groups = resolve(&records, &digests);
    assert_eq!(groups.len(), 1);
    assert_eq!(groups[0].members, vec![0, 1]);
    assert!(resolve(&records, &vec![]).is_empty());
}

#[test]
fn bucket_by_size_keeps_first_seen_order() {
    let records =
        vec![rec("a", 7), rec("b", 3), rec("c", 7), rec("d", 0), rec("e", 3), rec("f", 7)];
    let buckets = bucket_by_size(&records);
    assert_eq!(
        buckets,
        vec![
            SizeBucket { size: 7, members: vec![0, 2, 5] },
            SizeBucket { size: 3, members: vec![1, 4] },
            SizeBucket { size: 0, members: vec![3] },
        ]
    );
    assert!(buckets[0].needs_hashing());
    assert!(buckets[1].needs_hashing());
    assert!(!buckets[2].needs_hashing());
}

#[test]
fn bucket_by_size_of_nothing() {
    assert!(bucket_by_size(&vec![]).is_empty());
}

#[test]
fn hashing_plan_lists_shared_sizes_in_bucket_order() {
    let records =
        vec![rec("a", 7), rec("b", 3), rec("c", 7), rec("d", 0), rec("e", 3), rec("f", 7)];
    assert_eq!(hashing_plan(&records), vec![0, 2, 5, 1, 4]);
}

#[test]
fn bucket_by_digest_skips_members_without_digest() {
    let members = vec![0, 1, 2, 3, 4, 9];
    let digests = vec![Some(d(1)), None, Some(d(2)), Some(d(1)), Some(d(2))];
    let buckets = bucket_by_digest(&members, &digests);
    assert_eq!(
        buckets,
        vec![
            HashBucket { digest: d(1), members: vec![0, 3] },
            HashBucket { digest: d(2), members: vec![2, 4] },
        ]
    );
}

#[test]
fn confirm_bucket_drops_single_files() {
    let bucket = SizeBucket { size: 5, members: vec![1, 2, 4, 6] };
    let digests = vec![None, Some(d(1)), Some(d(2)), None, Some(d(1)), None, Some(d(3))];
    let groups = confirm_bucket(&bucket, &digests);
    assert_eq!(groups, vec![DuplicateGroup { size: 5, digest: d(1), members: vec![1, 4] }]);
}

#[test]
fn confirm_bucket_of_one_file_reads_no_digest() {
    let bucket = SizeBucket { size: 5, members: vec![3] };
    assert!(confirm_bucket(&bucket, &vec![]).is_empty());
}

#[test]
fn paths_of_a_group_that_is_not_of_these_records() {
    let records = vec![rec("a", 1)];
    let g = DuplicateGroup { size: 1, digest: d(0), members: vec![0, 1] };
    assert_eq!(g.paths(&records), None);
    let h = DuplicateGroup { size: 1, digest: d(0), members: vec![0, 0] };
    assert_eq!(h.paths(&records), Some(vec!["a".to_string(), "a".to_string()]));
}

#[test]
fn recorded_size_decides_before_content() {
    // Equal bytes under different recorded sizes are never compared.
    let records = vec![rec("a", 3), rec("b", 4)];
    let contents = vec![Some(b"abc".to_vec()), Some(b"abc".to_vec())];
    let scan = find_duplicates(&records, &contents);
    assert!(scan.groups.is_empty());
    assert!(scan.examined.is_empty());
}

#[test]
fn content_that_cannot_be_read_is_a_hash_failure() {
    assert_eq!(hash_content(&None), Err(ScanError::HashFailure));
}

#[test]
fn content_that_can_be_read_is_hashed() {
    assert_eq!(hash_content(&Some(b"hello".to_vec())), Ok(digest_of(b"hello")));
    assert_eq!(
        hash_content(&Some(Vec::new())).map(|d| d.to_hex()),
        Ok("e3b0c44298fc1c149afbf4c8996fb92427ae41e4649b934ca495991b7852b855".to_string())
    );
}

#[test]
fn digests_of_one_fingerprint_are_told_apart() {
    // All three digests agree in their first eight bytes.
    let mut p = [5u8; 32];
    let mut q = [5u8; 32];
    let mut r = [5u8; 32];
    p[8] = 1;
    q[31] = 2;
    r[20] = 3;
    let (p, q, r) = (Digest::from_bytes(p), Digest::from_bytes(q), Digest::from_bytes(r));
    assert_eq!(p.fingerprint(), q.fingerprint());
    assert_eq!(q.fingerprint(), r.fingerprint());
    let members = vec![0, 1, 2, 3, 4, 5, 6];
    let digests = vec![Some(p), Some(q), Some(d(7)), Some(r), Some(q), Some(p), Some(r)];
    assert_eq!(
        bucket_by_digest(&members, &digests),
        vec![
            HashBucket { digest: p, members: vec![0, 5] },
            HashBucket { digest: q, members: vec![1, 4] },
            HashBucket { digest: d(7), members: vec![2] },
            HashBucket { digest: r, members: vec![3, 6] },
        ]
    );
}
