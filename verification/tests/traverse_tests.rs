use dupfinder::record::FileRecord;
use dupfinder::error::ScanError;
use dupfinder::traverse::{DirEntry, EntryStatus, Listing, Traversal};

fn entry(path: &str, status: EntryStatus) -> DirEntry {
    DirEntry { path: path.to_string(), status }
}

fn dir(path: &str) -> DirEntry {
    entry(path, EntryStatus::Directory)
}

fn file(path: &str, size: u64) -> DirEntry {
    entry(path, EntryStatus::RegularFile { size })
}

fn rec(path: &str, size: u64) -> FileRecord {
    FileRecord::new(path.to_string(), size)
}

/// A small tree: `/r/locked` cannot be listed, `/r/b/gone` cannot be examined.
fn listing_of(path: &str) -> Listing {
    match path {
        "/r" => Listing::Entries(vec![
            file("/r/one", 1),
            dir("/r/a"),
            dir("/r/locked"),
            dir("/r/b"),
            entry("/r/link", EntryStatus::Other),
        ]),
        "/r/a" => Listing::Entries(vec![dir("/r/a/deep"), file("/r/a/two", 2)]),
        "/r/b" => Listing::Entries(vec![
            file("/r/b/three", 3),
            entry("/r/b/gone", EntryStatus::Unavailable),
        ]),
        "/r/a/deep" => Listing::Entries(vec![file("/r/a/deep/four", 4)]),
        _ => Listing::Unavailable,
    }
}

fn walk(root: &str) -> (Result<(), ScanError>, Traversal, Vec<String>) {
    let mut t = Traversal::new(root.to_string());
    let mut visited = Vec::new();
    loop {
        let current = match t.current() {
            Some(d) => d.clone(),
            None => return (Ok(()), t, visited),
        };
        visited.push(current.clone());
        if let Err(e) = t.advance(listing_of(&current)) {
            return (Err(e), t, visited);
        }
    }
}

#[test]
fn unreadable_subdirectory_does_not_stop_the_scan() {
    let (outcome, t, visited) = walk("/r");
    assert_eq!(outcome, Ok(()));
    assert!(t.is_finished());
    assert_eq!(visited, vec!["/r", "/r/a", "/r/locked", "/r/b", "/r/a/deep"]);
    assert_eq!(
        t.records(),
        &vec![
            rec("/r/one", 1),
            rec("/r/a/two", 2),
            rec("/r/b/three", 3),
            rec("/r/a/deep/four", 4),
        ]
    );
    assert_eq!(t.unavailable(), &vec!["/r/locked".to_string(), "/r/b/gone".to_string()]);
    assert_eq!(t.ignored(), &vec!["/r/link".to_string()]);
}

#[test]
fn unavailable_root_ends_the_scan() {
    let (outcome, t, visited) = walk("/nowhere");
    assert_eq!(outcome, Err(ScanError::RootUnavailable));
    assert_eq!(visited, vec!["/nowhere"]);
    assert!(t.is_finished());
    assert_eq!(t.current(), None);
    assert!(t.records().is_empty());
    assert!(t.unavailable().is_empty());
}

#[test]
fn new_traversal_awaits_the_root() {
    let t = Traversal::new("/r".to_string());
    assert!(!t.is_finished());
    assert_eq!(t.current(), Some(&"/r".to_string()));
    assert!(t.records().is_empty());
    assert!(t.unavailable().is_empty());
    assert!(t.ignored().is_empty());
}

#[test]
fn empty_root_finishes_at_once() {
    let mut t = Traversal::new("/r".to_string());
    assert_eq!(t.advance(Listing::Entries(vec![])), Ok(()));
    assert!(t.is_finished());
    assert!(t.into_records().is_empty());
}

#[test]
fn directories_are_listed_first_in_first_out() {
    let mut t = Traversal::new("/r".to_string());
    assert_eq!(t.advance(Listing::Entries(vec![dir("/r/x"), dir("/r/y")])), Ok(()));
    assert_eq!(t.current(), Some(&"/r/x".to_string()));
    assert_eq!(t.advance(Listing::Entries(vec![dir("/r/x/z")])), Ok(()));
    assert_eq!(t.current(), Some(&"/r/y".to_string()));
    assert_eq!(t.advance(Listing::Unavailable), Ok(()));
    assert_eq!(t.current(), Some(&"/r/x/z".to_string()));
    assert_eq!(t.advance(Listing::Entries(vec![file("/r/x/z/f", 9)])), Ok(()));
    assert!(t.is_finished());
    assert_eq!(t.unavailable(), &vec!["/r/y".to_string()]);
    assert_eq!(t.into_records(), vec![rec("/r/x/z/f", 9)]);
}

#[test]
fn directories_give_no_records() {
    let mut t = Traversal::new("/r".to_string());
    assert_eq!(t.advance(Listing::Entries(vec![dir("/r/x"), file("/r/f", 0)])), Ok(()));
    assert_eq!(t.records(), &vec![rec("/r/f", 0)]);
}

#[test]
fn only_an_unavailable_root_is_fatal() {
    assert!(ScanError::RootUnavailable.is_fatal());
    assert!(!ScanError::EntryUnavailable.is_fatal());
    assert!(!ScanError::HashFailure.is_fatal());
}

#[test]
fn a_directory_that_cannot_be_listed_is_fatal_only_at_the_root() {
    assert_eq!(ScanError::of_unlisted_directory(true), ScanError::RootUnavailable);
    assert_eq!(ScanError::of_unlisted_directory(false), ScanError::EntryUnavailable);
}

#[test]
fn failures_are_described() {
    assert_eq!(ScanError::RootUnavailable.describe(), "the starting directory cannot be listed");
    assert_eq!(ScanError::EntryUnavailable.describe(), "an entry cannot be examined");
    assert_eq!(ScanError::HashFailure.describe(), "a file cannot be read");
}
