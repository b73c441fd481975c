//! File records: what traversal knows of a file before any content is read.

use vstd::prelude::*;

verus! {

/// A regular file found during traversal: its path and its size in bytes.
#[derive(Clone, Debug, PartialEq, Eq)]
pub struct FileRecord {
    pub path: String,
    pub size: u64,
}

impl FileRecord {
    pub fn new(path: String, size: u64) -> (r: FileRecord)
        ensures
            r.path == path,
            r.size == size,
    {
        FileRecord { path, size }
    }
}

/// The sizes of the records, as grouping keys: record `i` has key `Some(size)`.
pub open spec fn size_keys(records: Seq<FileRecord>) -> Seq<Option<u64>> {
    Seq::new(records.len(), |i: int| Some(records[i].size))
}

/// The indices `0, 1, .., n - 1`.
pub open spec fn all_indices(n: nat) -> Seq<usize> {
    Seq::new(n, |i: int| i as usize)
}

} // verus!
