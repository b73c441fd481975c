//! The kinds of failure a scan can meet, and which of them end it.
//!
//! Only a root that cannot be listed ends a scan. The other two are passed
//! by: the entry is skipped, the file enters no group.

use vstd::prelude::*;

verus! {

/// The kinds of failure a scan can meet.
#[derive(Clone, Copy, Debug, PartialEq, Eq)]
pub enum ScanError {
    /// The starting directory cannot be listed. Ends the scan.
    RootUnavailable,
    /// A file or subdirectory below the root cannot be examined or listed.
    /// It is skipped.
    EntryUnavailable,
    /// A file cannot be read through while hashing. It enters no group.
    HashFailure,
}

impl ScanError {
    /// Whether the failure ends the scan. Only an unavailable root does.
    pub fn is_fatal(&self) -> (fatal: bool)
        ensures
            fatal == (*self == ScanError::RootUnavailable),
    {
        match self {
            ScanError::RootUnavailable => true,
            ScanError::EntryUnavailable => false,
            ScanError::HashFailure => false,
        }
    }

    /// The failure that a directory which cannot be listed stands for.
    pub fn of_unlisted_directory(is_root: bool) -> (e: ScanError)
        ensures
            e == if is_root {
                ScanError::RootUnavailable
            } else {
                ScanError::EntryUnavailable
            },
    {
        if is_root {
            ScanError::RootUnavailable
        } else {
            ScanError::EntryUnavailable
        }
    }

    /// A short description of the failure, for messages.
    pub fn describe(&self) -> (text: &'static str)
        ensures
            text@ == match *self {
                ScanError::RootUnavailable => "the starting directory cannot be listed"@,
                ScanError::EntryUnavailable => "an entry cannot be examined"@,
                ScanError::HashFailure => "a file cannot be read"@,
            },
    {
        match self {
            ScanError::RootUnavailable => "the starting directory cannot be listed",
            ScanError::EntryUnavailable => "an entry cannot be examined",
            ScanError::HashFailure => "a file cannot be read",
        }
    }
}

} // verus!
