//! The traverser's decisions: which directory to list next, and what to make
//! of each listing.
//!
//! Listing a directory and asking for a file's size are the caller's part.
//! The caller hands in what it found; the queue of pending directories, the
//! records gathered and the policy on failures are kept here.

use crate::error::ScanError;
use crate::record::FileRecord;
use std::collections::VecDeque;
use vstd::prelude::*;

verus! {

/// What the file system says of one directory entry.
#[derive(Clone, Copy, Debug, PartialEq, Eq)]
pub enum EntryStatus {
    /// A directory, to be listed in its turn.
    Directory,
    /// A regular file of the given size in bytes.
    RegularFile { size: u64 },
    /// Neither of the two: a symbolic link, a device, a socket. Such entries
    /// are not followed and not recorded; their paths are kept as ignored.
    Other,
    /// The entry could not be examined.
    Unavailable,
}

/// One entry of a directory listing.
#[derive(Clone, Debug, PartialEq, Eq)]
pub struct DirEntry {
    pub path: String,
    pub status: EntryStatus,
}

/// The outcome of listing one directory.
#[derive(Clone, Debug, PartialEq, Eq)]
pub enum Listing {
    /// The directory's immediate entries, in the order they were read.
    Entries(Vec<DirEntry>),
    /// The directory could not be listed.
    Unavailable,
}

/// The paths, as character sequences.
pub open spec fn path_views(paths: Seq<String>) -> Seq<Seq<char>> {
    Seq::new(paths.len(), |i: int| paths[i]@)
}

/// The records, each as its path and size.
pub open spec fn record_views(records: Seq<FileRecord>) -> Seq<(Seq<char>, u64)> {
    Seq::new(records.len(), |i: int| (records[i].path@, records[i].size))
}

/// The paths of the directories among `entries`, in order.
pub open spec fn listed_dirs(entries: Seq<DirEntry>) -> Seq<Seq<char>>
    decreases entries.len(),
{
    if entries.len() == 0 {
        Seq::empty()
    } else {
        let rest = listed_dirs(entries.drop_last());
        match entries.last().status {
            EntryStatus::Directory => rest.push(entries.last().path@),
            _ => rest,
        }
    }
}

/// The regular files among `entries`, each as its path and size, in order.
pub open spec fn listed_files(entries: Seq<DirEntry>) -> Seq<(Seq<char>, u64)>
    decreases entries.len(),
{
    if entries.len() == 0 {
        Seq::empty()
    } else {
        let rest = listed_files(entries.drop_last());
        match entries.last().status {
            EntryStatus::RegularFile { size } => rest.push((entries.last().path@, size)),
            _ => rest,
        }
    }
}

/// The paths of the entries among `entries` that could not be examined, in
/// order.
pub open spec fn listed_unavailable(entries: Seq<DirEntry>) -> Seq<Seq<char>>
    decreases entries.len(),
{
    if entries.len() == 0 {
        Seq::empty()
    } else {
        let rest = listed_unavailable(entries.drop_last());
        match entries.last().status {
            EntryStatus::Unavailable => rest.push(entries.last().path@),
            _ => rest,
        }
    }
}

/// The paths of the entries among `entries` that are neither directory nor
/// regular file, in order.
pub open spec fn listed_other(entries: Seq<DirEntry>) -> Seq<Seq<char>>
    decreases entries.len(),
{
    if entries.len() == 0 {
        Seq::empty()
    } else {
        let rest = listed_other(entries.drop_last());
        match entries.last().status {
            EntryStatus::Other => rest.push(entries.last().path@),
            _ => rest,
        }
    }
}

/// The entries a listing holds; none where the directory could not be
/// listed.
pub open spec fn entries_of(listing: Listing) -> Seq<DirEntry> {
    match listing {
        Listing::Entries(entries) => entries@,
        Listing::Unavailable => Seq::empty(),
    }
}

/// The paths of the directories in a run of listings, in order.
pub open spec fn all_listed_dirs(answers: Seq<Seq<DirEntry>>) -> Seq<Seq<char>>
    decreases answers.len(),
{
    if answers.len() == 0 {
        Seq::empty()
    } else {
        all_listed_dirs(answers.drop_last()) + listed_dirs(answers.last())
    }
}

/// The regular files in a run of listings, each as its path and size, in
/// order.
pub open spec fn all_listed_files(answers: Seq<Seq<DirEntry>>) -> Seq<(Seq<char>, u64)>
    decreases answers.len(),
{
    if answers.len() == 0 {
        Seq::empty()
    } else {
        all_listed_files(answers.drop_last()) + listed_files(answers.last())
    }
}

/// A directory among `entries` is among the directories listed.
pub proof fn lemma_listed_dirs_has(entries: Seq<DirEntry>, i: int)
    requires
        0 <= i < entries.len(),
        entries[i].status == EntryStatus::Directory,
    ensures
        listed_dirs(entries).contains(entries[i].path@),
    decreases entries.len(),
{
    let rest = listed_dirs(entries.drop_last());
    if i == entries.len() - 1 {
        assert(rest.push(entries[i].path@).last() == entries[i].path@);
    } else {
        lemma_listed_dirs_has(entries.drop_last(), i);
        let at = choose|at: int| 0 <= at < rest.len() && rest[at] == entries[i].path@;
        assert(listed_dirs(entries)[at] == entries[i].path@);
    }
}

/// A regular file among `entries` is among the files listed.
pub proof fn lemma_listed_files_has(entries: Seq<DirEntry>, i: int, size: u64)
    requires
        0 <= i < entries.len(),
        entries[i].status == (EntryStatus::RegularFile { size }),
    ensures
        listed_files(entries).contains((entries[i].path@, size)),
    decreases entries.len(),
{
    let rest = listed_files(entries.drop_last());
    if i == entries.len() - 1 {
        assert(rest.push((entries[i].path@, size)).last() == (entries[i].path@, size));
    } else {
        lemma_listed_files_has(entries.drop_last(), i, size);
        let at = choose|at: int| 0 <= at < rest.len() && rest[at] == (entries[i].path@, size);
        assert(listed_files(entries)[at] == (entries[i].path@, size));
    }
}

/// The directories of each listing are among those of the whole run.
pub proof fn lemma_all_listed_dirs_has(answers: Seq<Seq<DirEntry>>, k: int, dir: Seq<char>)
    requires
        0 <= k < answers.len(),
        listed_dirs(answers[k]).contains(dir),
    ensures
        all_listed_dirs(answers).contains(dir),
    decreases answers.len(),
{
    let rest = all_listed_dirs(answers.drop_last());
    let last = listed_dirs(answers.last());
    if k == answers.len() - 1 {
        let at = choose|at: int| 0 <= at < last.len() && last[at] == dir;
        assert((rest + last)[rest.len() + at] == dir);
    } else {
        lemma_all_listed_dirs_has(answers.drop_last(), k, dir);
        let at = choose|at: int| 0 <= at < rest.len() && rest[at] == dir;
        assert((rest + last)[at] == dir);
    }
}

/// The files of each listing are among those of the whole run.
pub proof fn lemma_all_listed_files_has(
    answers: Seq<Seq<DirEntry>>,
    k: int,
    file: (Seq<char>, u64),
)
    requires
        0 <= k < answers.len(),
        listed_files(answers[k]).contains(file),
    ensures
        all_listed_files(answers).contains(file),
    decreases answers.len(),
{
    let rest = all_listed_files(answers.drop_last());
    let last = listed_files(answers.last());
    if k == answers.len() - 1 {
        let at = choose|at: int| 0 <= at < last.len() && last[at] == file;
        assert((rest + last)[rest.len() + at] == file);
    } else {
        lemma_all_listed_files_has(answers.drop_last(), k, file);
        let at = choose|at: int| 0 <= at < rest.len() && rest[at] == file;
        assert((rest + last)[at] == file);
    }
}

/// A traversal in progress.
pub struct Traversal {
    pending: VecDeque<String>,
    records: Vec<FileRecord>,
    unavailable: Vec<String>,
    ignored: Vec<String>,
    root_listed: bool,
    root: Ghost<Seq<char>>,
    visited: Ghost<Seq<Seq<char>>>,
    answers: Ghost<Seq<Seq<DirEntry>>>,
}

impl Traversal {
    /// The directories still to be listed, first in first out.
    pub closed spec fn pending(&self) -> Seq<Seq<char>> {
        path_views(self.pending@)
    }

    /// The regular files found so far, each as its path and size.
    pub closed spec fn found(&self) -> Seq<(Seq<char>, u64)> {
        record_views(self.records@)
    }

    /// The paths skipped so far because they could not be listed or
    /// examined.
    pub closed spec fn skipped(&self) -> Seq<Seq<char>> {
        path_views(self.unavailable@)
    }

    /// The paths passed over so far because they are neither directory nor
    /// regular file.
    pub closed spec fn passed_over(&self) -> Seq<Seq<char>> {
        path_views(self.ignored@)
    }

    /// Whether the root's listing has been handed in.
    pub closed spec fn root_seen(&self) -> bool {
        self.root_listed
    }

    /// The directory the traversal started from.
    pub closed spec fn root(&self) -> Seq<char> {
        self.root@
    }

    /// The directories whose listing has been handed in, in that order.
    pub closed spec fn visited(&self) -> Seq<Seq<char>> {
        self.visited@
    }

    /// The entries handed in for each directory visited, in that order; no
    /// entries where a directory could not be listed.
    pub closed spec fn answers(&self) -> Seq<Seq<DirEntry>> {
        self.answers@
    }

    /// The directories found in listings so far, in the order they were
    /// found.
    pub open spec fn discovered(&self) -> Seq<Seq<char>> {
        all_listed_dirs(self.answers())
    }

    /// Nothing is lost and no directory is listed out of turn. The
    /// directories visited, followed by those pending, are the root followed
    /// by every directory of every listing handed in, in that order: this is
    /// breadth-first order. The files found are the regular files of every
    /// listing handed in, in that order. Every traversal made by
    /// [`Traversal::new`] and moved on by [`Traversal::advance`] is well
    /// formed.
    pub open spec fn wf(&self) -> bool {
        &&& self.answers().len() == self.visited().len()
        &&& self.visited() + self.pending() == seq![self.root()] + self.discovered()
        &&& self.found() == all_listed_files(self.answers())
        &&& self.root_seen() <==> self.visited().len() > 0
    }

    /// When nothing is pending, every directory of every listing has been
    /// visited, after the root and in order of discovery.
    pub proof fn lemma_finished_traversal_is_complete(self)
        requires
            self.wf(),
            self.pending().len() == 0,
        ensures
            self.visited() == seq![self.root()] + self.discovered(),
    {
        assert(self.visited() + self.pending() =~= self.visited());
    }

    /// A regular file in the listing of any directory visited has been
    /// recorded, whatever else failed.
    pub proof fn lemma_listed_file_is_found(self, k: int, i: int, size: u64)
        requires
            self.wf(),
            0 <= k < self.answers().len(),
            0 <= i < self.answers()[k].len(),
            self.answers()[k][i].status == (EntryStatus::RegularFile { size }),
        ensures
            self.found().contains((self.answers()[k][i].path@, size)),
    {
        let entries = self.answers()[k];
        lemma_listed_files_has(entries, i, size);
        lemma_all_listed_files_has(self.answers(), k, (entries[i].path@, size));
    }

    /// A directory in the listing of any directory visited is visited in its
    /// turn or still pending; once nothing is pending it has been visited,
    /// whatever else failed.
    pub proof fn lemma_listed_directory_is_visited(self, k: int, i: int)
        requires
            self.wf(),
            0 <= k < self.answers().len(),
            0 <= i < self.answers()[k].len(),
            self.answers()[k][i].status == EntryStatus::Directory,
        ensures
            self.visited().contains(self.answers()[k][i].path@) || self.pending().contains(
                self.answers()[k][i].path@,
            ),
    {
        let entries = self.answers()[k];
        let dir = entries[i].path@;
        lemma_listed_dirs_has(entries, i);
        lemma_all_listed_dirs_has(self.answers(), k, dir);
        let found = self.discovered();
        let at = choose|at: int| 0 <= at < found.len() && found[at] == dir;
        let line = seq![self.root()] + found;
        assert(line[at + 1] == dir);
        let both = self.visited() + self.pending();
        assert(both == line);
        assert(both[at + 1] == dir);
        if at + 1 < self.visited().len() {
            assert(self.visited()[at + 1] == dir);
        } else {
            let rest = at + 1 - self.visited().len();
            assert(line.len() == 1 + found.len());
            assert(both.len() == self.visited().len() + self.pending().len());
            assert(0 <= rest < self.pending().len());
            assert(both[at + 1] == self.pending()[rest]);
        }
    }

    /// A traversal that has the root to list and nothing else.
    pub fn new(root: String) -> (t: Traversal)
        ensures
            t.pending() == seq![root@],
            t.found() == Seq::<(Seq<char>, u64)>::empty(),
            t.skipped() == Seq::<Seq<char>>::empty(),
            t.passed_over() == Seq::<Seq<char>>::empty(),
            !t.root_seen(),
            t.root() == root@,
            t.visited() == Seq::<Seq<char>>::empty(),
            t.answers() == Seq::<Seq<DirEntry>>::empty(),
            t.wf(),
    {
        let ghost start = root@;
        let mut pending: VecDeque<String> = VecDeque::new();
        pending.push_back(root);
        let t = Traversal {
            pending,
            records: Vec::new(),
            unavailable: Vec::new(),
            ignored: Vec::new(),
            root_listed: false,
            root: Ghost(start),
            visited: Ghost(Seq::empty()),
            answers: Ghost(Seq::empty()),
        };
        assert(t.pending() =~= seq![start]);
        assert(t.visited() + t.pending() =~= seq![t.root()] + t.discovered());
        assert(t.found() =~= Seq::<(Seq<char>, u64)>::empty());
        assert(t.skipped() =~= Seq::<Seq<char>>::empty());
        assert(t.passed_over() =~= Seq::<Seq<char>>::empty());
        t
    }

    /// Whether every directory has been listed.
    pub fn is_finished(&self) -> (done: bool)
        ensures
            done == (self.pending().len() == 0),
    {
        self.pending.len() == 0
    }

    /// The directory whose listing is awaited: the oldest pending one.
    pub fn current(&self) -> (dir: Option<&String>)
        ensures
            match dir {
                Some(d) => self.pending().len() > 0 && d@ == self.pending()[0],
                None => self.pending().len() == 0,
            },
    {
        if self.pending.len() == 0 {
            None
        } else {
            Some(&self.pending[0])
        }
    }

    /// The regular files found so far, in the order they were found.
    pub fn records(&self) -> (records: &Vec<FileRecord>)
        ensures
            record_views(records@) == self.found(),
    {
        &self.records
    }

    /// Ends the traversal and hands over the records.
    pub fn into_records(self) -> (records: Vec<FileRecord>)
        ensures
            record_views(records@) == self.found(),
    {
        self.records
    }

    /// The paths skipped so far because they could not be listed or
    /// examined.
    pub fn unavailable(&self) -> (paths: &Vec<String>)
        ensures
            path_views(paths@) == self.skipped(),
    {
        &self.unavailable
    }

    /// The paths passed over so far because they are neither directory nor
    /// regular file.
    pub fn ignored(&self) -> (paths: &Vec<String>)
        ensures
            path_views(paths@) == self.passed_over(),
    {
        &self.ignored
    }

    /// Takes the listing of the current directory.
    ///
    /// If the root cannot be listed the traversal ends in `RootUnavailable`
    /// with nothing pending. Any other directory that cannot be listed is
    /// skipped. Of a listing, the directories are queued behind those already
    /// pending, the regular files are recorded, and the rest is skipped or
    /// passed over, each in the order of the listing.
    pub fn advance(&mut self, listing: Listing) -> (outcome: Result<(), ScanError>)
        requires
            old(self).wf(),
            old(self).pending().len() > 0,
        ensures
            final(self).wf(),
            final(self).root_seen(),
            final(self).root() == old(self).root(),
            final(self).visited() == old(self).visited().push(old(self).pending()[0]),
            final(self).answers() == old(self).answers().push(entries_of(listing)),
            match listing {
                Listing::Unavailable => if old(self).root_seen() {
                    &&& outcome is Ok
                    &&& final(self).pending() == old(self).pending().drop_first()
                    &&& final(self).found() == old(self).found()
                    &&& final(self).skipped() == old(self).skipped().push(old(self).pending()[0])
                    &&& final(self).passed_over() == old(self).passed_over()
                } else {
                    &&& outcome == Err::<(), ScanError>(ScanError::RootUnavailable)
                    &&& final(self).pending() == Seq::<Seq<char>>::empty()
                    &&& final(self).found() == old(self).found()
                    &&& final(self).skipped() == old(self).skipped()
                    &&& final(self).passed_over() == old(self).passed_over()
                },
                Listing::Entries(entries) => {
                    &&& outcome is Ok
                    &&& final(self).pending() == old(self).pending().drop_first() + listed_dirs(
                        entries@,
                    )
                    &&& final(self).found() == old(self).found() + listed_files(entries@)
                    &&& final(self).skipped() == old(self).skipped() + listed_unavailable(
                        entries@,
                    )
                    &&& final(self).passed_over() == old(self).passed_over() + listed_other(
                        entries@,
                    )
                },
            },
    {
        let was_root = !self.root_listed;
        self.root_listed = true;
        let dir = self.pending.pop_front().unwrap();
        assert(self.pending() =~= old(self).pending().drop_first());
        assert(dir@ == old(self).pending()[0]);
        let ghost answers0 = self.answers@;
        let ghost discovered0 = self.discovered();
        self.visited = Ghost(self.visited@.push(dir@));
        self.answers = Ghost(self.answers@.push(entries_of(listing)));
        assert(self.answers().drop_last() =~= answers0);
        assert(old(self).pending() =~= seq![dir@] + self.pending());
        assert(self.visited() + self.pending() =~= old(self).visited() + old(self).pending());
        match listing {
            Listing::Unavailable => {
                let failure = ScanError::of_unlisted_directory(was_root);
                if failure.is_fatal() {
                    self.pending.clear();
                    assert(self.pending() =~= Seq::<Seq<char>>::empty());
                    assert(answers0.len() == 0);
                    assert(self.discovered() =~= Seq::<Seq<char>>::empty());
                    assert(self.visited() + self.pending() =~= seq![self.root()]
                        + self.discovered());
                    assert(self.found() =~= all_listed_files(self.answers()));
                    Err(failure)
                } else {
                    self.unavailable.push(dir);
                    assert(self.skipped() =~= old(self).skipped().push(old(self).pending()[0]));
                    assert(self.discovered() =~= discovered0);
                    assert(self.found() =~= all_listed_files(self.answers()));
                    Ok(())
                }
            },
            Listing::Entries(entries) => {
                let ghost all = entries@;
                let ghost pending0 = self.pending();
                let ghost found0 = self.found();
                let ghost skipped0 = self.skipped();
                let ghost passed0 = self.passed_over();
                assert(all.take(0) =~= Seq::<DirEntry>::empty());
                assert(found0 + listed_files(all.take(0)) =~= found0);
                for entry in it: entries
                    invariant
                        it.seq() == all,
                        self.root_listed,
                        self.root() == old(self).root(),
                        self.visited() == old(self).visited().push(old(self).pending()[0]),
                        self.answers() == answers0.push(all),
                        self.visited() + pending0 == seq![self.root()] + discovered0,
                        self.pending() == pending0 + listed_dirs(all.take(it.index() as int)),
                        self.found() == found0 + listed_files(all.take(it.index() as int)),
                        self.skipped() == skipped0 + listed_unavailable(
                            all.take(it.index() as int),
                        ),
                        self.passed_over() == passed0 + listed_other(all.take(it.index() as int)),
                {
                    let ghost k = it.index() as int;
                    let ghost pending1 = self.pending();
                    let ghost found1 = self.found();
                    let ghost skipped1 = self.skipped();
                    let ghost passed1 = self.passed_over();
                    proof {
                        assert(entry == all[k]);
                        assert(all.take(k + 1).drop_last() =~= all.take(k));
                        assert(all.take(k + 1).last() == all[k]);
                    }
                    match entry.status {
                        EntryStatus::Directory => {
                            self.pending.push_back(entry.path);
                            assert(self.pending() =~= pending1.push(all[k].path@));
                        },
                        EntryStatus::RegularFile { size } => {
                            self.records.push(FileRecord { path: entry.path, size });
                            assert(self.found() =~= found1.push((all[k].path@, size)));
                        },
                        EntryStatus::Other => {
                            self.ignored.push(entry.path);
                            assert(self.passed_over() =~= passed1.push(all[k].path@));
                        },
                        EntryStatus::Unavailable => {
                            self.unavailable.push(entry.path);
                            assert(self.skipped() =~= skipped1.push(all[k].path@));
                        },
                    }
                }
                assert(all.take(all.len() as int) =~= all);
                assert(self.visited() + self.pending() =~= (self.visited() + pending0)
                    + listed_dirs(all));
                assert(seq![self.root()] + self.discovered() =~= (seq![self.root()] + discovered0)
                    + listed_dirs(all));
                assert(self.found() =~= all_listed_files(self.answers()));
                Ok(())
            },
        }
    }
}

} // verus!
