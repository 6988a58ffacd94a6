//! Finding the regular files under a root, with their sizes.

use vstd::prelude::*;
use crate::path::{Path, PathView};
use crate::sizes::{with_size, SizeMap};

verus! {

/// What is known of an entry met during the scan.
#[derive(Debug)]
pub struct Entry {
    pub path: Path,
    pub is_symlink: bool,
    pub is_dir: bool,
    pub is_file: bool,
    /// The size in bytes.
    pub len: u64,
}

/// The mathematical value of an [`Entry`].
pub struct EntryView {
    pub path: PathView,
    pub is_symlink: bool,
    pub is_dir: bool,
    pub is_file: bool,
    pub len: u64,
}

impl View for Entry {
    type V = EntryView;

    open spec fn view(&self) -> EntryView {
        EntryView {
            path: self.path@,
            is_symlink: self.is_symlink,
            is_dir: self.is_dir,
            is_file: self.is_file,
            len: self.len,
        }
    }
}

/// The values of a list of entries.
pub open spec fn entries_view(entries: Seq<Entry>) -> Seq<EntryView> {
    entries.map_values(|entry: Entry| entry@)
}

/// What the scan does with an entry.
#[derive(Debug, Clone, Copy, PartialEq, Eq, Structural)]
pub enum Action {
    /// Pass it over.
    Ignore,
    /// List it and scan what it holds.
    Descend,
    /// Record its size.
    Record,
}

impl EntryView {
    /// What to do with the entry. Whether it is a symbolic link is asked
    /// first: a link is passed over even if what it points to is a directory
    /// or a file, so that no chain of links is ever followed.
    pub open spec fn action(self) -> Action {
        if self.is_symlink {
            Action::Ignore
        } else if self.is_dir {
            Action::Descend
        } else if self.is_file {
            Action::Record
        } else {
            Action::Ignore
        }
    }
}

impl Entry {
    /// What the scan does with this entry.
    pub fn action(&self) -> (res: Action)
        ensures
            res == self@.action(),
    {
        if self.is_symlink {
            Action::Ignore
        } else if self.is_dir {
            Action::Descend
        } else if self.is_file {
            Action::Record
        } else {
            Action::Ignore
        }
    }
}

/// A scan in progress: the sizes recorded so far, and the entries found and
/// not yet looked at.
pub struct Scan {
    files: SizeMap,
    frontier: Vec<Entry>,
}

/// The mathematical value of a [`Scan`].
pub struct ScanView {
    pub files: Seq<(PathView, u64)>,
    /// Found and not yet looked at; the last one is looked at next.
    pub frontier: Seq<EntryView>,
}

impl View for Scan {
    type V = ScanView;

    closed spec fn view(&self) -> ScanView {
        ScanView { files: self.files@, frontier: entries_view(self.frontier@) }
    }
}

/// What comes after one step of the scan.
pub enum ScanStep {
    /// Nothing is left to look at. These are the files found.
    Done(SizeMap),
    /// This directory was met. The caller lists it and hands its entries to
    /// [`Scan::children`] before the next step.
    List(Scan, Path),
    /// The entry looked at is dealt with. The scan goes on.
    Again(Scan),
}

/// Starts a scan at `root`. No size is recorded yet, and `root` is the one
/// entry to look at.
pub fn find_with_sizes(root: Entry) -> (res: Scan)
    ensures
        res@.files.len() == 0,
        res@.frontier == seq![root@],
{
    let mut frontier: Vec<Entry> = Vec::new();
    frontier.push(root);
    assert(entries_view(frontier@) =~= seq![root@]);
    Scan { files: SizeMap::new(), frontier }
}

impl Scan {
    /// Looks at the next entry: a symbolic link is passed over, a directory
    /// is handed to the caller to be listed, the size of a regular file is
    /// recorded under its path, anything else is passed over.
    pub fn step(self) -> (res: ScanStep)
        ensures
            self@.frontier.len() == 0 ==> (res matches ScanStep::Done(files) && files@
                == self@.files),
            self@.frontier.len() > 0 ==> match self@.frontier.last().action() {
                Action::Ignore => res matches ScanStep::Again(next) && next@ == (ScanView {
                    files: self@.files,
                    frontier: self@.frontier.drop_last(),
                }),
                Action::Descend => res matches ScanStep::List(next, dir) && dir@
                    == self@.frontier.last().path && next@ == (ScanView {
                    files: self@.files,
                    frontier: self@.frontier.drop_last(),
                }),
                Action::Record => res matches ScanStep::Again(next) && next@ == (ScanView {
                    files: with_size(
                        self@.files,
                        self@.frontier.last().path,
                        self@.frontier.last().len,
                    ),
                    frontier: self@.frontier.drop_last(),
                }),
            },
    {
        let files = self.files;
        let mut frontier = self.frontier;
        let ghost before = frontier@;
        match frontier.pop() {
            None => ScanStep::Done(files),
            Some(entry) => {
                proof {
                    assert(entries_view(frontier@) =~= entries_view(before).drop_last());
                    assert(entries_view(before).last() == entry@);
                }
                match entry.action() {
                    Action::Ignore => ScanStep::Again(Scan { files, frontier }),
                    Action::Descend => ScanStep::List(Scan { files, frontier }, entry.path),
                    Action::Record => {
                        let files = files.set(&entry.path, entry.len);
                        ScanStep::Again(Scan { files, frontier })
                    },
                }
            },
        }
    }

    /// Takes in the entries of a directory that was listed. They join the
    /// scan in order, so that the last of them is looked at first.
    pub fn children(self, found: Vec<Entry>) -> (res: Scan)
        ensures
            res@ == (ScanView {
                files: self@.files,
                frontier: self@.frontier + entries_view(found@),
            }),
    {
        let files = self.files;
        let mut frontier = self.frontier;
        let mut found = found;
        let ghost f0 = frontier@;
        let ghost n0 = found@;
        frontier.append(&mut found);
        assert(entries_view(frontier@) =~= entries_view(f0) + entries_view(n0));
        Scan { files, frontier }
    }
}

} // verus!
