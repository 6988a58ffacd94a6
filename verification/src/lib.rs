//! Filesystem inspection toolkit: the decisions behind the `top`, `dups`,
//! `dang` and `loops` commands, on plain values.
//!
//! Nothing here touches the filesystem. The caller walks directories, reads
//! files and prints; this crate decides what to skip, what to read next, how
//! files group, which links loop and how sizes add up.

pub mod cmd;
pub mod data;
pub mod error;
pub mod files;
pub mod hash;
pub mod keys;
pub mod path;
pub mod sizes;
pub mod table;
pub mod vecs;


use vstd::prelude::*;
use crate::cmd::top::{count_dir_sizes, ranked, reported, sort, total_size};
use crate::path::Path;
use crate::sizes::{sizes_view, SizeMap};

verus! {

/// Ranks the sizes in `files`: the files themselves if `report_files` is
/// set, else the directories above them, the root among them, each with the
/// sum of the files below it. At most `report_limit` entries are kept, the
/// largest ones, and the largest comes last.
pub fn explore(files: SizeMap, root_path: &Path, report_files: bool, report_limit: Option<usize>) -> (res:
    Vec<(Path, u64)>)
    requires
        !report_files ==> total_size(files@) <= u64::MAX,
    ensures
        sizes_view(res@) == ranked(reported(files@, root_path@, report_files), report_limit),
{
    let files = files.into_entries();
    let sizes = if report_files {
        files
    } else {
        count_dir_sizes(&files, root_path).into_entries()
    };
    sort(sizes, report_limit)
}

} // verus!
