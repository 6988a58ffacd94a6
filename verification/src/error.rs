//! What can go wrong inside a scan.

use vstd::prelude::*;

verus! {

/// The kinds of failure that the library itself reports.
#[derive(Debug, Clone, Copy, PartialEq, Eq, Structural)]
pub enum Error {
    /// An entry met during a walk could not be described.
    Walk,
    /// A file's content could not be read.
    Read,
    /// A digest could not be computed.
    Hash,
}

impl Error {
    /// A short description for messages.
    pub fn message(&self) -> (res: &'static str)
        ensures
            res@ == match *self {
                Error::Walk => "failed to read a directory entry"@,
                Error::Read => "failed to read file content"@,
                Error::Hash => "failed to compute a digest"@,
            },
    {
        match self {
            Error::Walk => "failed to read a directory entry",
            Error::Read => "failed to read file content",
            Error::Hash => "failed to compute a digest",
        }
    }
}

} // verus!
