//! The kinds of failure that the write path reports.
use vstd::prelude::*;

verus! {

/// A failure of the write path or of the directory beneath it.
#[derive(Debug, PartialEq, Eq)]
pub enum TantivyError {
    /// A file that was to be read or deleted is missing.
    FileDoesNotExist(String),
    /// A file that was to be created exclusively is already there.
    FileAlreadyExists(String),
    /// Any other failure of the underlying storage, with the path concerned
    /// and a description of the cause.
    IOError(String, String),
    /// Another writer holds the lock of the directory.
    LockBusy,
    /// The lock of the directory could not be taken for a storage reason.
    LockIOError(String),
    /// An argument is out of its allowed range.
    InvalidArgument(String),
    /// An indexing or merging task failed.
    ErrorInThread(String),
    /// A merge was cancelled.
    Cancelled,
}

} // verus!
