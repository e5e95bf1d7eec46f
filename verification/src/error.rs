//! Error type of the library.
use vstd::prelude::*;

verus! {

/// Errors that the library reports.
#[derive(Debug, Clone, PartialEq, Eq)]
pub enum Error {
    /// A file or directory does not exist or cannot be read.
    FileNotFound(String),
    /// The storage backend failed.
    Storage(String),
    /// The search query cannot be run.
    InvalidQuery(String),
    /// Search or embedding failed.
    Search(String),
    /// Indexing failed.
    Index(String),
    /// Watching the file system failed.
    Watch(String),
    /// No index exists at the given path.
    IndexNotFound(String),
    /// An I/O operation failed.
    Io(String),
    /// Encoding or decoding a value failed.
    Serialization(String),
}

} // verus!
