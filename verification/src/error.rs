use vstd::prelude::*;

use crate::BookId;

verus! {

/// The failure kinds a library operation can report.
///
/// Every fallible operation of the crate returns one of these; none are
/// swallowed or retried internally.
#[derive(Debug)]
pub enum LibraryError {
    /// A referenced path does not exist.
    FileNotFound(String),
    /// A book id is absent from the collection.
    BookNotFound(BookId),
    /// An underlying read, write or create on the filesystem failed.
    IoFailure(String),
    /// The persisted content could not be parsed as a library snapshot.
    SerializationFailure,
}

/// The result type of every fallible library operation.
pub type LibraryResult<T> = Result<T, LibraryError>;

} // verus!
