use vstd::prelude::*;
use crate::segment::ParseSegmentError;

verus! {

/// All the ways an operation on a store can fail.
#[derive(Debug, PartialEq)]
pub enum Error {
    /// The underlying storage failed; carries context for the operation.
    Io(String),
    /// The database driver or its connection pool failed.
    BackendDriver(String),
    /// A JSON value could not be encoded or decoded.
    Serialization(String),
    /// A string violates the segment rules.
    InvalidSegment(ParseSegmentError),
    /// A string cannot be parsed into a key.
    InvalidKey,
    /// The operation needs a key that is absent.
    UnknownKey,
    /// The backend URI scheme is not recognised.
    UnknownScheme(String),
    /// A transaction could not obtain its scope lock within the retry bounds.
    LockFailure(String),
    /// The preconditions of a namespace migration failed.
    NamespaceMigration(String),
    /// Any other invariant violation, described in words.
    Other(String),
}

} // verus!
