use vstd::prelude::*;

verus! {

/// The single error taxonomy of the crate: a storage operation failed
/// (missing or truncated cache entry, unreadable source).  Errors are
/// surfaced to the caller unmodified; there is no retry and no partial
/// result.
#[derive(Clone, Copy, Debug, PartialEq, Eq, Structural)]
pub struct IoError;

} // verus!
