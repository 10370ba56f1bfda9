//! The error vocabulary of the store.

use vstd::prelude::*;

verus! {

/// What can go wrong while operating on the store.
///
/// "Key not found" is deliberately not here: absence is a normal, successful
/// outcome of a lookup, not an error.
#[derive(Clone, Copy, Debug, PartialEq, Eq, Structural)]
pub enum KvError {
    /// The backing file could not be created or opened.
    OpenFailure,
    /// A read, write or seek on the backing storage failed after opening.
    IoFailure,
    /// End of the log was reached in the middle of a record (a partial
    /// header or a partial key/value body).  Fatal: the store performs no
    /// truncation-based repair.
    UnexpectedEndOfLog,
    /// A direct read at an indexed offset found a key different from the one
    /// that was looked up: the index and the log disagree.
    IndexIntegrityMismatch,
}

} // verus!
