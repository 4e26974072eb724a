//! Failures of loading a stored collection.
use vstd::prelude::*;

verus! {

/// Why a stored collection could not be had.
#[derive(Debug, Clone, Copy, PartialEq, Eq, Structural)]
pub enum StorageError {
    /// The stored text does not describe a collection.
    MalformedStorage,
    /// The storage could not be opened, read or written.
    StorageUnavailable,
}

} // verus!
