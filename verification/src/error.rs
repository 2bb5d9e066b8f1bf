//! What can go wrong.

use vstd::prelude::*;

verus! {

/// Why an operation of the store failed.
#[derive(Clone, Copy, Debug, PartialEq, Eq, Structural)]
pub enum Error {
    /// The path given to `init` does not exist or is no directory.
    InvalidPath,
    /// The directory holds a version pointer, but the pointer, or the snapshot
    /// or the log of the version that it names, is missing or cannot be read.
    Recovery,
    /// A write could not be made durable.
    Write,
}

} // verus!
