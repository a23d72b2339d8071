//! The errors that the store reports.
use vstd::prelude::*;

verus! {

/// Why an operation of the store failed.
#[derive(Debug, Clone, Copy, PartialEq, Eq, Structural)]
pub enum KvsError {
    /// A log record does not decode as one of the two commands.
    Codec,
    /// `remove` was asked for a key that the store does not hold.
    KeyNotFound,
    /// The index points into a generation that has no reader.
    ReaderNotFound,
}

} // verus!
