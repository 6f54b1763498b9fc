//! The failure taxonomy of this layer. Validation failures are detected
//! before any state changes, so a caller can always tell "your request was
//! invalid" apart from a partially applied one.

use vstd::prelude::*;

verus! {

/// What an operation of this layer can report.
#[derive(Clone, Copy, Debug, PartialEq, Eq, Structural)]
pub enum Error {
    /// A column family outside the set declared at open time was named.
    UnknownColumnFamily,
    /// A range operation whose end key sorts before its begin key.
    InvalidRange,
    /// A sorted-table writer received a key not above the previous one.
    KeyOrderViolation,
    /// A cursor was stepped while it was not positioned.
    CursorMisuse,
    /// A save-point operation found the marker stack empty.
    NoSavePoint,
}

} // verus!
