//! The errors that index operations report.

use std::collections::TryReserveError;
use vstd::prelude::*;

verus! {

/// Why an operation on an index failed.
#[derive(Debug, Clone, Copy, PartialEq, Eq, Structural)]
pub enum Error {
    /// The backing region reported an I/O failure.
    Io,
    /// A value could not be serialized, or bytes were not the serialized form
    /// of any value.
    Codec,
    /// An id or position lies beyond what is allocated.
    OutOfBounds,
    /// An invariant of the stored data does not hold.
    Internal,
    /// The dictionary was handed a term it already holds where it expected a
    /// new one.
    DuplicateEntry,
    /// The operation is not allowed in the current state or with these
    /// arguments.
    UnsupportedOperation,
}

/// What a request for room comes to, given what the allocator answered: room
/// that was had is success, room that could not be had is out of bounds.
pub fn room_made(outcome: Result<(), TryReserveError>) -> (r: Result<(), Error>)
    ensures
        r == if outcome is Ok {
            Ok::<(), Error>(())
        } else {
            Err::<(), Error>(Error::OutOfBounds)
        },
{
    match outcome {
        Ok(_) => Ok(()),
        Err(_) => Err(Error::OutOfBounds),
    }
}

} // verus!
