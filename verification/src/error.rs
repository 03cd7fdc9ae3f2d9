//! Error kinds shared by the storage core and the wire-protocol reader.
use vstd::prelude::*;

verus! {

/// Why a wire-protocol frame was rejected.
#[derive(Debug, Clone, Copy, PartialEq, Eq, Structural)]
pub enum ProtocolFault {
    /// The value line is empty or starts with a byte that names no value kind.
    InvalidPrefix,
    /// The text after `:` is not a signed 64-bit decimal integer.
    InvalidInteger,
    /// The text after `$` or `*` is not a signed 64-bit decimal integer.
    InvalidLength,
    /// A bulk string announces a length below -1.
    NegativeLength,
    /// The input ends before the announced bulk string and its terminator.
    TruncatedBulkString,
    /// The announced bulk string is not followed by `\r\n`.
    MissingTerminator,
    /// The input ends before all announced array elements were read.
    MissingElements,
}

/// The conditions under which an operation of this crate fails.
#[derive(Debug, Clone, Copy, PartialEq, Eq, Structural)]
pub enum TinkvError {
    /// A read or a write could not be carried out: the segment ends before
    /// the bytes asked for, it is sealed, or a size or a segment id would
    /// leave the machine's range.
    Io,
    /// A record failed validation outside the tolerated damaged tail.
    Corrupt,
    /// A malformed wire-protocol frame.
    Protocol(ProtocolFault),
    /// Strict deletion of a key that is not live.
    NotFound,
    /// The directory is held by another store.
    Locked,
    /// The store was closed before the operation.
    Closed,
    /// An empty value was offered to `put`; empty values mark deletions.
    EmptyValue,
}

/// What the operations of this crate return.
pub type Result<T> = core::result::Result<T, TinkvError>;

} // verus!
