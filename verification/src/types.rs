//! The plain value types the index and the search speak in.

use vstd::prelude::*;

verus! {

/// The sequence number of a message. The first message in the file has
/// `SeqNum(0)`.
#[derive(Debug, PartialEq, Eq, Structural, Copy, Clone, PartialOrd)]
pub struct SeqNum(pub u64);

/// A byte offset into the log file.
#[derive(Debug, PartialEq, Eq, Structural, Copy, Clone)]
pub struct ByteOffset(pub u64);

/// What the binary search looks for: an 8-byte big-endian field that sits
/// `field` bytes into each message body, and the value to match.
#[derive(Debug, PartialEq, Eq, Structural, Clone, Copy)]
pub struct Target {
    pub field: u64,
    pub value: u64,
}

} // verus!
