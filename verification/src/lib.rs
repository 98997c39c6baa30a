//! Index an append-only, frame-structured log file and search it.
//!
//! A log file is a sequence of frames, each prefixed by an 8-byte big-endian
//! length that counts the prefix itself. The offset index maps each frame's
//! sequence number to the byte offset immediately following that frame (its
//! end offset), stored as a flat file of 8-byte big-endian entries. The index
//! is brought up to date incrementally: a load resumes scanning the log at the
//! last recorded end offset and appends one entry per newly completed frame.
//! A binary search then locates a message by an 8-byte big-endian field
//! embedded at a fixed offset in message bodies.
//!
//! File handling (opening, locking, memory-mapping) is left to the caller;
//! this library works on the bytes of the two files.

pub mod codec;
pub mod levels;
pub mod offsets;
pub mod search;
pub mod types;

pub use levels::log_level_from_int;
pub use levels::LogLevelFilter;
pub use offsets::MsgOffsets;
pub use search::binary_search;
pub use types::ByteOffset;
pub use types::SeqNum;
pub use types::Target;
