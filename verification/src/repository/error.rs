//! Errors of the repository.
use vstd::prelude::*;

verus! {

/// Errors of the repository.
#[derive(Debug, Clone, PartialEq, Eq)]
pub enum RepositoryError {
    /// A read or write failed; the message of the I/O error.
    Io(String),
    /// A chunk's flags hold bits of no known compression.
    UnsupportedCompression(u16),
    /// Stored data contradicts itself.
    Corrupted(&'static str),
    /// The chunk is stored already.
    DuplicateHash { hash: [u8; 32] },
    /// A chunk longer than a `u32` can count.
    ChunkTooLarge(usize),
    /// A write to a sealed pack or index.
    AlreadySealed { path: String },
    /// A file does not start with its magic number.
    InvalidMagic { expected: u32, actual: u32 },
    /// A file of another format version.
    InvalidVersion { expected: u16, actual: u16 },
    /// The reserved header field is not zero.
    ReservedNonZero,
    /// An entry count too large to handle.
    EntryCountOverflow,
    /// A sealed file whose checksum does not match its content.
    CrcMismatch { path: String },
    /// Index entries not in strictly increasing hash order.
    IndexOutOfOrder,
    /// No pack id is left in the shard.
    PackIdOverflow,
    /// No pack holds the chunk.
    ChunkNotFound { hash: [u8; 32] },
}

pub type Result<T> = core::result::Result<T, RepositoryError>;

} // verus!
