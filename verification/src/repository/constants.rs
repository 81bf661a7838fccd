//! Sizes, magic numbers and names of the repository's files.
use vstd::prelude::*;

verus! {

/// Bytes of a chunk hash.
pub const HASH_SIZE: usize = 32;
/// Bytes of a pack entry before its payload: stored length (4), flags (2)
/// and hash (32).
pub const PACK_ENTRY_FIXED_SECTION: u64 = 38;
/// Bytes of a pack header: magic (4), version (2), reserved (4).
pub const PACK_HEADER_SIZE: u64 = 10;
/// Bytes of the checksum that seals a pack.
pub const PACK_TRAILER_SIZE: u64 = 4;
/// Magic number of pack files.
pub const PACK_MAGIC: u32 = 0x4b43_4150;
/// Format version of pack files.
pub const PACK_VERSION: u16 = 1;
/// Bytes of an index header: magic (4), version (2), reserved (4), entry count (8).
pub const INDEX_HEADER_SIZE: u64 = 18;
/// Bytes of an index entry: hash (32), offset (8), length (4), flags (2).
pub const INDEX_ENTRY_SIZE: u64 = 46;
/// Bytes of the checksum that seals an index.
pub const INDEX_TRAILER_SIZE: u64 = 4;
/// Magic number of index files.
pub const INDEX_MAGIC: u32 = 0x5844_4943;
/// Format version of index files.
pub const INDEX_VERSION: u16 = 1;
/// Prefix of shard directory names.
pub const SHARD_DIR_PREFIX: &'static str = "shard-";
/// Prefix of pack file names.
pub const PACK_FILE_PREFIX: &'static str = "pack-";
/// Suffix of pack data files.
pub const PACK_DATA_SUFFIX: &'static str = ".dat";
/// Suffix of pack index files.
pub const PACK_INDEX_SUFFIX: &'static str = ".idx";

} // verus!
