//! What a pack being written knows about itself: its identity and the
//! running totals of its chunks.
use vstd::prelude::*;
use std::path::PathBuf;
use super::constants::PACK_ENTRY_FIXED_SECTION;

verus! {

/// Which pack this is: its shard, its id, its base name and its directory.
#[derive(Debug)]
pub struct PackIdentity {
    pub shard: u8,
    pub pack_id: u32,
    pub base_name: String,
    pub directory: PathBuf,
}

/// Running totals of a pack: chunks, bytes of the chunks themselves, bytes
/// the entries take in the pack file.
#[derive(Debug, Clone, Copy, PartialEq, Eq)]
pub struct PackStats {
    pub chunk_count: u64,
    pub logical_bytes: u64,
    pub physical_bytes: u64,
}

/// The totals after one more chunk.
pub open spec fn applied(s: PackStats, logical_len: u32, stored_len: u32) -> PackStats {
    PackStats {
        chunk_count: (s.chunk_count + 1) as u64,
        logical_bytes: (s.logical_bytes + logical_len) as u64,
        physical_bytes: (s.physical_bytes + PACK_ENTRY_FIXED_SECTION + stored_len) as u64,
    }
}

/// `x - y`, or 0 when `y` is larger.
pub open spec fn sat_sub(x: u64, y: int) -> u64 {
    if x >= y {
        (x - y) as u64
    } else {
        0
    }
}

/// The totals after taking one chunk back, never below zero.
pub open spec fn rolled_back(s: PackStats, logical_len: u32, stored_len: u32) -> PackStats {
    PackStats {
        chunk_count: sat_sub(s.chunk_count, 1),
        logical_bytes: sat_sub(s.logical_bytes, logical_len as int),
        physical_bytes: sat_sub(s.physical_bytes, PACK_ENTRY_FIXED_SECTION + stored_len),
    }
}

/// The totals fit one more chunk of these lengths.
pub open spec fn can_apply(s: PackStats, logical_len: u32, stored_len: u32) -> bool {
    &&& s.chunk_count + 1 <= u64::MAX
    &&& s.logical_bytes + logical_len <= u64::MAX
    &&& s.physical_bytes + PACK_ENTRY_FIXED_SECTION + stored_len <= u64::MAX
}

impl PackStats {
    /// Counts one more chunk.
    pub fn apply_chunk(&mut self, logical_len: u32, stored_len: u32)
        requires
            can_apply(*old(self), logical_len, stored_len),
        ensures
            *final(self) == applied(*old(self), logical_len, stored_len),
    {
        self.chunk_count = self.chunk_count + 1;
        self.logical_bytes = self.logical_bytes + logical_len as u64;
        self.physical_bytes = self.physical_bytes + (PACK_ENTRY_FIXED_SECTION + stored_len as u64);
    }

    /// Takes one chunk back, never going below zero.
    pub fn rollback_chunk(&mut self, logical_len: u32, stored_len: u32)
        ensures
            *final(self) == rolled_back(*old(self), logical_len, stored_len),
    {
        self.chunk_count = self.chunk_count.saturating_sub(1);
        self.logical_bytes = self.logical_bytes.saturating_sub(logical_len as u64);
        self.physical_bytes = self.physical_bytes.saturating_sub(PACK_ENTRY_FIXED_SECTION + stored_len as u64);
    }

    /// Whether the pack is past a hard limit: more bytes than `size_limit`
    /// or more chunks than `chunk_limit`.
    pub fn exceeds_limits(&self, size_limit: u64, chunk_limit: u64) -> (r: bool)
        ensures
            r == (self.physical_bytes > size_limit || self.chunk_count > chunk_limit),
    {
        self.physical_bytes > size_limit || self.chunk_count > chunk_limit
    }
}

impl Default for PackStats {
    fn default() -> (r: Self)
        ensures
            r == (PackStats { chunk_count: 0, logical_bytes: 0, physical_bytes: 0 }),
    {
        PackStats { chunk_count: 0, logical_bytes: 0, physical_bytes: 0 }
    }
}

/// Taking a chunk back undoes counting it.
pub proof fn lemma_rollback_undoes_apply(s: PackStats, logical_len: u32, stored_len: u32)
    requires
        can_apply(s, logical_len, stored_len),
    ensures
        rolled_back(applied(s, logical_len, stored_len), logical_len, stored_len) == s,
{
}

} // verus!
