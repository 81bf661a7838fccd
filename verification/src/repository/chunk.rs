//! Chunks: their hash, their compression, and their record in a pack.
use vstd::prelude::*;
use vstd::bytes::spec_u32_to_le_bytes;
use super::constants::PACK_ENTRY_FIXED_SECTION;
use super::error::{RepositoryError, Result};
use super::io_utils::{blake3_of, compute_blake3_bytes};

verus! {

/// A chunk's 32-byte BLAKE3 hash.
pub type ChunkHash = [u8; 32];

/// The flag bit of LZ4 compression.
pub const LZ4_FLAG: u16 = 0x0001;
/// Every flag bit with a known meaning.
pub const KNOWN_FLAG_MASK: u16 = LZ4_FLAG;

/// What `lz4_flex::block::compress_prepend_size` makes of `data`.
pub uninterp spec fn lz4_block(data: Seq<u8>) -> Seq<u8>;

/// What `lz4_flex::block::decompress_size_prepended` reads from `data`, or
/// `None` where it reports an error.
pub uninterp spec fn lz4_unblock(data: Seq<u8>) -> Option<Seq<u8>>;

/// Compresses with `lz4_flex::block::compress_prepend_size`.  The contract
/// claims that the result is a function of the input; for an input a `u32`
/// can measure, that the result starts with the input's length as a
/// little-endian `u32` (as the crate documents) and that
/// `decompress_size_prepended` reads the input back from it (the crate
/// documents the two as a pair).
#[verifier::external_body]
fn lz4_compress(data: &[u8]) -> (r: Vec<u8>)
    ensures
        r@ == lz4_block(data@),
        data@.len() <= u32::MAX ==> r@.len() >= 4 && r@.subrange(0, 4) == spec_u32_to_le_bytes(data@.len() as u32),
        data@.len() <= u32::MAX ==> lz4_unblock(r@) == Some(data@),
{
    lz4_flex::block::compress_prepend_size(data)
}

/// Decompresses with `lz4_flex::block::decompress_size_prepended`; `None`
/// for its error.  The contract claims that the result is a function of the
/// input.
#[verifier::external_body]
fn lz4_decompress(data: &[u8]) -> (r: Option<Vec<u8>>)
    ensures
        match r {
            Some(v) => lz4_unblock(data@) == Some(v@),
            None => lz4_unblock(data@) is None,
        },
{
    match lz4_flex::block::decompress_size_prepended(data) {
        Ok(v) => Some(v),
        Err(_) => None,
    }
}

/// How a chunk's payload is compressed.
#[derive(Debug, Clone, Copy, PartialEq, Eq)]
pub enum Compression {
    /// Stored as is.
    Plain,
    /// LZ4 block with the length in front.
    Lz4,
}

/// The stored form of a chunk under a compression.
pub open spec fn encoded_payload(c: Compression, data: Seq<u8>) -> Seq<u8> {
    match c {
        Compression::Plain => data,
        Compression::Lz4 => lz4_block(data),
    }
}

/// The chunk read back from a stored payload, `None` when it does not read.
pub open spec fn decoded_payload(c: Compression, payload: Seq<u8>) -> Option<Seq<u8>> {
    match c {
        Compression::Plain => Some(payload),
        Compression::Lz4 => lz4_unblock(payload),
    }
}

/// The compression that flags name: 0 is none, 1 is LZ4, anything else is
/// unknown.
pub open spec fn compression_of_flags(flags: u16) -> Option<Compression> {
    if flags == 0 {
        Some(Compression::Plain)
    } else if flags == 1 {
        Some(Compression::Lz4)
    } else {
        None
    }
}

/// A copy of a byte slice.
pub fn copy_bytes(b: &[u8]) -> (r: Vec<u8>)
    ensures
        r@ == b@,
{
    let mut r: Vec<u8> = Vec::new();
    let mut i: usize = 0;
    while i < b.len()
        invariant
            i <= b@.len(),
            r@ == b@.take(i as int),
        decreases b@.len() - i,
    {
        r.push(b[i]);
        assert(b@.take(i + 1) =~= b@.take(i as int).push(b@[i as int]));
        i = i + 1;
    }
    assert(b@.take(b@.len() as int) =~= b@);
    r
}

impl Compression {
    /// The flags that record the compression.
    pub fn to_flags(self) -> (f: u16)
        ensures
            f == match self {
                Compression::Plain => 0u16,
                Compression::Lz4 => 1u16,
            },
            compression_of_flags(f) == Some(self),
    {
        match self {
            Compression::Plain => 0,
            Compression::Lz4 => LZ4_FLAG,
        }
    }

    /// The compression named by flags; an unknown flag bit is refused.
    pub fn from_flags(flags: u16) -> (r: Result<Compression>)
        ensures
            match compression_of_flags(flags) {
                Some(c) => r == Ok::<Compression, RepositoryError>(c),
                None => r == Err::<Compression, RepositoryError>(RepositoryError::UnsupportedCompression(flags)),
            },
    {
        if flags & !KNOWN_FLAG_MASK != 0 {
            assert(flags & !1u16 != 0 ==> flags > 1) by (bit_vector);
            return Err(RepositoryError::UnsupportedCompression(flags));
        }
        assert(flags & !1u16 == 0 ==> flags <= 1) by (bit_vector);
        if flags & LZ4_FLAG != 0 {
            assert(flags & 1u16 != 0 ==> flags != 0) by (bit_vector);
            Ok(Compression::Lz4)
        } else {
            assert(flags <= 1 && flags & 1u16 == 0 ==> flags == 0) by (bit_vector);
            Ok(Compression::Plain)
        }
    }

    /// The stored form of a chunk.  Reading it back with `decode` gives the
    /// chunk again, for any chunk a `u32` can measure.
    pub fn encode(self, original: &[u8]) -> (r: Result<EncodedChunk>)
        ensures
            r matches Ok(e) && e.payload@ == encoded_payload(self, original@) && e.compression == self,
            original@.len() <= u32::MAX ==> decoded_payload(self, encoded_payload(self, original@)) == Some(original@),
    {
        match self {
            Compression::Plain => Ok(EncodedChunk { payload: copy_bytes(original), compression: Compression::Plain }),
            Compression::Lz4 => Ok(EncodedChunk { payload: lz4_compress(original), compression: Compression::Lz4 }),
        }
    }

    /// The chunk read back from its stored form; an LZ4 payload that does
    /// not read is corrupted.
    pub fn decode(&self, encoded: &[u8]) -> (r: Result<Vec<u8>>)
        ensures
            match decoded_payload(*self, encoded@) {
                Some(d) => r matches Ok(v) && v@ == d,
                None => r == Err::<Vec<u8>, RepositoryError>(RepositoryError::Corrupted("LZ4 数据损坏")),
            },
    {
        match self {
            Compression::Plain => Ok(copy_bytes(encoded)),
            Compression::Lz4 => match lz4_decompress(encoded) {
                Some(v) => Ok(v),
                None => Err(RepositoryError::Corrupted("LZ4 数据损坏")),
            },
        }
    }
}

/// A chunk in its stored form.
#[derive(Debug, Clone)]
pub struct EncodedChunk {
    pub payload: Vec<u8>,
    pub compression: Compression,
}

impl EncodedChunk {
    /// Bytes of the stored form.
    pub fn len(&self) -> (n: usize)
        ensures
            n == self.payload@.len(),
    {
        self.payload.len()
    }
}

/// Where and how a chunk is stored in a pack.
#[derive(Debug, Clone)]
pub struct ChunkRecord {
    pub hash: ChunkHash,
    /// Offset of the entry in the pack file.
    pub offset: u64,
    /// Bytes of the stored payload.
    pub stored_len: u32,
    /// Bytes of the chunk itself.
    pub logical_len: u32,
    pub flags: u16,
}

/// Bytes an entry with this record takes in the pack: the fixed section
/// and the stored payload.
pub open spec fn entry_size(rec: ChunkRecord) -> int {
    PACK_ENTRY_FIXED_SECTION + rec.stored_len
}

impl ChunkRecord {
    /// The compression the record's flags name.
    pub fn compression(&self) -> (r: Result<Compression>)
        ensures
            match compression_of_flags(self.flags) {
                Some(c) => r == Ok::<Compression, RepositoryError>(c),
                None => r == Err::<Compression, RepositoryError>(RepositoryError::UnsupportedCompression(self.flags)),
            },
    {
        Compression::from_flags(self.flags)
    }

    /// Bytes the entry takes in the pack: the fixed section and the payload.
    pub fn entry_bytes(&self) -> (n: u64)
        ensures
            n == entry_size(*self),
    {
        PACK_ENTRY_FIXED_SECTION + self.stored_len as u64
    }
}

/// The hash of a chunk: its BLAKE3 digest.
pub fn compute_chunk_hash(data: &[u8]) -> (h: ChunkHash)
    ensures
        h@ == blake3_of(data@),
{
    compute_blake3_bytes(data)
}

} // verus!
