//! Pack files: a header, then one entry per chunk (stored length, flags,
//! hash, payload), and once sealed a CRC-32 of everything before it.  The
//! writer, the index beside it and the bundle of the two decide what goes
//! into the files; the bytes are written by the caller.
use vstd::prelude::*;
use vstd::bytes::{
    lemma_auto_spec_u16_to_from_le_bytes, lemma_auto_spec_u32_to_from_le_bytes, spec_u16_to_le_bytes,
    spec_u32_to_le_bytes, u16_from_le_bytes, u16_to_le_bytes, u32_from_le_bytes, u32_to_le_bytes,
};
use vstd::slice::slice_subrange;
use super::bundle::{applied, can_apply, rolled_back, PackIdentity, PackStats};
use super::chunk::{
    compression_of_flags, compute_chunk_hash, copy_bytes, decoded_payload, encoded_payload, entry_size, ChunkHash, ChunkRecord,
    Compression,
};
use super::constants::{PACK_ENTRY_FIXED_SECTION, PACK_HEADER_SIZE, PACK_MAGIC, PACK_TRAILER_SIZE, PACK_VERSION};
use super::error::{RepositoryError, Result};
use super::index::{
    encode_index, entry_views, find_entry_index, hash_eq, index_file, insert_entry, push_bytes, sorted_by_hash,
    u16_at, u32_at, decode_index, fault_error, index_entries, index_fault, index_sealed, IndexEntry, IndexEntryView,
};
use super::io_utils::{blake3_of, crc32_digest, crc32_of};
use crate::text::copy_string;

verus! {

// ---------------------------------------------------------------------------
// The file format.
// ---------------------------------------------------------------------------

/// The header of a pack: magic, version, a reserved zero.
pub open spec fn pack_header_spec() -> Seq<u8> {
    spec_u32_to_le_bytes(PACK_MAGIC) + spec_u16_to_le_bytes(PACK_VERSION) + spec_u32_to_le_bytes(0)
}

/// The entry of a chunk: stored length, flags, hash, payload.
pub open spec fn pack_entry_spec(hash: Seq<u8>, flags: u16, payload: Seq<u8>) -> Seq<u8> {
    spec_u32_to_le_bytes(payload.len() as u32) + spec_u16_to_le_bytes(flags) + hash + payload
}

/// The trailer that seals a pack holding `data`: its CRC-32.
pub open spec fn pack_trailer_spec(data: Seq<u8>) -> Seq<u8> {
    spec_u32_to_le_bytes(crc32_of(data))
}

/// The bytes of the header of a new pack.
pub fn pack_header_bytes() -> (r: Vec<u8>)
    ensures
        r@ == pack_header_spec(),
        r@.len() == PACK_HEADER_SIZE,
{
    proof {
        lemma_auto_spec_u16_to_from_le_bytes();
        lemma_auto_spec_u32_to_from_le_bytes();
    }
    let mut out: Vec<u8> = Vec::new();
    push_bytes(&mut out, u32_to_le_bytes(PACK_MAGIC).as_slice());
    push_bytes(&mut out, u16_to_le_bytes(PACK_VERSION).as_slice());
    push_bytes(&mut out, u32_to_le_bytes(0).as_slice());
    out
}

/// The bytes of the entry of a chunk.
pub fn pack_entry_bytes(hash: &ChunkHash, flags: u16, payload: &[u8]) -> (r: Vec<u8>)
    requires
        payload@.len() <= u32::MAX,
    ensures
        r@ == pack_entry_spec(hash@, flags, payload@),
        r@.len() == PACK_ENTRY_FIXED_SECTION + payload@.len(),
{
    proof {
        lemma_auto_spec_u16_to_from_le_bytes();
        lemma_auto_spec_u32_to_from_le_bytes();
    }
    let mut out: Vec<u8> = Vec::new();
    push_bytes(&mut out, u32_to_le_bytes(payload.len() as u32).as_slice());
    push_bytes(&mut out, u16_to_le_bytes(flags).as_slice());
    push_bytes(&mut out, hash.as_slice());
    push_bytes(&mut out, payload);
    out
}

/// The trailer that seals a pack holding `data`.
pub fn pack_trailer_bytes(data: &[u8]) -> (r: Vec<u8>)
    ensures
        r@ == pack_trailer_spec(data@),
{
    let crc = crc32_digest(data);
    let mut out: Vec<u8> = Vec::new();
    push_bytes(&mut out, u32_to_le_bytes(crc).as_slice());
    out
}

/// The length of a pack's data and whether it is sealed: a pack at least
/// header and trailer long whose last four bytes are the CRC-32 of the
/// rest is sealed, its data the rest; otherwise all of it is data.
pub open spec fn pack_extent(b: Seq<u8>) -> (u64, bool) {
    if b.len() < PACK_HEADER_SIZE + PACK_TRAILER_SIZE {
        (b.len() as u64, false)
    } else if crc32_of(b.take(b.len() - 4)) == u32_at(b, b.len() - 4) {
        ((b.len() - 4) as u64, true)
    } else {
        (b.len() as u64, false)
    }
}

/// What opening a pack with content `b` gives: its extent, or the fault of
/// its header.
pub open spec fn pack_opened(b: Seq<u8>) -> Result<(u64, bool)> {
    if b.len() < PACK_HEADER_SIZE {
        Err(RepositoryError::Corrupted("pack 文件长度非法"))
    } else if u32_at(b, 0) != PACK_MAGIC {
        Err(RepositoryError::InvalidMagic { expected: PACK_MAGIC, actual: u32_at(b, 0) })
    } else if u16_at(b, 4) != PACK_VERSION {
        Err(RepositoryError::InvalidVersion { expected: PACK_VERSION, actual: u16_at(b, 4) })
    } else if u32_at(b, 6) != 0 {
        Err(RepositoryError::ReservedNonZero)
    } else {
        Ok(pack_extent(b))
    }
}

/// Checks the header of a pack with content `image` and finds its extent.
pub fn open_pack(image: &[u8]) -> (r: Result<(u64, bool)>)
    requires
        image@.len() <= u64::MAX,
    ensures
        r == pack_opened(image@),
{
    let n = image.len();
    if (n as u64) < PACK_HEADER_SIZE {
        return Err(RepositoryError::Corrupted("pack 文件长度非法"));
    }
    let magic = u32_from_le_bytes(slice_subrange(image, 0, 4));
    if magic != PACK_MAGIC {
        return Err(RepositoryError::InvalidMagic { expected: PACK_MAGIC, actual: magic });
    }
    let version = u16_from_le_bytes(slice_subrange(image, 4, 6));
    if version != PACK_VERSION {
        return Err(RepositoryError::InvalidVersion { expected: PACK_VERSION, actual: version });
    }
    let reserved = u32_from_le_bytes(slice_subrange(image, 6, 10));
    if reserved != 0 {
        return Err(RepositoryError::ReservedNonZero);
    }
    if (n as u64) < PACK_HEADER_SIZE + PACK_TRAILER_SIZE {
        return Ok((n as u64, false));
    }
    let d = n - 4;
    let stored = u32_from_le_bytes(slice_subrange(image, d, n));
    let crc = crc32_digest(slice_subrange(image, 0, d));
    assert(image@.subrange(0, d as int) =~= image@.take(d as int));
    assert(image@.subrange(d as int, n as int) =~= image@.subrange(d as int, d + 4));
    if crc == stored {
        Ok((d as u64, true))
    } else {
        Ok((n as u64, false))
    }
}

/// What reading the chunk of `e` from a pack with content `b` and data
/// length `data_len` gives: the chunk, or why the pack and the entry
/// disagree.
pub open spec fn pack_read(b: Seq<u8>, data_len: u64, e: IndexEntryView) -> Result<Seq<u8>> {
    let off = e.offset as int;
    let end = off + PACK_ENTRY_FIXED_SECTION + e.length;
    if end > data_len {
        Err(RepositoryError::Corrupted("索引 offset 超出 pack 长度"))
    } else if u32_at(b, off) != e.length {
        Err(RepositoryError::Corrupted("索引长度与 pack 不匹配"))
    } else if u16_at(b, off + 4) != e.flags {
        Err(RepositoryError::Corrupted("索引 flags 与 pack 不匹配"))
    } else if b.subrange(off + 6, off + 38) != e.hash {
        Err(RepositoryError::Corrupted("索引 hash 与 pack 不匹配"))
    } else {
        match compression_of_flags(e.flags) {
            None => Err(RepositoryError::UnsupportedCompression(e.flags)),
            Some(c) => match decoded_payload(c, b.subrange(off + 38, end)) {
                Some(d) => Ok(d),
                None => Err(RepositoryError::Corrupted("LZ4 数据损坏")),
            },
        }
    }
}

/// Reads the chunk of an index entry from a pack with content `image`
/// whose data is its first `data_len` bytes.
pub fn read_pack_entry(image: &[u8], data_len: u64, entry: &IndexEntry) -> (r: Result<Vec<u8>>)
    requires
        data_len <= image@.len(),
        entry.offset + PACK_ENTRY_FIXED_SECTION + entry.length <= u64::MAX,
    ensures
        match pack_read(image@, data_len, entry@) {
            Ok(d) => r matches Ok(v) && v@ == d,
            Err(e) => r == Err::<Vec<u8>, RepositoryError>(e),
        },
{
    let end = entry.offset + PACK_ENTRY_FIXED_SECTION + entry.length as u64;
    if end > data_len {
        return Err(RepositoryError::Corrupted("索引 offset 超出 pack 长度"));
    }
    let n = image.len();
    assert(entry.offset + 38 + entry.length <= n);
    let off = entry.offset as usize;
    assert(off == entry.offset);
    let stored_len = u32_from_le_bytes(slice_subrange(image, off, off + 4));
    if stored_len != entry.length {
        return Err(RepositoryError::Corrupted("索引长度与 pack 不匹配"));
    }
    let flags = u16_from_le_bytes(slice_subrange(image, off + 4, off + 6));
    if flags != entry.flags {
        return Err(RepositoryError::Corrupted("索引 flags 与 pack 不匹配"));
    }
    let mut hash = [0u8; 32];
    let mut k: usize = 0;
    while k < 32
        invariant
            k <= 32,
            off + 38 <= image@.len(),
            image@.len() == n,
            hash@.len() == 32,
            forall|q: int| 0 <= q < k ==> hash@[q] == image@[off + 6 + q],
        decreases 32 - k,
    {
        hash[k] = image[off + 6 + k];
        k = k + 1;
    }
    assert(hash@ =~= image@.subrange(off + 6, off + 38));
    if !hash_eq(&hash, &entry.hash) {
        return Err(RepositoryError::Corrupted("索引 hash 与 pack 不匹配"));
    }
    let payload = slice_subrange(image, off + 38, off + 38 + entry.length as usize);
    let compression = match Compression::from_flags(flags) {
        Ok(c) => c,
        Err(e) => { return Err(e); },
    };
    compression.decode(payload)
}

/// The flags that record a compression.
pub open spec fn flags_of(c: Compression) -> u16 {
    match c {
        Compression::Plain => 0u16,
        Compression::Lz4 => 1u16,
    }
}

/// An entry written at offset `pre.len()` of a pack reads back as the chunk
/// it was written for, whatever comes before and after it, as long as the
/// data length covers it.
pub proof fn lemma_pack_entry_roundtrip(
    pre: Seq<u8>,
    post: Seq<u8>,
    hash: Seq<u8>,
    c: Compression,
    payload: Seq<u8>,
    data: Seq<u8>,
    data_len: u64,
)
    requires
        hash.len() == 32,
        payload.len() <= u32::MAX,
        decoded_payload(c, payload) == Some(data),
        pre.len() + PACK_ENTRY_FIXED_SECTION + payload.len() <= data_len,
    ensures
        pack_read(
            pre + pack_entry_spec(hash, flags_of(c), payload) + post,
            data_len,
            IndexEntryView { hash, offset: pre.len() as u64, length: payload.len() as u32, flags: flags_of(c) },
        ) == Ok::<Seq<u8>, RepositoryError>(data),
{
    lemma_auto_spec_u16_to_from_le_bytes();
    lemma_auto_spec_u32_to_from_le_bytes();
    let ent = pack_entry_spec(hash, flags_of(c), payload);
    let b = pre + ent + post;
    let off = pre.len() as int;
    let l32 = spec_u32_to_le_bytes(payload.len() as u32);
    let l16 = spec_u16_to_le_bytes(flags_of(c));
    assert(b.subrange(off, off + 4) =~= l32);
    assert(b.subrange(off + 4, off + 6) =~= l16);
    assert(b.subrange(off + 6, off + 38) =~= hash);
    assert(b.subrange(off + 38, off + 38 + payload.len()) =~= payload);
}

// ---------------------------------------------------------------------------
// The writer of a pack.
// ---------------------------------------------------------------------------

/// What a pack being written knows of itself: where it is, how long it is,
/// whether it is sealed, its totals.
#[derive(Debug)]
pub struct PackWriter {
    path: String,
    len: u64,
    sealed: bool,
    stats: PackStats,
}

/// The error of a write to a sealed file.
pub open spec fn sealed_error(path: Seq<char>, e: RepositoryError) -> bool {
    e matches RepositoryError::AlreadySealed { path: p } && p@ == path
}

impl PackWriter {
    pub closed spec fn path_view(&self) -> Seq<char> {
        self.path@
    }

    /// Bytes written so far.
    pub closed spec fn len_view(&self) -> u64 {
        self.len
    }

    pub closed spec fn sealed_view(&self) -> bool {
        self.sealed
    }

    pub closed spec fn stats_view(&self) -> PackStats {
        self.stats
    }

    /// A new pack at `path` holding its header only.
    pub fn new(path: &str) -> (r: Self)
        ensures
            r.path_view() == path@,
            r.len_view() == PACK_HEADER_SIZE,
            !r.sealed_view(),
            r.stats_view() == (PackStats { chunk_count: 0, logical_bytes: 0, physical_bytes: 0 }),
    {
        PackWriter { path: String::from_str(path), len: PACK_HEADER_SIZE, sealed: false, stats: PackStats::default() }
    }

    /// Refuses a write to a sealed pack.
    pub fn ensure_open(&self) -> (r: Result<()>)
        ensures
            r is Ok <==> !self.sealed_view(),
            r matches Err(e) ==> sealed_error(self.path_view(), e),
    {
        if self.sealed {
            Err(RepositoryError::AlreadySealed { path: copy_string(&self.path) })
        } else {
            Ok(())
        }
    }

    /// Appends the entry of a chunk: its record, and the bytes to append to
    /// the file.
    pub fn append_chunk(&mut self, hash: ChunkHash, logical_len: u32, flags: u16, payload: &[u8]) -> (r: Result<(ChunkRecord, Vec<u8>)>)
        requires
            old(self).len_view() + PACK_ENTRY_FIXED_SECTION + payload@.len() <= u64::MAX,
            payload@.len() <= u32::MAX ==> can_apply(old(self).stats_view(), logical_len, payload@.len() as u32),
        ensures
            final(self).path_view() == old(self).path_view(),
            final(self).sealed_view() == old(self).sealed_view(),
            old(self).sealed_view() ==> (r matches Err(e) && sealed_error(old(self).path_view(), e)),
            !old(self).sealed_view() && payload@.len() > u32::MAX ==> r == Err::<(ChunkRecord, Vec<u8>), RepositoryError>(
                RepositoryError::ChunkTooLarge(payload@.len() as usize)),
            r is Err ==> final(self).len_view() == old(self).len_view() && final(self).stats_view() == old(self).stats_view(),
            !old(self).sealed_view() && payload@.len() <= u32::MAX ==> (r matches Ok((rec, bytes)) && {
                &&& rec == (ChunkRecord { hash, offset: old(self).len_view(), stored_len: payload@.len() as u32, logical_len, flags })
                &&& bytes@ == pack_entry_spec(hash@, flags, payload@)
                &&& bytes@.len() == PACK_ENTRY_FIXED_SECTION + payload@.len()
                &&& final(self).len_view() == old(self).len_view() + PACK_ENTRY_FIXED_SECTION + payload@.len()
                &&& final(self).len_view() == rec.offset + entry_size(rec)
                &&& final(self).stats_view() == applied(old(self).stats_view(), logical_len, payload@.len() as u32)
            }),
    {
        match self.ensure_open() {
            Err(e) => { return Err(e); },
            Ok(()) => {},
        }
        if payload.len() as u64 > u32::MAX as u64 {
            return Err(RepositoryError::ChunkTooLarge(payload.len()));
        }
        let stored_len = payload.len() as u32;
        let offset = self.len;
        let bytes = pack_entry_bytes(&hash, flags, payload);
        self.len = self.len + PACK_ENTRY_FIXED_SECTION + stored_len as u64;
        self.stats.apply_chunk(logical_len, stored_len);
        Ok((ChunkRecord { hash, offset, stored_len, logical_len, flags }, bytes))
    }

    /// Takes back the entry of `record`: the file is to be cut to its offset.
    pub fn rewind(&mut self, record: &ChunkRecord) -> (r: Result<()>)
        ensures
            final(self).path_view() == old(self).path_view(),
            final(self).sealed_view() == old(self).sealed_view(),
            r is Ok <==> !old(self).sealed_view(),
            r matches Err(e) ==> sealed_error(old(self).path_view(), e),
            r is Ok ==> final(self).len_view() == record.offset
                && final(self).stats_view() == rolled_back(old(self).stats_view(), record.logical_len, record.stored_len),
            r is Err ==> final(self).len_view() == old(self).len_view() && final(self).stats_view() == old(self).stats_view(),
    {
        match self.ensure_open() {
            Err(e) => { return Err(e); },
            Ok(()) => {},
        }
        self.len = record.offset;
        self.stats.rollback_chunk(record.logical_len, record.stored_len);
        Ok(())
    }

    /// Seals the pack whose content so far is `data`: the trailer to append.
    pub fn seal(&mut self, data: &[u8]) -> (r: Result<Vec<u8>>)
        ensures
            final(self).path_view() == old(self).path_view(),
            final(self).stats_view() == old(self).stats_view(),
            final(self).len_view() == old(self).len_view(),
            old(self).sealed_view() ==> (r matches Err(e) && sealed_error(old(self).path_view(), e) && final(self).sealed_view()),
            !old(self).sealed_view() ==> (r matches Ok(t) && t@ == pack_trailer_spec(data@) && final(self).sealed_view()),
    {
        match self.ensure_open() {
            Err(e) => { return Err(e); },
            Ok(()) => {},
        }
        let trailer = pack_trailer_bytes(data);
        self.sealed = true;
        Ok(trailer)
    }

    /// The totals of the pack.
    pub fn stats(&self) -> (r: &PackStats)
        ensures
            *r == self.stats_view(),
    {
        &self.stats
    }

    /// Where the pack is.
    pub fn path(&self) -> (r: &String)
        ensures
            r@ == self.path_view(),
    {
        &self.path
    }

    /// Bytes written so far.
    pub fn len(&self) -> (r: u64)
        ensures
            r == self.len_view(),
    {
        self.len
    }
}

// ---------------------------------------------------------------------------
// The index being written beside a pack.
// ---------------------------------------------------------------------------

/// The index of a pack being written: entries sorted by hash.
#[derive(Debug)]
pub struct MutableIndex {
    path: String,
    entries: Vec<IndexEntry>,
    sealed: bool,
}

impl MutableIndex {
    pub closed spec fn wf(&self) -> bool {
        sorted_by_hash(entry_views(self.entries@))
    }

    pub closed spec fn path_view(&self) -> Seq<char> {
        self.path@
    }

    pub closed spec fn entries_view(&self) -> Seq<IndexEntryView> {
        entry_views(self.entries@)
    }

    pub closed spec fn sealed_view(&self) -> bool {
        self.sealed
    }

    /// Whether an entry has this hash.
    pub open spec fn has_hash(&self, hash: Seq<u8>) -> bool {
        exists|i: int| 0 <= i < self.entries_view().len() && (#[trigger] self.entries_view()[i]).hash == hash
    }

    /// A new, empty index at `path`.
    pub fn new(path: &str) -> (r: Self)
        ensures
            r.wf(),
            r.path_view() == path@,
            r.entries_view() == Seq::<IndexEntryView>::empty(),
            !r.sealed_view(),
    {
        let r = MutableIndex { path: String::from_str(path), entries: Vec::new(), sealed: false };
        assert(r.entries_view() =~= Seq::<IndexEntryView>::empty());
        r
    }

    /// The index read from a file's content; a sealed file cannot be
    /// written any more and is refused.
    pub fn from_file_bytes(path: &str, bytes: &[u8]) -> (r: Result<Self>)
        ensures
            index_fault(bytes@) is None && !index_sealed(bytes@) ==> (r matches Ok(m) && m.wf() && m.path_view() == path@
                && !m.sealed_view() && m.entries_view() == index_entries(bytes@)),
            index_fault(bytes@) is None && index_sealed(bytes@) ==> (r matches Err(e) && sealed_error(path@, e)),
            index_fault(bytes@) matches Some(f) ==> (r matches Err(e) && fault_error(f, e, path@)),
    {
        let (entries, sealed) = match decode_index(bytes, path) {
            Ok(x) => x,
            Err(e) => { return Err(e); },
        };
        if sealed {
            return Err(RepositoryError::AlreadySealed { path: String::from_str(path) });
        }
        Ok(MutableIndex { path: String::from_str(path), entries, sealed: false })
    }

    /// The entries, sorted by hash.
    pub fn entries(&self) -> (r: &[IndexEntry])
        ensures
            entry_views(r@) == self.entries_view(),
    {
        self.entries.as_slice()
    }

    /// The entry with this hash, if any.
    pub fn find(&self, hash: &ChunkHash) -> (r: Option<&IndexEntry>)
        requires
            self.wf(),
        ensures
            r is Some <==> self.has_hash(hash@),
            r matches Some(e) ==> e.hash@ == hash@ && exists|i: int| 0 <= i < self.entries_view().len() && self.entries_view()[i] == e@,
    {
        match find_entry_index(self.entries.as_slice(), hash) {
            Some(i) => {
                assert(self.entries_view()[i as int] == self.entries@[i as int]@);
                Some(&self.entries[i])
            },
            None => {
                assert forall|i: int| 0 <= i < self.entries_view().len() implies (#[trigger] self.entries_view()[i]).hash != hash@ by {
                    assert(self.entries_view()[i] == self.entries@[i]@);
                }
                None
            },
        }
    }

    /// Whether an entry has this hash.
    pub fn contains(&self, hash: &ChunkHash) -> (r: bool)
        requires
            self.wf(),
        ensures
            r == self.has_hash(hash@),
    {
        self.find(hash).is_some()
    }

    /// Adds an entry at its place; refused for a sealed index or a hash
    /// already present.
    pub fn insert(&mut self, entry: IndexEntry) -> (r: Result<()>)
        requires
            old(self).wf(),
        ensures
            final(self).wf(),
            final(self).path_view() == old(self).path_view(),
            final(self).sealed_view() == old(self).sealed_view(),
            old(self).sealed_view() ==> (r matches Err(e) && sealed_error(old(self).path_view(), e)),
            !old(self).sealed_view() && old(self).has_hash(entry.hash@) ==> r == Err::<(), RepositoryError>(
                RepositoryError::DuplicateHash { hash: entry.hash }),
            r is Err ==> final(self).entries_view() == old(self).entries_view(),
            !old(self).sealed_view() && !old(self).has_hash(entry.hash@) ==> r is Ok,
            r is Ok ==> final(self).has_hash(entry.hash@) && final(self).entries_view().len() == old(self).entries_view().len() + 1
                && (exists|p: int| 0 <= p <= old(self).entries_view().len() && final(self).entries_view() == old(self).entries_view().insert(p, entry@)),
    {
        if self.sealed {
            return Err(RepositoryError::AlreadySealed { path: copy_string(&self.path) });
        }
        let ghost before = self.entries@;
        proof {
            assert forall|i: int| 0 <= i < before.len() implies (#[trigger] before[i]).hash@ == entry_views(before)[i].hash by {}
            if self.has_hash(entry.hash@) {
                let i = choose|i: int| 0 <= i < self.entries_view().len() && (#[trigger] self.entries_view()[i]).hash == entry.hash@;
                assert(before[i].hash@ == entry.hash@);
            }
        }
        let r = insert_entry(&mut self.entries, entry);
        proof {
            if r is Ok {
                let p = choose|p: int| 0 <= p <= before.len() && self.entries@ == before.insert(p, entry);
                assert(entry_views(self.entries@) =~= entry_views(before).insert(p, entry@));
                assert(self.entries_view()[p] == entry@);
            } else {
                let i = choose|i: int| 0 <= i < before.len() && (#[trigger] before[i]).hash@ == entry.hash@;
                assert(entry_views(before)[i].hash == entry.hash@);
            }
        }
        r
    }

    /// Seals the index: no entry can be added any more.
    pub fn seal(&mut self) -> (r: Result<()>)
        ensures
            final(self).wf() == old(self).wf(),
            final(self).path_view() == old(self).path_view(),
            final(self).entries_view() == old(self).entries_view(),
            final(self).sealed_view(),
            r is Ok <==> !old(self).sealed_view(),
            r matches Err(e) ==> sealed_error(old(self).path_view(), e),
    {
        if self.sealed {
            return Err(RepositoryError::AlreadySealed { path: copy_string(&self.path) });
        }
        self.sealed = true;
        Ok(())
    }

    /// The content of the index file as it stands.
    pub fn file_bytes(&self) -> (r: Vec<u8>)
        ensures
            r@ == index_file(self.entries_view(), self.sealed_view()),
    {
        encode_index(self.entries.as_slice(), self.sealed)
    }

    /// Whether the index is sealed.
    pub fn sealed(&self) -> (r: bool)
        ensures
            r == self.sealed_view(),
    {
        self.sealed
    }
}

// ---------------------------------------------------------------------------
// A pack and its index, written together.
// ---------------------------------------------------------------------------

/// `after` is `before` with `e` inserted at some position.
pub open spec fn inserted_once(before: Seq<IndexEntryView>, after: Seq<IndexEntryView>, e: IndexEntryView) -> bool {
    exists|p: int| 0 <= p <= before.len() && after == #[trigger] before.insert(p, e)
}

/// A pack being written, with its index.
#[derive(Debug)]
pub struct PackBundle {
    identity: PackIdentity,
    pack: PackWriter,
    index: MutableIndex,
}

impl PackBundle {
    pub closed spec fn wf(&self) -> bool {
        self.index.wf()
    }

    pub closed spec fn pack_view(&self) -> PackWriter {
        self.pack
    }

    pub closed spec fn index_view(&self) -> MutableIndex {
        self.index
    }

    pub closed spec fn identity_view(&self) -> PackIdentity {
        self.identity
    }

    /// A new bundle: the pack at `pack_path` holds its header, the index at
    /// `index_path` no entry.
    pub fn new(identity: PackIdentity, pack_path: &str, index_path: &str) -> (r: Self)
        ensures
            r.wf(),
            r.identity_view() == identity,
            r.pack_view().path_view() == pack_path@,
            r.pack_view().len_view() == PACK_HEADER_SIZE,
            !r.pack_view().sealed_view(),
            r.pack_view().stats_view() == (PackStats { chunk_count: 0, logical_bytes: 0, physical_bytes: 0 }),
            r.index_view().path_view() == index_path@,
            r.index_view().entries_view() == Seq::<IndexEntryView>::empty(),
            !r.index_view().sealed_view(),
    {
        PackBundle { identity, pack: PackWriter::new(pack_path), index: MutableIndex::new(index_path) }
    }

    /// Adds a chunk: its record, and the bytes to append to the pack file
    /// (the index file is then to be rewritten with `index_bytes`).  A chunk
    /// already in the index is refused; so is one too long for its length to
    /// be recorded.
    pub fn append_chunk(&mut self, data: &[u8], compression: Compression) -> (r: Result<(ChunkRecord, Vec<u8>)>)
        requires
            old(self).wf(),
            old(self).pack_view().len_view() + PACK_ENTRY_FIXED_SECTION + encoded_payload(compression, data@).len() <= u64::MAX,
            data@.len() <= u32::MAX && encoded_payload(compression, data@).len() <= u32::MAX ==> can_apply(
                old(self).pack_view().stats_view(), data@.len() as u32, encoded_payload(compression, data@).len() as u32),
        ensures
            final(self).wf(),
            final(self).identity_view() == old(self).identity_view(),
            old(self).index_view().has_hash(blake3_of(data@)) ==> (r matches Err(RepositoryError::DuplicateHash { hash }) && hash@ == blake3_of(data@)),
            r is Err ==> final(self).pack_view().len_view() == old(self).pack_view().len_view()
                && final(self).pack_view().stats_view() == old(self).pack_view().stats_view()
                && final(self).index_view().entries_view() == old(self).index_view().entries_view(),
            !old(self).index_view().has_hash(blake3_of(data@)) && data@.len() > u32::MAX ==> r == Err::<(ChunkRecord, Vec<u8>), RepositoryError>(
                RepositoryError::ChunkTooLarge(data@.len() as usize)),
            !old(self).index_view().has_hash(blake3_of(data@)) && data@.len() <= u32::MAX
                && encoded_payload(compression, data@).len() <= u32::MAX
                && !old(self).pack_view().sealed_view() && !old(self).index_view().sealed_view() ==> r is Ok,
            r matches Ok((rec, bytes)) ==> rec.hash@ == blake3_of(data@),
            r matches Ok((rec, bytes)) ==> rec.offset == old(self).pack_view().len_view(),
            r matches Ok((rec, bytes)) ==> rec.logical_len == data@.len(),
            r matches Ok((rec, bytes)) ==> rec.stored_len == encoded_payload(compression, data@).len(),
            r matches Ok((rec, bytes)) ==> rec.flags == flags_of(compression),
            r matches Ok((rec, bytes)) ==> bytes@ == pack_entry_spec(rec.hash@, rec.flags, encoded_payload(compression, data@)),
            r matches Ok((rec, bytes)) ==> final(self).pack_view().len_view() == old(self).pack_view().len_view() + bytes@.len(),
            r matches Ok((rec, bytes)) ==> final(self).pack_view().len_view() == rec.offset + entry_size(rec),
            r matches Ok((rec, bytes)) ==> final(self).index_view().has_hash(rec.hash@),
            r matches Ok((rec, bytes)) ==> inserted_once(old(self).index_view().entries_view(), final(self).index_view().entries_view(),
                IndexEntryView { hash: rec.hash@, offset: rec.offset, length: rec.stored_len, flags: rec.flags }),
    {
        let hash = compute_chunk_hash(data);
        if self.index.contains(&hash) {
            return Err(RepositoryError::DuplicateHash { hash });
        }
        if data.len() as u64 > u32::MAX as u64 {
            return Err(RepositoryError::ChunkTooLarge(data.len()));
        }
        let logical_len = data.len() as u32;
        let encoded = match compression.encode(data) {
            Ok(e) => e,
            Err(e) => { return Err(e); },
        };
        let flags = encoded.compression.to_flags();
        let (record, bytes) = match self.pack.append_chunk(hash, logical_len, flags, encoded.payload.as_slice()) {
            Ok(x) => x,
            Err(e) => { return Err(e); },
        };
        let entry = IndexEntry::new(record.hash, record.offset, record.stored_len, record.flags);
        match self.index.insert(entry) {
            Ok(()) => {
                assert(record.hash@ == blake3_of(data@));
                assert(record.offset == old(self).pack.len);
                assert(record.flags == flags_of(compression));
                assert(bytes@ == pack_entry_spec(record.hash@, record.flags, encoded_payload(compression, data@)));
                assert(self.pack.len == old(self).pack.len + bytes@.len());
                assert(self.index.has_hash(record.hash@));
                proof {
                    let ev = IndexEntryView { hash: record.hash@, offset: record.offset, length: record.stored_len, flags: record.flags };
                    assert(entry@ == ev);
                    let p = choose|p: int| 0 <= p <= old(self).index.entries_view().len()
                        && self.index.entries_view() == old(self).index.entries_view().insert(p, entry@);
                    assert(self.index.entries_view() == old(self).index.entries_view().insert(p, ev));
                    assert(inserted_once(old(self).index.entries_view(), self.index.entries_view(), ev));
                    assert(record.stored_len == encoded_payload(compression, data@).len());
                    assert(record.logical_len == data@.len());
                }
                Ok((record, bytes))
            },
            Err(e) => {
                let ghost len0 = old(self).pack.len;
                let ghost stats0 = old(self).pack.stats;
                match self.pack.rewind(&record) {
                    Ok(()) => {},
                    Err(e2) => { return Err(e2); },
                }
                proof {
                    crate::repository::bundle::lemma_rollback_undoes_apply(stats0, logical_len, record.stored_len);
                }
                Err(e)
            },
        }
    }

    /// Seals index and pack; `pack_data` is the content of the pack file so
    /// far.  Gives the trailer to append to the pack file (the index file is
    /// then to be rewritten with `index_bytes`).
    pub fn seal(&mut self, pack_data: &[u8]) -> (r: Result<Vec<u8>>)
        ensures
            final(self).wf() == old(self).wf(),
            final(self).identity_view() == old(self).identity_view(),
            final(self).index_view().sealed_view(),
            final(self).index_view().entries_view() == old(self).index_view().entries_view(),
            !old(self).index_view().sealed_view() && !old(self).pack_view().sealed_view() ==> (r matches Ok(t)
                && t@ == pack_trailer_spec(pack_data@) && final(self).pack_view().sealed_view()),
            old(self).index_view().sealed_view() ==> (r matches Err(e) && sealed_error(old(self).index_view().path_view(), e)),
    {
        match self.index.seal() {
            Err(e) => { return Err(e); },
            Ok(()) => {},
        }
        self.pack.seal(pack_data)
    }

    /// The totals of the pack.
    pub fn stats(&self) -> (r: &PackStats)
        ensures
            *r == self.pack_view().stats_view(),
    {
        self.pack.stats()
    }

    /// Which pack this is.
    pub fn identity(&self) -> (r: &PackIdentity)
        ensures
            *r == self.identity_view(),
    {
        &self.identity
    }

    /// The index entry of a chunk, if the pack holds it.
    pub fn find_entry(&self, hash: &ChunkHash) -> (r: Option<IndexEntry>)
        requires
            self.wf(),
        ensures
            r is Some <==> self.index_view().has_hash(hash@),
            r matches Some(e) ==> e.hash@ == hash@,
    {
        match self.index.find(hash) {
            Some(e) => Some(e.copy()),
            None => None,
        }
    }

    /// Where the pack file is.
    pub fn pack_path(&self) -> (r: &String)
        ensures
            r@ == self.pack_view().path_view(),
    {
        self.pack.path()
    }

    /// Where the index file is.
    pub fn index_path(&self) -> (r: &String)
        ensures
            r@ == self.index_view().path_view(),
    {
        &self.index.path
    }

    /// The content of the index file as it stands.
    pub fn index_bytes(&self) -> (r: Vec<u8>)
        ensures
            r@ == index_file(self.index_view().entries_view(), self.index_view().sealed_view()),
    {
        self.index.file_bytes()
    }

    /// Bytes of the pack file so far.
    pub fn pack_len(&self) -> (r: u64)
        ensures
            r == self.pack_view().len_view(),
    {
        self.pack.len()
    }
}

} // verus!
