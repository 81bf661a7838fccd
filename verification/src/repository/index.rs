//! Pack indexes: entries sorted by chunk hash, looked up by binary search,
//! and their file format (header, entries, optional checksum trailer).
use vstd::prelude::*;
use vstd::bytes::{
    spec_u16_from_le_bytes, spec_u16_to_le_bytes, spec_u32_from_le_bytes, spec_u32_to_le_bytes,
    spec_u64_from_le_bytes, spec_u64_to_le_bytes,
};
use super::chunk::ChunkHash;
use super::constants::{INDEX_ENTRY_SIZE, INDEX_HEADER_SIZE, INDEX_MAGIC, INDEX_TRAILER_SIZE, INDEX_VERSION};
use super::error::{RepositoryError, Result};
use super::io_utils::{crc32_digest, crc32_of};
use vstd::bytes::{
    lemma_auto_spec_u16_to_from_le_bytes, lemma_auto_spec_u32_to_from_le_bytes,
    lemma_auto_spec_u64_to_from_le_bytes, u16_from_le_bytes, u16_to_le_bytes, u32_from_le_bytes,
    u32_to_le_bytes, u64_from_le_bytes, u64_to_le_bytes,
};
use vstd::slice::slice_subrange;

verus! {

/// Strict lexicographic order on byte strings (the order of `[u8; 32]`).
pub open spec fn bytes_lt(a: Seq<u8>, b: Seq<u8>) -> bool
    decreases a.len(),
{
    if b.len() == 0 {
        false
    } else if a.len() == 0 {
        true
    } else if a[0] < b[0] {
        true
    } else if a[0] == b[0] {
        bytes_lt(a.drop_first(), b.drop_first())
    } else {
        false
    }
}

/// No byte string comes before itself.
pub proof fn lemma_bytes_lt_irreflexive(a: Seq<u8>)
    ensures
        !bytes_lt(a, a),
    decreases a.len(),
{
    if a.len() > 0 {
        lemma_bytes_lt_irreflexive(a.drop_first());
    }
}

/// The order is transitive.
pub proof fn lemma_bytes_lt_transitive(a: Seq<u8>, b: Seq<u8>, c: Seq<u8>)
    requires
        bytes_lt(a, b),
        bytes_lt(b, c),
    ensures
        bytes_lt(a, c),
    decreases a.len(),
{
    if a.len() > 0 && b.len() > 0 && c.len() > 0 && a[0] == b[0] && b[0] == c[0] {
        lemma_bytes_lt_transitive(a.drop_first(), b.drop_first(), c.drop_first());
    }
}

/// Two different byte strings are ordered one way or the other.
pub proof fn lemma_bytes_lt_total(a: Seq<u8>, b: Seq<u8>)
    requires
        a != b,
    ensures
        bytes_lt(a, b) || bytes_lt(b, a),
    decreases a.len(),
{
    if a.len() > 0 && b.len() > 0 && a[0] == b[0] {
        if a.drop_first() == b.drop_first() {
            assert(a =~= seq![a[0]] + a.drop_first());
            assert(b =~= seq![b[0]] + b.drop_first());
        }
        lemma_bytes_lt_total(a.drop_first(), b.drop_first());
    } else if a.len() == 0 && b.len() == 0 {
        assert(a =~= b);
    }
}

/// Whether `a` comes strictly before `b`, byte by byte.
pub fn hash_less(a: &ChunkHash, b: &ChunkHash) -> (r: bool)
    ensures
        r == bytes_lt(a@, b@),
{
    let mut i: usize = 0;
    assert(a@.skip(0) =~= a@ && b@.skip(0) =~= b@);
    while i < 32
        invariant
            i <= 32,
            a@.len() == 32,
            b@.len() == 32,
            bytes_lt(a@, b@) == bytes_lt(a@.skip(i as int), b@.skip(i as int)),
        decreases 32 - i,
    {
        let ghost sa = a@.skip(i as int);
        let ghost sb = b@.skip(i as int);
        if a[i] < b[i] {
            return true;
        }
        if a[i] != b[i] {
            return false;
        }
        assert(sa.drop_first() =~= a@.skip(i + 1));
        assert(sb.drop_first() =~= b@.skip(i + 1));
        i = i + 1;
    }
    false
}

/// Whether two hashes are equal, byte by byte.
pub fn hash_eq(a: &ChunkHash, b: &ChunkHash) -> (r: bool)
    ensures
        r == (a@ == b@),
{
    let mut i: usize = 0;
    while i < 32
        invariant
            i <= 32,
            a@.len() == 32,
            b@.len() == 32,
            forall|k: int| 0 <= k < i ==> a@[k] == b@[k],
        decreases 32 - i,
    {
        if a[i] != b[i] {
            return false;
        }
        i = i + 1;
    }
    assert(a@ =~= b@);
    true
}

/// An index entry: where the chunk with this hash lies in the pack.
#[derive(Debug, Clone, PartialEq, Eq)]
pub struct IndexEntry {
    pub hash: ChunkHash,
    pub offset: u64,
    pub length: u32,
    pub flags: u16,
}

/// Abstract index entry.
pub struct IndexEntryView {
    pub hash: Seq<u8>,
    pub offset: u64,
    pub length: u32,
    pub flags: u16,
}

impl View for IndexEntry {
    type V = IndexEntryView;

    open spec fn view(&self) -> IndexEntryView {
        IndexEntryView { hash: self.hash@, offset: self.offset, length: self.length, flags: self.flags }
    }
}

/// The views of a sequence of entries.
pub open spec fn entry_views(s: Seq<IndexEntry>) -> Seq<IndexEntryView> {
    s.map_values(|e: IndexEntry| e@)
}

/// Hashes strictly increase along the entries.
pub open spec fn sorted_by_hash(es: Seq<IndexEntryView>) -> bool {
    forall|i: int, j: int| 0 <= i < j < es.len() ==> bytes_lt(#[trigger] es[i].hash, #[trigger] es[j].hash)
}

impl IndexEntry {
    /// An entry from its fields.
    pub fn new(hash: ChunkHash, offset: u64, length: u32, flags: u16) -> (r: Self)
        ensures
            r == (IndexEntry { hash, offset, length, flags }),
    {
        IndexEntry { hash, offset, length, flags }
    }

    /// A copy of the entry.
    pub fn copy(&self) -> (r: Self)
        ensures
            r == *self,
    {
        IndexEntry { hash: self.hash, offset: self.offset, length: self.length, flags: self.flags }
    }
}

/// Binary search over entries sorted by hash: the position of the entry
/// with this hash, if any.
pub fn find_entry_index(entries: &[IndexEntry], hash: &ChunkHash) -> (r: Option<usize>)
    requires
        sorted_by_hash(entry_views(entries@)),
    ensures
        match r {
            Some(i) => i < entries@.len() && entries@[i as int].hash@ == hash@,
            None => forall|i: int| 0 <= i < entries@.len() ==> (#[trigger] entries@[i]).hash@ != hash@,
        },
{
    let ghost es = entry_views(entries@);
    let mut lo: usize = 0;
    let mut hi: usize = entries.len();
    while lo < hi
        invariant
            lo <= hi <= entries@.len(),
            es == entry_views(entries@),
            sorted_by_hash(es),
            forall|i: int| 0 <= i < lo ==> bytes_lt(#[trigger] es[i].hash, hash@),
            forall|i: int| hi <= i < es.len() ==> bytes_lt(hash@, #[trigger] es[i].hash),
        decreases hi - lo,
    {
        let mid = lo + (hi - lo) / 2;
        let e = &entries[mid];
        assert(es[mid as int].hash == e.hash@);
        if hash_eq(&e.hash, hash) {
            return Some(mid);
        }
        if hash_less(&e.hash, hash) {
            assert forall|i: int| 0 <= i < mid + 1 implies bytes_lt(#[trigger] es[i].hash, hash@) by {
                if i < mid {
                    lemma_bytes_lt_transitive(es[i].hash, es[mid as int].hash, hash@);
                }
            }
            lo = mid + 1;
        } else {
            proof {
                lemma_bytes_lt_total(e.hash@, hash@);
            }
            assert forall|i: int| mid <= i < es.len() implies bytes_lt(hash@, #[trigger] es[i].hash) by {
                if i > mid {
                    lemma_bytes_lt_transitive(hash@, es[mid as int].hash, es[i].hash);
                }
            }
            hi = mid;
        }
    }
    assert forall|i: int| 0 <= i < entries@.len() implies (#[trigger] entries@[i]).hash@ != hash@ by {
        assert(es[i].hash == entries@[i].hash@);
        if i < lo {
            lemma_bytes_lt_irreflexive(hash@);
        } else {
            lemma_bytes_lt_irreflexive(hash@);
        }
    }
    None
}

/// Inserts an entry at its place by hash; a hash already present is refused
/// and nothing changes.
pub fn insert_entry(entries: &mut Vec<IndexEntry>, entry: IndexEntry) -> (r: Result<()>)
    requires
        sorted_by_hash(entry_views(old(entries)@)),
    ensures
        sorted_by_hash(entry_views(final(entries)@)),
        (exists|i: int| 0 <= i < old(entries)@.len() && (#[trigger] old(entries)@[i]).hash@ == entry.hash@) ==> r
            == Err::<(), RepositoryError>(RepositoryError::DuplicateHash { hash: entry.hash }) && final(entries)@
            == old(entries)@,
        !(exists|i: int| 0 <= i < old(entries)@.len() && (#[trigger] old(entries)@[i]).hash@ == entry.hash@) ==> r
            is Ok && exists|p: int| 0 <= p <= old(entries)@.len() && final(entries)@ == old(entries)@.insert(p, entry),
{
    let ghost es = entry_views(entries@);
    let mut lo: usize = 0;
    let mut hi: usize = entries.len();
    while lo < hi
        invariant
            lo <= hi <= entries@.len(),
            es == entry_views(entries@),
            sorted_by_hash(es),
            forall|i: int| 0 <= i < lo ==> bytes_lt(#[trigger] es[i].hash, entry.hash@),
            forall|i: int| hi <= i < es.len() ==> bytes_lt(entry.hash@, #[trigger] es[i].hash),
        decreases hi - lo,
    {
        let mid = lo + (hi - lo) / 2;
        assert(es[mid as int].hash == entries@[mid as int].hash@);
        if hash_eq(&entries[mid].hash, &entry.hash) {
            return Err(RepositoryError::DuplicateHash { hash: entry.hash });
        }
        if hash_less(&entries[mid].hash, &entry.hash) {
            assert forall|i: int| 0 <= i < mid + 1 implies bytes_lt(#[trigger] es[i].hash, entry.hash@) by {
                if i < mid {
                    lemma_bytes_lt_transitive(es[i].hash, es[mid as int].hash, entry.hash@);
                }
            }
            lo = mid + 1;
        } else {
            proof {
                lemma_bytes_lt_total(entries@[mid as int].hash@, entry.hash@);
            }
            assert forall|i: int| mid <= i < es.len() implies bytes_lt(entry.hash@, #[trigger] es[i].hash) by {
                if i > mid {
                    lemma_bytes_lt_transitive(entry.hash@, es[mid as int].hash, es[i].hash);
                }
            }
            hi = mid;
        }
    }
    proof {
        assert forall|i: int| 0 <= i < entries@.len() implies (#[trigger] entries@[i]).hash@ != entry.hash@ by {
            assert(es[i].hash == entries@[i].hash@);
            lemma_bytes_lt_irreflexive(entry.hash@);
        }
    }
    let ghost old_v = entries@;
    entries.insert(lo, entry);
    proof {
        let nv = entry_views(entries@);
        assert(entries@ == old_v.insert(lo as int, entry));
        assert forall|i: int, j: int| 0 <= i < j < nv.len() implies bytes_lt(#[trigger] nv[i].hash, #[trigger] nv[j].hash) by {
            if j < lo {
                assert(nv[i] == es[i] && nv[j] == es[j]);
            } else if j == lo {
                assert(nv[i] == es[i]);
            } else if i < lo {
                assert(nv[i] == es[i] && nv[j] == es[j - 1]);
                lemma_bytes_lt_transitive(es[i].hash, entry.hash@, es[j - 1].hash);
            } else if i == lo {
                assert(nv[j] == es[j - 1]);
            } else {
                assert(nv[i] == es[i - 1] && nv[j] == es[j - 1]);
            }
        }
    }
    Ok(())
}

/// A read-only index: its entries sorted by hash, and whether it is sealed.
#[derive(Debug)]
pub struct IndexSnapshot {
    entries: Vec<IndexEntry>,
    sealed: bool,
}

impl IndexSnapshot {
    /// Well-formedness: entries sorted by hash.
    pub closed spec fn wf(&self) -> bool {
        sorted_by_hash(entry_views(self.entries@))
    }

    /// The entries.
    pub closed spec fn entries_view(&self) -> Seq<IndexEntry> {
        self.entries@
    }

    /// Whether the index is sealed.
    pub closed spec fn sealed_view(&self) -> bool {
        self.sealed
    }

    /// A snapshot of sorted entries.
    pub fn from_entries(entries: Vec<IndexEntry>, sealed: bool) -> (r: Self)
        requires
            sorted_by_hash(entry_views(entries@)),
        ensures
            r.wf(),
            r.entries_view() == entries@,
            r.sealed_view() == sealed,
    {
        IndexSnapshot { entries, sealed }
    }

    /// The snapshot of an index file's bytes (`path` names the file in a
    /// checksum error).
    pub fn decode(bytes: &[u8], path: &str) -> (r: Result<Self>)
        ensures
            match index_fault(bytes@) {
                None => r matches Ok(snap) && snap.wf() && entry_views(snap.entries_view()) == index_entries(bytes@)
                    && snap.sealed_view() == index_sealed(bytes@),
                Some(f) => r matches Err(e) && fault_error(f, e, path@),
            },
    {
        match decode_index(bytes, path) {
            Ok((entries, sealed)) => Ok(IndexSnapshot { entries, sealed }),
            Err(e) => Err(e),
        }
    }

    /// The entries, sorted by hash.
    pub fn entries(&self) -> (r: &[IndexEntry])
        ensures
            r@ == self.entries_view(),
    {
        self.entries.as_slice()
    }

    /// The entry with this hash, if any.
    pub fn find(&self, hash: &ChunkHash) -> (r: Option<&IndexEntry>)
        requires
            self.wf(),
        ensures
            match r {
                Some(e) => e.hash@ == hash@ && self.entries_view().contains(*e),
                None => forall|i: int|
                    0 <= i < self.entries_view().len() ==> (#[trigger] self.entries_view()[i]).hash@ != hash@,
            },
    {
        match find_entry_index(self.entries.as_slice(), hash) {
            Some(i) => {
                assert(self.entries@[i as int] == self.entries@[i as int]);
                Some(&self.entries[i])
            },
            None => None,
        }
    }

    /// Whether the index is sealed.
    pub fn sealed(&self) -> (r: bool)
        ensures
            r == self.sealed_view(),
    {
        self.sealed
    }
}

// ---------------------------------------------------------------------------
// The index file: header (magic, version, reserved, entry count), the
// entries, and when sealed a CRC-32 of everything before it.

/// A little-endian `u16` at position `i`.
pub open spec fn u16_at(b: Seq<u8>, i: int) -> u16 {
    spec_u16_from_le_bytes(b.subrange(i, i + 2))
}

/// A little-endian `u32` at position `i`.
pub open spec fn u32_at(b: Seq<u8>, i: int) -> u32 {
    spec_u32_from_le_bytes(b.subrange(i, i + 4))
}

/// A little-endian `u64` at position `i`.
pub open spec fn u64_at(b: Seq<u8>, i: int) -> u64 {
    spec_u64_from_le_bytes(b.subrange(i, i + 8))
}

/// The bytes of an entry: hash, offset, length, flags.
pub open spec fn entry_bytes(e: IndexEntryView) -> Seq<u8> {
    e.hash + spec_u64_to_le_bytes(e.offset) + spec_u32_to_le_bytes(e.length) + spec_u16_to_le_bytes(e.flags)
}

/// The bytes of the entries, one after the other.
pub open spec fn entries_bytes(es: Seq<IndexEntryView>) -> Seq<u8>
    decreases es.len(),
{
    if es.len() == 0 {
        Seq::empty()
    } else {
        entries_bytes(es.drop_last()) + entry_bytes(es.last())
    }
}

/// The bytes of a header for `count` entries.
pub open spec fn header_bytes(count: u64) -> Seq<u8> {
    spec_u32_to_le_bytes(INDEX_MAGIC) + spec_u16_to_le_bytes(INDEX_VERSION) + spec_u32_to_le_bytes(0)
        + spec_u64_to_le_bytes(count)
}

/// Header and entries.
pub open spec fn index_data(es: Seq<IndexEntryView>) -> Seq<u8> {
    header_bytes(es.len() as u64) + entries_bytes(es)
}

/// The file of an index: header and entries, and when sealed their CRC-32.
pub open spec fn index_file(es: Seq<IndexEntryView>, sealed: bool) -> Seq<u8> {
    if sealed {
        index_data(es) + spec_u32_to_le_bytes(crc32_of(index_data(es)))
    } else {
        index_data(es)
    }
}

/// The entry count a file's header gives.
pub open spec fn index_count(b: Seq<u8>) -> u64 {
    u64_at(b, 10)
}

/// Bytes of header and entries according to the header.
pub open spec fn index_data_len(b: Seq<u8>) -> int {
    18 + 46 * index_count(b)
}

/// Entry `i` as the file holds it.
pub open spec fn entry_at(b: Seq<u8>, i: int) -> IndexEntryView {
    IndexEntryView {
        hash: b.subrange(18 + 46 * i, 18 + 46 * i + 32),
        offset: u64_at(b, 18 + 46 * i + 32),
        length: u32_at(b, 18 + 46 * i + 40),
        flags: u16_at(b, 18 + 46 * i + 44),
    }
}

/// Entry `i` does not come strictly after entry `i - 1`.
pub open spec fn out_of_order_at(b: Seq<u8>, i: int) -> bool {
    !bytes_lt(entry_at(b, i - 1).hash, entry_at(b, i).hash)
}

/// What is wrong with an index file.
pub enum IndexFault {
    /// The file ends inside the header.
    Truncated,
    BadMagic(u32),
    BadVersion(u16),
    ReservedNonZero,
    /// The entry count is too large to handle.
    CountOverflow,
    /// Longer than a sealed file of that many entries.
    TooLong,
    /// Of sealed length with a wrong checksum.
    CrcMismatch,
    /// Neither of sealed length nor of unsealed length.
    BadUnsealedLength,
    OutOfOrder,
}

/// The first fault of an index file, checked in the order of the reader:
/// magic, version, reserved field (each needing its bytes), entry count,
/// length (with the checksum of a sealed file), entry order.
pub open spec fn index_fault(b: Seq<u8>) -> Option<IndexFault> {
    if b.len() < 4 {
        Some(IndexFault::Truncated)
    } else if u32_at(b, 0) != INDEX_MAGIC {
        Some(IndexFault::BadMagic(u32_at(b, 0)))
    } else if b.len() < 6 {
        Some(IndexFault::Truncated)
    } else if u16_at(b, 4) != INDEX_VERSION {
        Some(IndexFault::BadVersion(u16_at(b, 4)))
    } else if b.len() < 10 {
        Some(IndexFault::Truncated)
    } else if u32_at(b, 6) != 0 {
        Some(IndexFault::ReservedNonZero)
    } else if b.len() < 18 {
        Some(IndexFault::Truncated)
    } else if index_count(b) > usize::MAX || index_data_len(b) > u64::MAX {
        Some(IndexFault::CountOverflow)
    } else if b.len() > index_data_len(b) + 4 {
        Some(IndexFault::TooLong)
    } else if b.len() == index_data_len(b) + 4 && u32_at(b, index_data_len(b)) != crc32_of(b.take(index_data_len(b))) {
        Some(IndexFault::CrcMismatch)
    } else if b.len() != index_data_len(b) + 4 && b.len() != index_data_len(b) {
        Some(IndexFault::BadUnsealedLength)
    } else if exists|i: int| 0 < i < index_count(b) && #[trigger] out_of_order_at(b, i) {
        Some(IndexFault::OutOfOrder)
    } else {
        None
    }
}

/// Whether a (fault-free) index file is sealed: it has the checksum trailer.
pub open spec fn index_sealed(b: Seq<u8>) -> bool {
    b.len() == index_data_len(b) + 4
}

/// The entries of a (fault-free) index file.
pub open spec fn index_entries(b: Seq<u8>) -> Seq<IndexEntryView> {
    Seq::new(index_count(b) as nat, |i: int| entry_at(b, i))
}

/// The error the reader reports for a fault.
pub open spec fn fault_error(f: IndexFault, e: RepositoryError, path: Seq<char>) -> bool {
    match f {
        IndexFault::Truncated => e matches RepositoryError::Io(m) && m@ == "failed to fill whole buffer"@,
        IndexFault::BadMagic(a) => e == RepositoryError::InvalidMagic { expected: INDEX_MAGIC, actual: a },
        IndexFault::BadVersion(v) => e == RepositoryError::InvalidVersion { expected: INDEX_VERSION, actual: v },
        IndexFault::ReservedNonZero => e == RepositoryError::ReservedNonZero,
        IndexFault::CountOverflow => e == RepositoryError::EntryCountOverflow,
        IndexFault::TooLong => e == RepositoryError::Corrupted("idx 文件长度与 entry_count 不匹配"),
        IndexFault::CrcMismatch => e matches RepositoryError::CrcMismatch { path: p } && p@ == path,
        IndexFault::BadUnsealedLength => e == RepositoryError::Corrupted("未封存 idx 文件长度非法"),
        IndexFault::OutOfOrder => e == RepositoryError::IndexOutOfOrder,
    }
}

/// Appends bytes to a buffer.
pub fn push_bytes(out: &mut Vec<u8>, b: &[u8])
    ensures
        final(out)@ == old(out)@ + b@,
{
    let ghost o = out@;
    let mut i: usize = 0;
    while i < b.len()
        invariant
            i <= b@.len(),
            out@ == o + b@.take(i as int),
        decreases b@.len() - i,
    {
        out.push(b[i]);
        assert(b@.take(i + 1) =~= b@.take(i as int).push(b@[i as int]));
        i = i + 1;
    }
    assert(b@.take(b@.len() as int) =~= b@);
}

/// The bytes of an index file of `entries`, sealed (with the checksum
/// trailer) or not.
pub fn encode_index(entries: &[IndexEntry], sealed: bool) -> (r: Vec<u8>)
    ensures
        r@ == index_file(entry_views(entries@), sealed),
{
    let ghost es = entry_views(entries@);
    let mut out: Vec<u8> = Vec::new();
    push_bytes(&mut out, u32_to_le_bytes(INDEX_MAGIC).as_slice());
    push_bytes(&mut out, u16_to_le_bytes(INDEX_VERSION).as_slice());
    push_bytes(&mut out, u32_to_le_bytes(0).as_slice());
    push_bytes(&mut out, u64_to_le_bytes(entries.len() as u64).as_slice());
    assert(out@ =~= header_bytes(es.len() as u64) + entries_bytes(es.take(0)));
    let mut i: usize = 0;
    while i < entries.len()
        invariant
            i <= entries@.len(),
            es == entry_views(entries@),
            out@ == header_bytes(es.len() as u64) + entries_bytes(es.take(i as int)),
        decreases entries@.len() - i,
    {
        let e = &entries[i];
        push_bytes(&mut out, e.hash.as_slice());
        push_bytes(&mut out, u64_to_le_bytes(e.offset).as_slice());
        push_bytes(&mut out, u32_to_le_bytes(e.length).as_slice());
        push_bytes(&mut out, u16_to_le_bytes(e.flags).as_slice());
        assert(es.take(i + 1).drop_last() =~= es.take(i as int));
        assert(es.take(i + 1).last() == e@);
        assert(out@ =~= header_bytes(es.len() as u64) + entries_bytes(es.take(i + 1)));
        i = i + 1;
    }
    assert(es.take(entries@.len() as int) =~= es);
    if sealed {
        let crc = crc32_digest(out.as_slice());
        push_bytes(&mut out, u32_to_le_bytes(crc).as_slice());
    }
    out
}

fn eof_error() -> (e: RepositoryError)
    ensures
        e matches RepositoryError::Io(m) && m@ == "failed to fill whole buffer"@,
{
    RepositoryError::Io(String::from_str("failed to fill whole buffer"))
}

/// Reads an index file: its entries, sorted by hash, and whether it is
/// sealed; or the first fault found, reported as the reader reports it
/// (`path` names the file in a checksum error).
#[verifier::rlimit(40)]
pub fn decode_index(bytes: &[u8], path: &str) -> (r: Result<(Vec<IndexEntry>, bool)>)
    ensures
        match index_fault(bytes@) {
            None => r matches Ok((es, s)) && entry_views(es@) == index_entries(bytes@) && s == index_sealed(bytes@)
                && sorted_by_hash(entry_views(es@)),
            Some(f) => r matches Err(e) && fault_error(f, e, path@),
        },
{
    let ghost b = bytes@;
    let n = bytes.len();
    if n < 4 {
        return Err(eof_error());
    }
    let magic = u32_from_le_bytes(slice_subrange(bytes, 0, 4));
    if magic != INDEX_MAGIC {
        return Err(RepositoryError::InvalidMagic { expected: INDEX_MAGIC, actual: magic });
    }
    if n < 6 {
        return Err(eof_error());
    }
    let version = u16_from_le_bytes(slice_subrange(bytes, 4, 6));
    if version != INDEX_VERSION {
        return Err(RepositoryError::InvalidVersion { expected: INDEX_VERSION, actual: version });
    }
    if n < 10 {
        return Err(eof_error());
    }
    let reserved = u32_from_le_bytes(slice_subrange(bytes, 6, 10));
    if reserved != 0 {
        return Err(RepositoryError::ReservedNonZero);
    }
    if n < 18 {
        return Err(eof_error());
    }
    let count = u64_from_le_bytes(slice_subrange(bytes, 10, 18));
    if count > usize::MAX as u64 {
        return Err(RepositoryError::EntryCountOverflow);
    }
    let entries_len = match INDEX_ENTRY_SIZE.checked_mul(count) {
        Some(v) => v,
        None => { return Err(RepositoryError::EntryCountOverflow); },
    };
    let data_len = match INDEX_HEADER_SIZE.checked_add(entries_len) {
        Some(v) => v,
        None => { return Err(RepositoryError::EntryCountOverflow); },
    };
    assert(data_len == index_data_len(b));
    let total = n as u64;
    let sealed: bool;
    if total > data_len && total - data_len > INDEX_TRAILER_SIZE {
        return Err(RepositoryError::Corrupted("idx 文件长度与 entry_count 不匹配"));
    } else if total > data_len && total - data_len == INDEX_TRAILER_SIZE {
        let d = data_len as usize;
        let stored = u32_from_le_bytes(slice_subrange(bytes, d, d + 4));
        let calculated = crc32_digest(slice_subrange(bytes, 0, d));
        assert(b.subrange(0, d as int) =~= b.take(d as int));
        if stored != calculated {
            return Err(RepositoryError::CrcMismatch { path: String::from_str(path) });
        }
        sealed = true;
    } else {
        if total != data_len {
            return Err(RepositoryError::Corrupted("未封存 idx 文件长度非法"));
        }
        sealed = false;
    }
    let c = count as usize;
    assert(sealed == index_sealed(b));
    assert(index_fault(b) is None || index_fault(b) == Some(IndexFault::OutOfOrder));
    let mut entries: Vec<IndexEntry> = Vec::new();
    let mut i: usize = 0;
    while i < c
        invariant
            b == bytes@,
            n == bytes@.len(),
            c == index_count(b),
            i <= c,
            18 + 46 * c <= b.len(),
            entries@.len() == i,
            sealed == index_sealed(b),
            index_fault(b) is None || index_fault(b) == Some(IndexFault::OutOfOrder),
            entry_views(entries@) == Seq::new(i as nat, |k: int| entry_at(b, k)),
            forall|k: int| 0 < k < i ==> !#[trigger] out_of_order_at(b, k),
        decreases c - i,
    {
        assert(18 + 46 * i + 46 <= 18 + 46 * c);
        let o = 18 + 46 * i;
        let mut hash = [0u8; 32];
        let mut k: usize = 0;
        while k < 32
            invariant
                k <= 32,
                n == bytes@.len(),
                o + 46 <= n,
                hash@.len() == 32,
                forall|q: int| 0 <= q < k ==> hash@[q] == bytes@[o + q],
            decreases 32 - k,
        {
            hash[k] = bytes[o + k];
            k = k + 1;
        }
        assert(hash@ =~= b.subrange(o as int, o + 32));
        let offset = u64_from_le_bytes(slice_subrange(bytes, o + 32, o + 40));
        let length = u32_from_le_bytes(slice_subrange(bytes, o + 40, o + 44));
        let flags = u16_from_le_bytes(slice_subrange(bytes, o + 44, o + 46));
        if i > 0 && !hash_less(&entries[i - 1].hash, &hash) {
            assert(entry_views(entries@)[i - 1] == entry_at(b, i - 1));
            assert(entry_at(b, i as int).hash == hash@);
            assert(out_of_order_at(b, i as int));
            assert(index_fault(b) == Some(IndexFault::OutOfOrder));
            return Err(RepositoryError::IndexOutOfOrder);
        }
        proof {
            if i > 0 {
                assert(entry_views(entries@)[i - 1] == entry_at(b, i - 1));
            }
        }
        let ghost before = entries@;
        let e = IndexEntry { hash, offset, length, flags };
        assert(e@ == entry_at(b, i as int));
        entries.push(e);
        assert(entries@ == before.push(e));
        assert forall|k: int| 0 <= k < i + 1 implies #[trigger] entry_views(entries@)[k] == entry_at(b, k) by {
            if k < i {
                assert(entries@[k] == before[k]);
                assert(entry_views(before)[k] == entry_at(b, k));
            }
        }
        assert(entry_views(entries@) =~= Seq::new((i + 1) as nat, |k: int| entry_at(b, k)));
        i = i + 1;
    }
    proof {
        assert(!exists|i: int| 0 < i < index_count(b) && #[trigger] out_of_order_at(b, i));
        let es = entry_views(entries@);
        assert forall|x: int, y: int| 0 <= x < y < es.len() implies bytes_lt(#[trigger] es[x].hash, #[trigger] es[y].hash) by {
            lemma_entries_chain(b, x, y);
        }
    }
    Ok((entries, sealed))
}

/// In a file with no entry out of order, earlier entries have smaller hashes.
proof fn lemma_entries_chain(b: Seq<u8>, x: int, y: int)
    requires
        0 <= x < y < index_count(b),
        forall|k: int| 0 < k < index_count(b) ==> !#[trigger] out_of_order_at(b, k),
    ensures
        bytes_lt(entry_at(b, x).hash, entry_at(b, y).hash),
    decreases y - x,
{
    assert(!out_of_order_at(b, y));
    if y - 1 > x {
        lemma_entries_chain(b, x, y - 1);
        lemma_bytes_lt_transitive(entry_at(b, x).hash, entry_at(b, y - 1).hash, entry_at(b, y).hash);
    }
}

/// Each entry takes 46 bytes, in order.
proof fn lemma_entries_bytes_layout(es: Seq<IndexEntryView>)
    requires
        forall|i: int| 0 <= i < es.len() ==> (#[trigger] es[i]).hash.len() == 32,
    ensures
        entries_bytes(es).len() == 46 * es.len(),
        forall|i: int|
            0 <= i < es.len() ==> entries_bytes(es).subrange(46 * i, 46 * i + 46) == entry_bytes(#[trigger] es[i]),
    decreases es.len(),
{
    lemma_auto_spec_u16_to_from_le_bytes();
    lemma_auto_spec_u32_to_from_le_bytes();
    lemma_auto_spec_u64_to_from_le_bytes();
    if es.len() > 0 {
        let p = es.drop_last();
        assert forall|i: int| 0 <= i < p.len() implies (#[trigger] p[i]).hash.len() == 32 by {
            assert(p[i] == es[i]);
        }
        lemma_entries_bytes_layout(p);
        let a = entries_bytes(p);
        let e = entry_bytes(es.last());
        assert(es.last().hash.len() == 32);
        assert(e.len() == 46);
        assert forall|i: int| 0 <= i < es.len() implies entries_bytes(es).subrange(46 * i, 46 * i + 46) == entry_bytes(
            #[trigger] es[i],
        ) by {
            if i < p.len() {
                assert(p[i] == es[i]);
                assert((a + e).subrange(46 * i, 46 * i + 46) =~= a.subrange(46 * i, 46 * i + 46));
            } else {
                assert((a + e).subrange(46 * i, 46 * i + 46) =~= e);
            }
        }
    }
}

/// Reading the file written for entries sorted by hash gives back the
/// entries, and whether the file was sealed.
pub proof fn lemma_index_roundtrip(es: Seq<IndexEntryView>, sealed: bool)
    requires
        sorted_by_hash(es),
        forall|i: int| 0 <= i < es.len() ==> (#[trigger] es[i]).hash.len() == 32,
        es.len() <= usize::MAX,
        18 + 46 * es.len() <= u64::MAX,
    ensures
        index_fault(index_file(es, sealed)) is None,
        index_entries(index_file(es, sealed)) == es,
        index_sealed(index_file(es, sealed)) == sealed,
{
    lemma_auto_spec_u16_to_from_le_bytes();
    lemma_auto_spec_u32_to_from_le_bytes();
    lemma_auto_spec_u64_to_from_le_bytes();
    lemma_entries_bytes_layout(es);
    let n = es.len();
    let h = header_bytes(n as u64);
    let e = entries_bytes(es);
    let d = index_data(es);
    let f = index_file(es, sealed);
    assert(h.len() == 18);
    assert(d.len() == 18 + 46 * n);
    assert(f.subrange(0, d.len() as int) =~= d);
    assert(f.subrange(0, 4) =~= spec_u32_to_le_bytes(INDEX_MAGIC));
    assert(f.subrange(4, 6) =~= spec_u16_to_le_bytes(INDEX_VERSION));
    assert(f.subrange(6, 10) =~= spec_u32_to_le_bytes(0));
    assert(f.subrange(10, 18) =~= spec_u64_to_le_bytes(n as u64));
    assert(index_count(f) == n);
    assert(index_data_len(f) == d.len());
    if sealed {
        assert(f.subrange(d.len() as int, d.len() as int + 4) =~= spec_u32_to_le_bytes(crc32_of(d)));
        assert(f.take(d.len() as int) =~= d);
    }
    assert forall|i: int| 0 <= i < n implies #[trigger] entry_at(f, i) == es[i] by {
        let o = 18 + 46 * i;
        let eb = entry_bytes(es[i]);
        assert(f.subrange(o, o + 46) =~= e.subrange(46 * i, 46 * i + 46));
        assert(f.subrange(o, o + 32) =~= eb.subrange(0, 32));
        assert(eb.subrange(0, 32) =~= es[i].hash);
        assert(eb.subrange(32, 40) =~= spec_u64_to_le_bytes(es[i].offset));
        assert(eb.subrange(40, 44) =~= spec_u32_to_le_bytes(es[i].length));
        assert(eb.subrange(44, 46) =~= spec_u16_to_le_bytes(es[i].flags));
        assert(f.subrange(o + 32, o + 40) =~= eb.subrange(32, 40));
        assert(f.subrange(o + 40, o + 44) =~= eb.subrange(40, 44));
        assert(f.subrange(o + 44, o + 46) =~= eb.subrange(44, 46));
    }
    assert forall|i: int| 0 < i < index_count(f) implies !#[trigger] out_of_order_at(f, i) by {
        assert(entry_at(f, i - 1) == es[i - 1]);
        assert(entry_at(f, i) == es[i]);
    }
    assert(index_entries(f) =~= es);
}

} // verus!
