//! Fixed-size blocks named by their xxHash3, stored zlib-compressed.
use vstd::prelude::*;
use std::io::{Read, Write};
use crate::repository::io_utils::hex_digit;
use crate::text::{join_path_text, join_text, string_from_range};

verus! {

broadcast use vstd::string::group_string_axioms;

/// `std::io::Error`, carried through unchanged.
#[verifier::external_type_specification]
#[verifier::external_body]
pub struct ExIoError(std::io::Error);

/// Size of the blocks a file is cut into.
pub const BLOCK_SIZE: usize = 4096;

/// The 64-bit xxHash3 of `data` (`twox_hash::xxh3::hash64`).
pub uninterp spec fn xxh3_64_of(data: Seq<u8>) -> u64;

/// The zlib stream that `flate2::write::ZlibEncoder` writes for `data` at the
/// default compression level; `None` where the encoder fails on `data`.
pub uninterp spec fn zlib_of(data: Seq<u8>) -> Option<Seq<u8>>;

/// The bytes that `flate2::read::ZlibDecoder` reads out of `data`.
pub uninterp spec fn zlib_inflate_of(data: Seq<u8>) -> Seq<u8>;

/// The 64-bit xxHash3 of `data`, by `twox_hash::xxh3::hash64`.  The contract
/// claims that the hash is a function of the bytes alone.
#[verifier::external_body]
fn xxh3_64(data: &[u8]) -> (r: u64)
    ensures
        r == xxh3_64_of(data@),
{
    twox_hash::xxh3::hash64(data)
}

/// Compresses `data` into a zlib stream with `flate2::write::ZlibEncoder` at
/// `Compression::default()` into a `Vec`.  The contract claims that both
/// whether the encoder succeeds and the stream it writes are functions of the
/// bytes alone (the encoder is deterministic and writing to a `Vec` does not
/// fail); which error comes on failure is left unsaid.
#[verifier::external_body]
pub(crate) fn zlib_compress(data: &[u8]) -> (r: Result<Vec<u8>, std::io::Error>)
    ensures
        r is Ok <==> zlib_of(data@) is Some,
        r matches Ok(v) ==> zlib_of(data@) == Some(v@),
{
    let mut encoder = flate2::write::ZlibEncoder::new(Vec::new(), flate2::Compression::default());
    encoder.write_all(data)?;
    encoder.finish()
}

/// Decompresses a zlib stream with `flate2::read::ZlibDecoder`.  The
/// contract claims that the result is a function of the stream, and that a
/// stream the encoder wrote for some bytes decodes to those bytes; the error
/// on a damaged stream is left unsaid.
#[verifier::external_body]
pub(crate) fn zlib_decompress(data: &[u8]) -> (r: Result<Vec<u8>, std::io::Error>)
    ensures
        r matches Ok(v) ==> v@ == zlib_inflate_of(data@),
        r is Ok || forall|x: Seq<u8>| #[trigger] zlib_of(x) != Some(data@),
        r matches Ok(v) ==> forall|x: Seq<u8>| #[trigger] zlib_of(x) == Some(data@) ==> v@ == x,
{
    let mut decoder = flate2::read::ZlibDecoder::new(data);
    let mut out = Vec::new();
    decoder.read_to_end(&mut out)?;
    Ok(out)
}

/// The content of a stored block: its zlib stream decompressed.  A stream
/// the store wrote for some content gives that content back.
pub fn decompress_block(compressed: &[u8]) -> (r: Result<Vec<u8>, std::io::Error>)
    ensures
        r matches Ok(v) ==> v@ == zlib_inflate_of(compressed@),
        r is Ok || forall|x: Seq<u8>| #[trigger] zlib_of(x) != Some(compressed@),
        r matches Ok(v) ==> forall|x: Seq<u8>| #[trigger] zlib_of(x) == Some(compressed@) ==> v@ == x,
{
    zlib_decompress(compressed)
}

/// What is known of a stored block.
#[derive(Debug, PartialEq, Eq, Structural)]
pub struct BlockMetadata {
    /// Offset of the block in its file; left zero here.
    pub offset: u64,
    /// Size of the block in bytes.
    pub size: usize,
    /// xxHash3 of the block.
    pub hash: u64,
    /// Size of the block once zlib-compressed.
    pub compressed_size: usize,
}

/// The sixteen lowercase hex digits of `h`, most significant first, zero
/// padded (`format!("{:016x}", h)`).
pub open spec fn hex16(h: u64) -> Seq<char> {
    Seq::new(16, |k: int| hex_digit(((h >> ((60 - 4 * k) as u64)) & 15u64) as int))
}

fn hex_nibble(n: u64) -> (c: char)
    requires
        n < 16,
    ensures
        c == hex_digit(n as int),
{
    if n == 0 { '0' } else if n == 1 { '1' } else if n == 2 { '2' } else if n == 3 { '3' } else if n == 4 { '4' }
    else if n == 5 { '5' } else if n == 6 { '6' } else if n == 7 { '7' } else if n == 8 { '8' } else if n == 9 { '9' }
    else if n == 10 { 'a' } else if n == 11 { 'b' } else if n == 12 { 'c' } else if n == 13 { 'd' } else if n == 14 { 'e' }
    else { 'f' }
}

/// The hex digits of `h`, as `hex16` gives them.
pub fn hex16_chars(h: u64) -> (r: Vec<char>)
    ensures
        r@ == hex16(h),
{
    let mut out: Vec<char> = Vec::new();
    let mut k: u64 = 0;
    while k < 16
        invariant
            k <= 16,
            out@.len() == k,
            forall|j: int| 0 <= j < k ==> out@[j] == hex_digit(((h >> ((60 - 4 * j) as u64)) & 15u64) as int),
        decreases 16 - k,
    {
        let shift: u64 = 60 - 4 * k;
        let nib = (h >> shift) & 15u64;
        assert(nib < 16) by (bit_vector)
            requires
                nib == (h >> shift) & 15u64,
        ;
        out.push(hex_nibble(nib));
        k = k + 1;
    }
    assert(out@ =~= hex16(h));
    out
}

impl BlockMetadata {
    /// The metadata of a block holding `data`: its size, its hash, and the
    /// size of its compressed form; the compressor's error when it fails.
    pub fn new(data: &[u8]) -> (r: Result<Self, std::io::Error>)
        ensures
            r is Ok <==> zlib_of(data@) is Some,
            r matches Ok(m) ==> m.offset == 0 && m.size == data@.len() && m.hash == xxh3_64_of(data@)
                && m.compressed_size == zlib_of(data@).unwrap().len(),
    {
        let hash = xxh3_64(data);
        let compressed = match zlib_compress(data) {
            Ok(c) => c,
            Err(e) => return Err(e),
        };
        Ok(BlockMetadata { offset: 0, size: data.len(), hash, compressed_size: compressed.len() })
    }

    /// The path components of the block under a store: the first two hex
    /// digits of its hash, the next two, and the remaining twelve.
    pub fn path_parts(&self) -> (r: (String, String, String))
        ensures
            r.0@ == hex16(self.hash).subrange(0, 2),
            r.1@ == hex16(self.hash).subrange(2, 4),
            r.2@ == hex16(self.hash).subrange(4, 16),
    {
        let digits = hex16_chars(self.hash);
        (string_from_range(&digits, 0, 2), string_from_range(&digits, 2, 4), string_from_range(&digits, 4, 16))
    }

    /// The file of the block under `store_path`: two directory levels and a
    /// file, named by `path_parts`.
    pub fn get_path(&self, store_path: &String) -> (r: String)
        ensures
            r@ == block_path_text(store_path@, self.hash),
    {
        block_file_path(store_path, self.hash)
    }
}

/// The file of the block with hash `hash` under `store_path`, as
/// `block_path_text` names it.
pub fn block_file_path(store_path: &String, hash: u64) -> (r: String)
    ensures
        r@ == block_path_text(store_path@, hash),
{
    let digits = hex16_chars(hash);
    let dir1 = string_from_range(&digits, 0, 2);
    let dir2 = string_from_range(&digits, 2, 4);
    let filename = string_from_range(&digits, 4, 16);
    let p1 = join_path_text(store_path, &dir1);
    let p2 = join_path_text(&p1, &dir2);
    join_path_text(&p2, &filename)
}

/// The file of the block with hash `h` under the store directory `store`:
/// the first two hex digits of the hash, the next two, then the remaining
/// twelve.
pub open spec fn block_path_text(store: Seq<char>, h: u64) -> Seq<char> {
    join_text(join_text(join_text(store, hex16(h).subrange(0, 2)), hex16(h).subrange(2, 4)), hex16(h).subrange(4, 16))
}

} // verus!
