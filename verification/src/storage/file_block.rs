//! A stored block of file content, named by its BLAKE3 digest.
use vstd::prelude::*;
use crate::repository::io_utils::{blake3_hash_to_hex, blake3_of, compute_blake3_bytes, hex_text};
use crate::text::{str_chars, string_from_range};

verus! {

broadcast use vstd::string::group_string_axioms;

/// A block of file content.
#[derive(Debug, Clone)]
pub struct FileBlock {
    /// The lowercase hex BLAKE3 digest of the data; also its file name.
    pub id: String,
    /// The name of the hash algorithm.
    pub hash_algorithm: String,
    /// The content.
    pub block_data: Vec<u8>,
}

/// The id of a block holding `data`.
pub open spec fn block_id(data: Seq<u8>) -> Seq<char> {
    hex_text(blake3_of(data))
}

impl FileBlock {
    /// The block holding `bytes`, named by their BLAKE3 digest.
    pub fn from_bytes(bytes: Vec<u8>) -> (r: Self)
        ensures
            r.id@ == block_id(bytes@),
            r.hash_algorithm@ == "blake3"@,
            r.block_data@ == bytes@,
    {
        let hash = compute_blake3_bytes(bytes.as_slice());
        let id = blake3_hash_to_hex(&hash);
        FileBlock { id, hash_algorithm: String::from_str("blake3"), block_data: bytes }
    }
}

/// The characters of `s` below `n` are ASCII, so that byte and character
/// positions agree there.
pub open spec fn ascii_prefix(s: Seq<char>, n: int) -> bool {
    forall|i: int| 0 <= i < n ==> (#[trigger] s[i]) as u32 <= 0x7f
}

/// Where a block is stored under the store's root: three directory levels
/// named by the first, second and third pairs of characters of its id, then
/// the id itself.
pub fn block_path_parts(id: &str) -> (r: Vec<String>)
    requires
        id@.len() >= 6,
        ascii_prefix(id@, 6),
    ensures
        r@.len() == 4,
        r@[0]@ == id@.subrange(0, 2),
        r@[1]@ == id@.subrange(2, 4),
        r@[2]@ == id@.subrange(4, 6),
        r@[3]@ == id@,
{
    let cs = str_chars(id);
    let mut parts: Vec<String> = Vec::new();
    parts.push(string_from_range(&cs, 0, 2));
    parts.push(string_from_range(&cs, 2, 4));
    parts.push(string_from_range(&cs, 4, 6));
    parts.push(string_from_range(&cs, 0, cs.len()));
    assert(cs@.subrange(0, cs@.len() as int) =~= id@);
    parts
}

} // verus!
