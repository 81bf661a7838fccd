//! Hashes and checksums of byte strings, and the hexadecimal form of a hash.
use vstd::prelude::*;
use vstd::utf8::encode_utf8;
use crate::text::{ascii_lower, lower_text, str_chars, string_from_range, string_push};

verus! {

broadcast use vstd::string::group_string_axioms;

/// The BLAKE3 digest of `data` (`blake3::hash`).
pub uninterp spec fn blake3_of(data: Seq<u8>) -> Seq<u8>;

/// One bit step of the reflected CRC-32 register (polynomial `0xEDB88320`).
pub open spec fn crc32_bit(c: u32) -> u32 {
    if c & 1 == 1 { (c >> 1u32) ^ 0xEDB8_8320u32 } else { c >> 1u32 }
}

/// The CRC-32 register after taking in the byte `b`, low bit first.
pub open spec fn crc32_byte(c: u32, b: u8) -> u32 {
    let x = c ^ (b as u32);
    crc32_bit(crc32_bit(crc32_bit(crc32_bit(crc32_bit(crc32_bit(crc32_bit(crc32_bit(x))))))))
}

/// The CRC-32 register after taking in `data`, starting from all ones.
pub open spec fn crc32_register(data: Seq<u8>) -> u32
    decreases data.len(),
{
    if data.len() == 0 {
        0xFFFF_FFFFu32
    } else {
        crc32_byte(crc32_register(data.drop_last()), data.last())
    }
}

/// The CRC-32 (IEEE 802.3, reflected, the checksum of zlib and PNG) of
/// `data`: the final register with every bit flipped.
pub open spec fn crc32_of(data: Seq<u8>) -> u32 {
    !crc32_register(data)
}

/// The BLAKE3 digest of `data`, by `blake3::hash`.  The contract claims that
/// the 32-byte digest is a function of the bytes alone.
#[verifier::external_body]
fn blake3_digest(data: &[u8]) -> (r: [u8; 32])
    ensures
        r@ == blake3_of(data@),
{
    *blake3::hash(data).as_bytes()
}

/// The CRC-32 checksum of `data`, by `crc32fast::hash`.  The contract claims
/// that it is the standard CRC-32 (IEEE) that `crc32_of` writes out, which
/// the crate documents it computes.
#[verifier::external_body]
pub(crate) fn crc32_digest(data: &[u8]) -> (r: u32)
    ensures
        r == crc32_of(data@),
{
    crc32fast::hash(data)
}

/// The 32-byte BLAKE3 digest of a byte string.
pub fn compute_blake3_bytes(data: &[u8]) -> (r: [u8; 32])
    ensures
        r@ == blake3_of(data@),
{
    blake3_digest(data)
}

/// The 32-byte BLAKE3 digest of the UTF-8 bytes of a string.
pub fn compute_blake3_str(s: &str) -> (r: [u8; 32])
    ensures
        r@ == blake3_of(encode_utf8(s@)),
{
    compute_blake3_bytes(s.as_bytes())
}

/// The lowercase hexadecimal digit of `n < 16`.
pub open spec fn hex_digit(n: int) -> char {
    if n == 0 { '0' } else if n == 1 { '1' } else if n == 2 { '2' } else if n == 3 { '3' } else if n == 4 { '4' }
    else if n == 5 { '5' } else if n == 6 { '6' } else if n == 7 { '7' } else if n == 8 { '8' } else if n == 9 { '9' }
    else if n == 10 { 'a' } else if n == 11 { 'b' } else if n == 12 { 'c' } else if n == 13 { 'd' } else if n == 14 { 'e' }
    else { 'f' }
}

/// Two lowercase hexadecimal digits per byte, high half first.
pub open spec fn hex_text(b: Seq<u8>) -> Seq<char>
    decreases b.len(),
{
    if b.len() == 0 {
        Seq::empty()
    } else {
        hex_text(b.drop_last()) + seq![hex_digit(b.last() as int / 16), hex_digit(b.last() as int % 16)]
    }
}

fn hex_char(n: u8) -> (c: char)
    requires
        n < 16,
    ensures
        c == hex_digit(n as int),
{
    if n == 0 { '0' } else if n == 1 { '1' } else if n == 2 { '2' } else if n == 3 { '3' } else if n == 4 { '4' }
    else if n == 5 { '5' } else if n == 6 { '6' } else if n == 7 { '7' } else if n == 8 { '8' } else if n == 9 { '9' }
    else if n == 10 { 'a' } else if n == 11 { 'b' } else if n == 12 { 'c' } else if n == 13 { 'd' } else if n == 14 { 'e' }
    else { 'f' }
}

/// The lowercase hexadecimal form of a 32-byte hash (64 digits).
pub fn blake3_hash_to_hex(hash: &[u8; 32]) -> (r: String)
    ensures
        r@ == hex_text(hash@),
{
    let mut out = String::new();
    let mut i: usize = 0;
    while i < 32
        invariant
            i <= 32,
            hash@.len() == 32,
            out@ == hex_text(hash@.take(i as int)),
        decreases 32 - i,
    {
        let b = hash[i];
        string_push(&mut out, hex_char(b / 16));
        string_push(&mut out, hex_char(b % 16));
        assert(hash@.take(i + 1).drop_last() =~= hash@.take(i as int));
        assert(hash@.take(i + 1).last() == b);
        i = i + 1;
    }
    assert(hash@.take(32) =~= hash@);
    out
}

/// Unicode white space (`char::is_whitespace`).
pub open spec fn is_white_space(c: char) -> bool {
    let u = c as u32;
    (0x9 <= u <= 0xd) || u == 0x20 || u == 0x85 || u == 0xa0 || u == 0x1680 || (0x2000 <= u <= 0x200a)
        || u == 0x2028 || u == 0x2029 || u == 0x202f || u == 0x205f || u == 0x3000
}

/// `s` without its leading white space.
pub open spec fn trim_front(s: Seq<char>) -> Seq<char>
    decreases s.len(),
{
    if s.len() > 0 && is_white_space(s[0]) {
        trim_front(s.drop_first())
    } else {
        s
    }
}

/// `s` without its trailing white space.
pub open spec fn trim_back(s: Seq<char>) -> Seq<char>
    decreases s.len(),
{
    if s.len() > 0 && is_white_space(s.last()) {
        trim_back(s.drop_last())
    } else {
        s
    }
}

/// `s` without leading and trailing white space (`str::trim`).
pub open spec fn trimmed(s: Seq<char>) -> Seq<char> {
    trim_back(trim_front(s))
}

/// The value of a hexadecimal digit, either case; `None` for any other
/// character.
pub open spec fn hex_value(c: char) -> Option<u8> {
    if '0' <= c <= '9' {
        Some((c as u32 - 48) as u8)
    } else if 'a' <= c <= 'f' {
        Some((c as u32 - 87) as u8)
    } else if 'A' <= c <= 'F' {
        Some((c as u32 - 55) as u8)
    } else {
        None
    }
}

/// Every character of `t` is a hexadecimal digit.
pub open spec fn all_hex(t: Seq<char>) -> bool {
    forall|i: int| 0 <= i < t.len() ==> (#[trigger] hex_value(t[i])) is Some
}

/// The byte written by the digit pair that starts at `2 * i` of `t`, high
/// half first.
pub open spec fn pair_byte(t: Seq<char>, i: int) -> u8 {
    (16 * hex_value(t[2 * i])->Some_0 + hex_value(t[2 * i + 1])->Some_0) as u8
}

/// The hash that a hexadecimal text reads as: after trimming, exactly 64
/// hexadecimal digits (either case), read two by two.
pub open spec fn hex_decoded(s: Seq<char>) -> Option<Seq<u8>> {
    let t = trimmed(s);
    if t.len() == 64 && all_hex(t) {
        Some(Seq::new(32, |i: int| pair_byte(t, i)))
    } else {
        None
    }
}

fn hex_value_of(c: char) -> (r: Option<u8>)
    ensures
        r == hex_value(c),
        r matches Some(v) ==> v < 16,
{
    let u = c as u32;
    if '0' <= c && c <= '9' {
        Some((u - 48) as u8)
    } else if 'a' <= c && c <= 'f' {
        Some((u - 87) as u8)
    } else if 'A' <= c && c <= 'F' {
        Some((u - 55) as u8)
    } else {
        None
    }
}

fn white_space(c: char) -> (r: bool)
    ensures
        r == is_white_space(c),
{
    let u = c as u32;
    (0x9 <= u && u <= 0xd) || u == 0x20 || u == 0x85 || u == 0xa0 || u == 0x1680 || (0x2000 <= u && u <= 0x200a)
        || u == 0x2028 || u == 0x2029 || u == 0x202f || u == 0x205f || u == 0x3000
}

/// `s` trimmed of white space at both ends.
pub fn trim_text(s: &str) -> (r: String)
    ensures
        r@ == trimmed(s@),
{
    let cs = str_chars(s);
    let mut lo: usize = 0;
    assert(s@.skip(0) =~= s@);
    while lo < cs.len() && white_space(cs[lo])
        invariant
            cs@ == s@,
            lo <= cs@.len(),
            trim_front(s@) == trim_front(s@.skip(lo as int)),
        decreases cs@.len() - lo,
    {
        assert(s@.skip(lo as int).drop_first() =~= s@.skip(lo + 1));
        lo = lo + 1;
    }
    assert(trim_front(s@) == s@.skip(lo as int));
    let mut hi: usize = cs.len();
    assert(s@.skip(lo as int).take(hi - lo) =~= s@.skip(lo as int));
    while hi > lo && white_space(cs[hi - 1])
        invariant
            cs@ == s@,
            lo <= hi <= cs@.len(),
            trim_back(s@.skip(lo as int)) == trim_back(s@.subrange(lo as int, hi as int)),
        decreases hi - lo,
    {
        assert(s@.subrange(lo as int, hi as int).drop_last() =~= s@.subrange(lo as int, hi - 1));
        hi = hi - 1;
    }
    assert(s@.subrange(lo as int, hi as int) =~= s@.skip(lo as int).take(hi - lo));
    string_from_range(&cs, lo, hi)
}

/// Reads a 32-byte hash from its hexadecimal form: surrounding white space
/// is ignored, the rest must be 64 hexadecimal digits (either case), each
/// pair read as a byte.  `None` when the length is wrong or any other
/// character occurs.
pub fn blake3_hex_to_hash(s: &str) -> (r: Option<[u8; 32]>)
    ensures
        match r {
            Some(h) => hex_decoded(s@) == Some(h@),
            None => hex_decoded(s@) is None,
        },
{
    let t = trim_text(s);
    let cs = str_chars(t.as_str());
    if cs.len() != 64 {
        return None;
    }
    let mut out = [0u8; 32];
    let mut i: usize = 0;
    while i < 32
        invariant
            i <= 32,
            cs@ == trimmed(s@),
            cs@.len() == 64,
            out@.len() == 32,
            forall|j: int| 0 <= j < 2 * i ==> (#[trigger] hex_value(cs@[j])) is Some,
            forall|j: int| 0 <= j < i ==> out@[j] == #[trigger] pair_byte(cs@, j),
        decreases 32 - i,
    {
        let hi = match hex_value_of(cs[2 * i]) {
            Some(v) => v,
            None => {
                assert(!all_hex(cs@));
                return None;
            },
        };
        let lo = match hex_value_of(cs[2 * i + 1]) {
            Some(v) => v,
            None => {
                assert(!all_hex(cs@));
                return None;
            },
        };
        out[i] = 16 * hi + lo;
        assert(out@[i as int] == pair_byte(cs@, i as int));
        i = i + 1;
    }
    assert(all_hex(cs@));
    assert(out@ =~= Seq::new(32, |j: int| pair_byte(cs@, j)));
    Some(out)
}

/// Length and characters of a hexadecimal text.
proof fn lemma_hex_text_chars(b: Seq<u8>)
    ensures
        hex_text(b).len() == 2 * b.len(),
        forall|k: int|
            #![trigger b[k]]
            0 <= k < b.len() ==> hex_text(b)[2 * k] == hex_digit(b[k] as int / 16) && hex_text(b)[2 * k + 1]
                == hex_digit(b[k] as int % 16),
    decreases b.len(),
{
    if b.len() > 0 {
        lemma_hex_text_chars(b.drop_last());
        assert forall|k: int| 0 <= k < b.len() - 1 implies #[trigger] b[k] == b.drop_last()[k] by {}
    }
}

/// A hexadecimal digit is not white space and reads back as its value.
proof fn lemma_hex_digit(n: int)
    requires
        0 <= n < 16,
    ensures
        !is_white_space(hex_digit(n)),
        hex_value(hex_digit(n)) == Some(n as u8),
{
}

/// A hexadecimal digit of either case, written back from its value, is the
/// digit in lower case.
proof fn lemma_hex_digit_lower(c: char)
    requires
        hex_value(c) is Some,
    ensures
        hex_value(c)->Some_0 < 16,
        hex_digit(hex_value(c)->Some_0 as int) == ascii_lower(c),
{
}

/// Reading the hexadecimal form of a hash gives the hash back.
pub proof fn lemma_hex_roundtrip(h: Seq<u8>)
    requires
        h.len() == 32,
    ensures
        hex_decoded(hex_text(h)) == Some(h),
{
    let s = hex_text(h);
    lemma_hex_text_chars(h);
    assert forall|i: int| 0 <= i < s.len() implies !is_white_space(#[trigger] s[i]) && hex_value(s[i]) is Some by {
        let k = i / 2;
        assert(h[k] == h[k]);
        if i % 2 == 0 {
            assert(i == 2 * k);
            lemma_hex_digit(h[k] as int / 16);
        } else {
            assert(i == 2 * k + 1);
            lemma_hex_digit(h[k] as int % 16);
        }
    }
    assert(trim_front(s) == s);
    assert(trim_back(s) == s);
    assert(all_hex(s));
    assert forall|i: int| 0 <= i < 32 implies #[trigger] pair_byte(s, i) == h[i] by {
        assert(h[i] == h[i]);
        lemma_hex_digit(h[i] as int / 16);
        lemma_hex_digit(h[i] as int % 16);
        assert(16 * (h[i] as int / 16) + h[i] as int % 16 == h[i] as int);
    }
    assert(Seq::new(32, |i: int| pair_byte(s, i)) =~= h);
}

/// Reading a hexadecimal text and writing the hash back out gives the text
/// trimmed and in lower case.
pub proof fn lemma_hex_reparse(s: Seq<char>, h: Seq<u8>)
    requires
        hex_decoded(s) == Some(h),
    ensures
        hex_text(h) == lower_text(trimmed(s)),
{
    let t = trimmed(s);
    lemma_hex_text_chars(h);
    assert forall|i: int| 0 <= i < 64 implies #[trigger] hex_text(h)[i] == lower_text(t)[i] by {
        let k = i / 2;
        assert(h[k] == pair_byte(t, k));
        assert(hex_value(t[2 * k]) is Some);
        assert(hex_value(t[2 * k + 1]) is Some);
        lemma_hex_digit_lower(t[2 * k]);
        lemma_hex_digit_lower(t[2 * k + 1]);
        let va = hex_value(t[2 * k])->Some_0 as int;
        let vb = hex_value(t[2 * k + 1])->Some_0 as int;
        assert(h[k] as int == 16 * va + vb);
        assert((16 * va + vb) / 16 == va && (16 * va + vb) % 16 == vb) by (nonlinear_arith)
            requires
                0 <= va < 16,
                0 <= vb < 16,
        ;
        if i % 2 == 0 {
            assert(i == 2 * k);
        } else {
            assert(i == 2 * k + 1);
        }
    }
    assert(hex_text(h) =~= lower_text(t));
}

/// The CRC-32 checksum of a byte string.
pub fn crc32_bytes(data: &[u8]) -> (r: u32)
    ensures
        r == crc32_of(data@),
{
    crc32_digest(data)
}

/// `blake3::Hasher`, held inside `Blake3Stream`.
#[verifier::external_type_specification]
#[verifier::external_body]
pub struct ExBlake3Hasher(blake3::Hasher);

/// A BLAKE3 digest computed over data given piece by piece.
pub struct Blake3Stream {
    inner: blake3::Hasher,
    seen: Ghost<Seq<u8>>,
}

/// A fresh `blake3::Hasher::new()`, which has seen nothing.
#[verifier::external_body]
fn new_hasher_stream() -> (r: Blake3Stream)
    ensures
        r.seen@ == Seq::<u8>::empty(),
{
    Blake3Stream { inner: blake3::Hasher::new(), seen: Ghost(Seq::empty()) }
}

/// Feeds `data` to the stream's hasher (`blake3::Hasher::update`).  The
/// contract claims that the hasher has then seen the bytes it had seen and
/// `data` after them.
#[verifier::external_body]
fn hasher_stream_update(s: &mut Blake3Stream, data: &[u8])
    ensures
        final(s).seen@ == old(s).seen@ + data@,
{
    s.inner.update(data);
}

/// The digest of what the stream's hasher has seen
/// (`blake3::Hasher::finalize`).  The contract claims that it is the BLAKE3
/// digest of the bytes fed to it so far, as `blake3::hash` of them would
/// give (the crate documents the two as equal).
#[verifier::external_body]
fn hasher_stream_finalize(s: &Blake3Stream) -> (r: [u8; 32])
    ensures
        r@ == blake3_of(s.seen@),
{
    *s.inner.finalize().as_bytes()
}

impl Blake3Stream {
    /// The bytes fed so far.
    pub closed spec fn seen_view(&self) -> Seq<u8> {
        self.seen@
    }

    /// A stream that has seen nothing.
    pub fn new() -> (r: Self)
        ensures
            r.seen_view() == Seq::<u8>::empty(),
    {
        new_hasher_stream()
    }

    /// Feeds more bytes.
    pub fn update(&mut self, data: &[u8])
        ensures
            final(self).seen_view() == old(self).seen_view() + data@,
    {
        hasher_stream_update(self, data);
    }

    /// The digest of everything fed so far; the stream can go on.
    pub fn finalize(&self) -> (r: [u8; 32])
        ensures
            r@ == blake3_of(self.seen_view()),
    {
        hasher_stream_finalize(self)
    }
}

} // verus!
