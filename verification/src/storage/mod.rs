//! Splitting file contents into blocks: content-defined chunking with a
//! rolling hash for small files, fixed-size blocks for large ones.
use vstd::prelude::*;
use vstd::slice::{slice_subrange, slice_to_vec};
use self::file_block::{block_id, FileBlock};

pub mod file_block;
pub mod block;
pub mod file_manager;
pub mod changelist;

verus! {

/// Options to control chunking behaviors.
#[derive(Debug, Clone)]
pub struct ChunkingOptions {
    /// Fixed block size for large files.
    pub fixed_block_size: usize,
    /// Threshold to treat a file as small; small files use CDC.
    pub small_file_threshold: usize,
    /// CDC window size in bytes.
    pub cdc_window_size: usize,
    /// CDC minimum chunk size.
    pub cdc_min_size: usize,
    /// CDC target/average chunk size (ideally a power of two).
    pub cdc_avg_size: usize,
    /// CDC maximum chunk size.
    pub cdc_max_size: usize,
}

impl Default for ChunkingOptions {
    fn default() -> (r: Self)
        ensures
            r.fixed_block_size == 4 * 1024 * 1024,
            r.small_file_threshold == 4 * 1024 * 1024,
            r.cdc_window_size == 48,
            r.cdc_min_size == 8 * 1024,
            r.cdc_avg_size == 32 * 1024,
            r.cdc_max_size == 64 * 1024,
    {
        let four_mib: usize = 4 * 1024 * 1024;
        ChunkingOptions {
            fixed_block_size: four_mib,
            small_file_threshold: four_mib,
            cdc_window_size: 48,
            cdc_min_size: 8 * 1024,
            cdc_avg_size: 32 * 1024,
            cdc_max_size: 64 * 1024,
        }
    }
}

// ---------------------------------------------------------------------------
// Rotation and the window hash.
// ---------------------------------------------------------------------------

/// `x` rotated left by `r < 64` bits.
pub open spec fn rot(x: u64, r: u32) -> u64 {
    if r == 0 {
        x
    } else {
        (x << r) | (x >> ((64 - r) as u32))
    }
}

/// Rotates `x` left by `r` bits, `0 < r < 64`.
pub fn rotl64(x: u64, r: u32) -> (res: u64)
    requires
        0 < r < 64,
    ensures
        res == rot(x, r),
{
    (x << r) | (x >> (64 - r))
}

proof fn lemma_rot_one_xor(x: u64, y: u64)
    ensures
        rot(x ^ y, 1) == rot(x, 1) ^ rot(y, 1),
{
    assert(((x ^ y) << 1u32) | ((x ^ y) >> 63u32) == ((x << 1u32) | (x >> 63u32)) ^ ((y << 1u32) | (y >> 63u32)))
        by (bit_vector);
}

proof fn lemma_rot_succ(x: u64, k: u32)
    requires
        k < 64,
    ensures
        rot(rot(x, k), 1) == rot(x, ((k + 1) % 64) as u32),
{
    if k == 0 {
    } else if k < 63 {
        assert(((((x << k) | (x >> ((64 - k) as u32))) << 1u32) | (((x << k) | (x >> ((64 - k) as u32))) >> 63u32))
            == ((x << ((k + 1) as u32)) | (x >> ((63 - k) as u32)))) by (bit_vector)
            requires
                0 < k < 63,
        ;
    } else {
        assert(((((x << 63u32) | (x >> 1u32)) << 1u32) | (((x << 63u32) | (x >> 1u32)) >> 63u32)) == x)
            by (bit_vector);
    }
}

proof fn lemma_xor_facts(a: u64, b: u64, c: u64)
    ensures
        a ^ 0 == a,
        0 ^ a == a,
        (a ^ b) ^ c == a ^ (b ^ c),
        (a ^ b) ^ a == b,
        rot(0, 1) == 0,
{
    assert(a ^ 0 == a) by (bit_vector);
    assert(0 ^ a == a) by (bit_vector);
    assert((a ^ b) ^ c == a ^ (b ^ c)) by (bit_vector);
    assert((a ^ b) ^ a == b) by (bit_vector);
    assert((0u64 << 1u32) | (0u64 >> 63u32) == 0) by (bit_vector);
}

/// The hash of the window `b[lo..hi]`: each byte's table entry, rotated left
/// by one bit for every byte that follows it in the window, all xor-ed.
pub open spec fn window_hash(b: Seq<u8>, t: Seq<u64>, lo: int, hi: int) -> u64
    decreases hi - lo,
{
    if hi <= lo {
        0
    } else {
        rot(window_hash(b, t, lo, hi - 1), 1) ^ t[b[hi - 1] as int]
    }
}

/// Dropping the oldest byte of a window removes its entry, rotated by the
/// window's length.
proof fn lemma_window_roll(b: Seq<u8>, t: Seq<u64>, lo: int, hi: int)
    requires
        lo <= hi,
    ensures
        window_hash(b, t, lo, hi + 1) == rot(t[b[lo] as int], ((hi - lo) % 64) as u32) ^ window_hash(b, t, lo + 1, hi + 1),
    decreases hi - lo,
{
    let tl = t[b[lo] as int];
    if hi == lo {
        lemma_xor_facts(tl, 0, 0);
        assert(window_hash(b, t, lo, lo) == 0);
        assert(window_hash(b, t, lo + 1, lo + 1) == 0);
    } else {
        lemma_window_roll(b, t, lo, hi - 1);
        let k = ((hi - 1 - lo) % 64) as u32;
        let k1 = ((hi - lo) % 64) as u32;
        assert(((k + 1) % 64) as u32 == k1);
        let inner = window_hash(b, t, lo + 1, hi);
        let th = t[b[hi] as int];
        lemma_rot_one_xor(rot(tl, k), inner);
        lemma_rot_succ(tl, k);
        lemma_xor_facts(rot(tl, k1), rot(inner, 1), th);
    }
}

/// One step of the rolling hash: from the window `b[i-w..i]` to `b[i-w+1..i+1]`.
proof fn lemma_window_step(b: Seq<u8>, t: Seq<u64>, w: int, i: int)
    requires
        0 < w <= i,
        w % 64 != 0,
    ensures
        (rot(window_hash(b, t, i - w, i), 1) ^ t[b[i] as int]) ^ rot(t[b[i - w] as int], (w % 64) as u32)
            == window_hash(b, t, i - w + 1, i + 1),
{
    lemma_window_roll(b, t, i - w, i);
    let r = rot(t[b[i - w] as int], (w % 64) as u32);
    lemma_xor_facts(r, window_hash(b, t, i - w + 1, i + 1), 0);
}

// ---------------------------------------------------------------------------
// The gear table.
// ---------------------------------------------------------------------------

/// The multiplier applied to each xorshift state.
pub const GEAR_MULTIPLIER: u64 = 0x2545_F491_4F6C_DD1D;

/// The constant mixed into the seed.
pub const GEAR_SEED_MIX: u64 = 0x9E37_79B9_7F4A_7C15;

/// One xorshift64 step.
pub open spec fn xorshift(x: u64) -> u64 {
    let a = x ^ (x >> 12u64);
    let b = a ^ (a << 25u64);
    b ^ (b >> 27u64)
}

/// The generator's state after `k` steps from `seed`.
pub open spec fn gear_state(seed: u64, k: nat) -> u64
    decreases k,
{
    if k == 0 {
        GEAR_SEED_MIX ^ seed
    } else {
        xorshift(gear_state(seed, (k - 1) as nat))
    }
}

/// The entry `k` of the table: the state after `k + 1` steps, multiplied
/// modulo 2^64.
pub open spec fn gear_entry(seed: u64, k: int) -> u64 {
    ((gear_state(seed, (k + 1) as nat) as nat * GEAR_MULTIPLIER as nat) % 0x1_0000_0000_0000_0000) as u64
}

/// The 256-entry table generated from `seed` (xorshift64*).
pub open spec fn gear_table(seed: u64) -> Seq<u64> {
    Seq::new(256, |k: int| gear_entry(seed, k))
}

/// The table generated from `seed`.
pub fn build_gear_table_from(seed: u64) -> (table: Vec<u64>)
    ensures
        table@ == gear_table(seed),
{
    let mut x: u64 = GEAR_SEED_MIX ^ seed;
    let mut table: Vec<u64> = Vec::new();
    let mut i: usize = 0;
    while i < 256
        invariant
            i <= 256,
            table@.len() == i,
            x == gear_state(seed, i as nat),
            forall|k: int| 0 <= k < i ==> table@[k] == gear_entry(seed, k),
        decreases 256 - i,
    {
        x ^= x >> 12u64;
        x ^= x << 25u64;
        x ^= x >> 27u64;
        assert(x == gear_state(seed, (i + 1) as nat));
        table.push(x.wrapping_mul(GEAR_MULTIPLIER));
        i = i + 1;
    }
    assert(table@ =~= gear_table(seed));
    table
}

/// The current time in nanoseconds since the Unix epoch, by
/// `std::time::SystemTime::now`; zero before the epoch.  Nothing is claimed
/// of the value.
#[verifier::external_body]
pub(crate) fn unix_time_nanos() -> u128 {
    std::time::SystemTime::now()
        .duration_since(std::time::SystemTime::UNIX_EPOCH)
        .unwrap_or_default()
        .as_nanos()
}

/// A seed that varies from process to process, taken from the clock.  A
/// program that wants one gear table for the whole process takes this once
/// and hands it to the `_with_seed` functions.
pub fn nanos_seed() -> u64 {
    let nanos = unix_time_nanos() as u64;
    rotl64(nanos, 13) ^ 0xD6E8_FD50_88CC_AA27
}

/// A gear table seeded from the clock.
pub fn build_gear_table() -> (table: Vec<u64>)
    ensures
        exists|seed: u64| table@ == #[trigger] gear_table(seed),
{
    let seed = nanos_seed();
    let table = build_gear_table_from(seed);
    assert(table@ == gear_table(seed));
    table
}


// ---------------------------------------------------------------------------
// Powers of two.
// ---------------------------------------------------------------------------

/// The least power of two that is at least `n`, searched upward from the
/// power of two `p`.
pub open spec fn pow2_ceil_from(n: nat, p: nat) -> nat
    decreases n - p,
{
    if p == 0 || p >= n {
        p
    } else if 2 * p >= n {
        2 * p
    } else {
        pow2_ceil_from(n, 2 * p)
    }
}

/// The least power of two that is at least `n` (one for zero), as
/// `usize::next_power_of_two` gives it.
pub open spec fn next_pow2(n: nat) -> nat {
    if n == 0 { 1 } else { pow2_ceil_from(n, 1) }
}

/// The least power of two that is at least `n`.
pub fn next_power_of_two(n: usize) -> (r: usize)
    requires
        n <= usize::MAX / 2 + 1,
    ensures
        r == next_pow2(n as nat),
        r >= 1,
{
    let mut p: usize = 1;
    while p < n
        invariant
            1 <= p,
            n == 0 ==> p == 1,
            n <= usize::MAX / 2 + 1,
            n == 0 || pow2_ceil_from(n as nat, p as nat) == pow2_ceil_from(n as nat, 1),
        decreases usize::MAX - p,
    {
        assert(pow2_ceil_from(n as nat, (2 * p) as nat) == pow2_ceil_from(n as nat, p as nat));
        p = p * 2;
    }
    assert(n == 0 || pow2_ceil_from(n as nat, p as nat) == p);
    p
}

// ---------------------------------------------------------------------------
// Content-defined chunking.
// ---------------------------------------------------------------------------

/// Whether a chunk ends before position `i`, `since` bytes after its start,
/// when the window hash there is `h`.
pub open spec fn cut_here(h: u64, since: int, min: int, max: int, mask: u64) -> bool {
    since >= max || (since >= min && h & mask == 0)
}

/// The chunks from position `i` on, the current chunk having started at
/// `start`: a chunk ends before `i` where `cut_here` holds of the hash of the
/// `w` bytes before `i`; the rest of the input is the last chunk.
pub open spec fn cdc_from(b: Seq<u8>, t: Seq<u64>, w: int, min: int, max: int, mask: u64, i: int, start: int) -> Seq<(int, int)>
    decreases b.len() - i,
{
    if i >= b.len() {
        if start < b.len() { seq![(start, b.len() as int)] } else { Seq::empty() }
    } else if cut_here(window_hash(b, t, i - w, i), i - start, min, max, mask) {
        seq![(start, i)] + cdc_from(b, t, w, min, max, mask, i + 1, i)
    } else {
        cdc_from(b, t, w, min, max, mask, i + 1, start)
    }
}

pub open spec fn min_of(a: int, b: int) -> int {
    if a <= b { a } else { b }
}

pub open spec fn max_of(a: int, b: int) -> int {
    if a >= b { a } else { b }
}

/// The window size used on an input of `len > 0` bytes.
pub open spec fn cdc_window(o: ChunkingOptions, len: int) -> int {
    min_of(o.cdc_window_size as int, len)
}

/// The mask whose bits must be clear in the hash for a chunk to end.
pub open spec fn cdc_mask(o: ChunkingOptions) -> u64 {
    (next_pow2(o.cdc_avg_size as nat) - 1) as u64
}

/// The options can chunk an input of `len` bytes: when the window is rolled
/// over the input (it is shorter than the input), its size is not a
/// multiple of 64 (the rotation of the outgoing byte would be by nothing);
/// and the average size has a next power of two.
pub open spec fn cdc_ok(o: ChunkingOptions, len: int) -> bool {
    len == 0 || ((cdc_window(o, len) % 64 != 0 || cdc_window(o, len) == len) && o.cdc_avg_size <= usize::MAX / 2 + 1)
}

/// The chunks of `b` under options `o` and gear table `t`, as byte ranges
/// `(start, end)`; an empty input is one empty chunk.
pub open spec fn cdc_ranges(b: Seq<u8>, o: ChunkingOptions, t: Seq<u64>) -> Seq<(int, int)> {
    let len = b.len() as int;
    if len == 0 {
        seq![(0int, 0int)]
    } else {
        let w = cdc_window(o, len);
        cdc_from(b, t, w, min_of(o.cdc_min_size as int, len), min_of(o.cdc_max_size as int, len), cdc_mask(o), w, 0)
    }
}

/// The longest chunk that `cdc_ranges` can give on `len > 0` bytes.
pub open spec fn cdc_cap(o: ChunkingOptions, len: int) -> int {
    max_of(min_of(o.cdc_max_size as int, len), cdc_window(o, len))
}

/// Byte ranges as integer pairs.
pub open spec fn ranges_view(v: Seq<(usize, usize)>) -> Seq<(int, int)> {
    v.map_values(|p: (usize, usize)| (p.0 as int, p.1 as int))
}

/// `s` cuts `[lo, hi)` into consecutive non-empty ranges, in order.
pub open spec fn tiles(s: Seq<(int, int)>, lo: int, hi: int) -> bool
    decreases s.len(),
{
    if s.len() == 0 {
        lo == hi
    } else {
        s[0].0 == lo && s[0].0 < s[0].1 && tiles(s.drop_first(), s[0].1, hi)
    }
}

/// No range of `s` is longer than `cap`.
pub open spec fn ranges_at_most(s: Seq<(int, int)>, cap: int) -> bool {
    forall|k: int| 0 <= k < s.len() ==> (#[trigger] s[k]).1 - s[k].0 <= cap
}

/// Every range of `s` but the last is at least `floor` long.
pub open spec fn ranges_at_least_but_last(s: Seq<(int, int)>, floor: int) -> bool {
    forall|k: int| 0 <= k < s.len() - 1 ==> (#[trigger] s[k]).1 - s[k].0 >= floor
}

/// The shortest chunk but the last that `cdc_ranges` can give on `len > 0`
/// bytes: a chunk ends once it reaches the minimum size (at a hash cut) or
/// the maximum size, whichever comes first.
pub open spec fn cdc_floor(o: ChunkingOptions, len: int) -> int {
    min_of(min_of(o.cdc_min_size as int, len), min_of(o.cdc_max_size as int, len))
}

proof fn lemma_cdc_from_tiles(b: Seq<u8>, t: Seq<u64>, w: int, min: int, max: int, mask: u64, i: int, start: int, cap: int)
    requires
        1 <= w <= i <= b.len(),
        0 <= start < i,
        cap == max_of(max, w),
        i - start <= cap,
    ensures
        tiles(cdc_from(b, t, w, min, max, mask, i, start), start, b.len() as int),
        ranges_at_most(cdc_from(b, t, w, min, max, mask, i, start), cap),
        ranges_at_least_but_last(cdc_from(b, t, w, min, max, mask, i, start), min_of(min, max)),
    decreases b.len() - i,
{
    let s = cdc_from(b, t, w, min, max, mask, i, start);
    if i >= b.len() {
        assert(s.drop_first() =~= Seq::<(int, int)>::empty());
        assert(tiles(s.drop_first(), b.len() as int, b.len() as int));
        assert(tiles(s, start, b.len() as int));
    } else if cut_here(window_hash(b, t, i - w, i), i - start, min, max, mask) {
        let rest = cdc_from(b, t, w, min, max, mask, i + 1, i);
        lemma_cdc_from_tiles(b, t, w, min, max, mask, i + 1, i, cap);
        assert(s.drop_first() =~= rest);
        assert(s[0] == (start, i));
        assert(tiles(rest, i, b.len() as int));
        assert forall|k: int| 0 <= k < s.len() implies (#[trigger] s[k]).1 - s[k].0 <= cap by {
            if k > 0 {
                assert(s[k] == rest[k - 1]);
            }
        }
        assert forall|k: int| 0 <= k < s.len() - 1 implies (#[trigger] s[k]).1 - s[k].0 >= min_of(min, max) by {
            if k > 0 {
                assert(s[k] == rest[k - 1]);
            }
        }
    } else {
        lemma_cdc_from_tiles(b, t, w, min, max, mask, i + 1, start, cap);
        assert(s == cdc_from(b, t, w, min, max, mask, i + 1, start));
    }
}

/// The chunks of a non-empty input tile it, none longer than the cap.
pub proof fn lemma_cdc_ranges_tile(b: Seq<u8>, o: ChunkingOptions, t: Seq<u64>)
    requires
        b.len() > 0,
        cdc_ok(o, b.len() as int),
    ensures
        tiles(cdc_ranges(b, o, t), 0, b.len() as int),
        ranges_at_most(cdc_ranges(b, o, t), cdc_cap(o, b.len() as int)),
        ranges_at_least_but_last(cdc_ranges(b, o, t), cdc_floor(o, b.len() as int)),
{
    let len = b.len() as int;
    let w = cdc_window(o, len);
    lemma_cdc_from_tiles(b, t, w, min_of(o.cdc_min_size as int, len), min_of(o.cdc_max_size as int, len), cdc_mask(o), w, 0, cdc_cap(o, len));
}

/// The chunks of `bytes` under `options` with the gear table `table`.
pub fn cdc_chunk_ranges_with_table(bytes: &[u8], options: &ChunkingOptions, table: &Vec<u64>) -> (r: Vec<(usize, usize)>)
    requires
        table@.len() == 256,
        cdc_ok(*options, bytes@.len() as int),
    ensures
        ranges_view(r@) == cdc_ranges(bytes@, *options, table@),
{
    let len = bytes.len();
    if len == 0 {
        let r = vec![(0usize, 0usize)];
        assert(ranges_view(r@) =~= seq![(0int, 0int)]);
        return r;
    }
    let min_size = if options.cdc_min_size < len { options.cdc_min_size } else { len };
    let max_size = if options.cdc_max_size < len { options.cdc_max_size } else { len };
    let avg_pow2 = next_power_of_two(options.cdc_avg_size);
    let mask: u64 = (avg_pow2 as u64) - 1;
    let w = if options.cdc_window_size < len { options.cdc_window_size } else { len };
    let ghost b = bytes@;
    let ghost t = table@;
    let ghost whole = cdc_from(b, t, w as int, min_size as int, max_size as int, mask, w as int, 0);
    assert(whole == cdc_ranges(b, *options, t));

    let mut h: u64 = 0;
    let mut i: usize = 0;
    while i < w
        invariant
            i <= w <= len,
            len == bytes@.len(),
            b == bytes@,
            t == table@,
            t.len() == 256,
            h == window_hash(b, t, 0, i as int),
        decreases w - i,
    {
        h = rotl64(h, 1) ^ table[bytes[i] as usize];
        i = i + 1;
    }

    let mut ranges: Vec<(usize, usize)> = Vec::new();
    let mut start: usize = 0;
    assert(ranges_view(ranges@) + cdc_from(b, t, w as int, min_size as int, max_size as int, mask, i as int, start as int) =~= whole);
    while i < len
        invariant
            0 < w <= i <= len,
            (w as int) % 64 != 0 || w == len,
            start <= i,
            len == bytes@.len(),
            b == bytes@,
            t == table@,
            t.len() == 256,
            h == window_hash(b, t, i - w, i as int),
            ranges_view(ranges@) + cdc_from(b, t, w as int, min_size as int, max_size as int, mask, i as int, start as int) == whole,
        decreases len - i,
    {
        let since = i - start;
        let at_max = since >= max_size;
        let can_cut = since >= min_size && ((h & mask) == 0);
        let ghost before = ranges_view(ranges@);
        if at_max || can_cut {
            ranges.push((start, i));
            assert(ranges_view(ranges@) =~= before.push((start as int, i as int)));
            assert(before + cdc_from(b, t, w as int, min_size as int, max_size as int, mask, i as int, start as int)
                =~= ranges_view(ranges@) + cdc_from(b, t, w as int, min_size as int, max_size as int, mask, i + 1, i as int));
            start = i;
        }
        let incoming = bytes[i] as usize;
        let outgoing = bytes[i - w] as usize;
        let out_rot = rotl64(table[outgoing], (w % 64) as u32);
        proof {
            lemma_window_step(b, t, w as int, i as int);
        }
        h = rotl64(h, 1) ^ table[incoming] ^ out_rot;
        i = i + 1;
    }
    if start < len {
        let ghost before = ranges_view(ranges@);
        ranges.push((start, len));
        assert(ranges_view(ranges@) =~= before.push((start as int, len as int)));
    }
    assert(ranges_view(ranges@) =~= whole);
    ranges
}

/// The chunks of `bytes` under `options`, with a gear table seeded from the
/// clock: whatever the seed, they tile a non-empty input.
pub fn cdc_chunk_ranges(bytes: &[u8], options: &ChunkingOptions) -> (r: Vec<(usize, usize)>)
    requires
        cdc_ok(*options, bytes@.len() as int),
    ensures
        exists|seed: u64| ranges_view(r@) == cdc_ranges(bytes@, *options, #[trigger] gear_table(seed)),
        bytes@.len() > 0 ==> tiles(ranges_view(r@), 0, bytes@.len() as int),
        bytes@.len() > 0 ==> ranges_at_most(ranges_view(r@), cdc_cap(*options, bytes@.len() as int)),
        bytes@.len() > 0 ==> ranges_at_least_but_last(ranges_view(r@), cdc_floor(*options, bytes@.len() as int)),
        bytes@.len() == 0 ==> ranges_view(r@) == seq![(0int, 0int)],
{
    let table = build_gear_table();
    let ghost seed = choose|seed: u64| table@ == #[trigger] gear_table(seed);
    let r = cdc_chunk_ranges_with_table(bytes, options, &table);
    proof {
        if bytes@.len() > 0 {
            lemma_cdc_ranges_tile(bytes@, *options, table@);
        }
        assert(ranges_view(r@) == cdc_ranges(bytes@, *options, gear_table(seed)));
    }
    r
}

// ---------------------------------------------------------------------------
// Fixed-size blocks and the choice between the two.
// ---------------------------------------------------------------------------

/// Consecutive ranges of `size` bytes from `start` to `len`, the last one
/// shorter; none when `size` is zero.
pub open spec fn fixed_from(len: int, size: int, start: int) -> Seq<(int, int)>
    decreases len - start,
{
    if size <= 0 || start >= len {
        Seq::empty()
    } else {
        let end = if len - start > size { start + size } else { len };
        seq![(start, end)] + fixed_from(len, size, end)
    }
}

pub proof fn lemma_fixed_tiles(len: int, size: int, start: int)
    requires
        size > 0,
        0 <= start <= len,
    ensures
        tiles(fixed_from(len, size, start), start, len),
        ranges_at_most(fixed_from(len, size, start), size),
    decreases len - start,
{
    let s = fixed_from(len, size, start);
    if start < len {
        let end = if len - start > size { start + size } else { len };
        let rest = fixed_from(len, size, end);
        lemma_fixed_tiles(len, size, end);
        assert(s.drop_first() =~= rest);
        assert(s[0] == (start, end));
        assert forall|k: int| 0 <= k < s.len() implies (#[trigger] s[k]).1 - s[k].0 <= size by {
            if k > 0 {
                assert(s[k] == rest[k - 1]);
            }
        }
    }
}

/// The ranges of `size` bytes that cut `len` bytes.
pub fn fixed_chunk_ranges(len: usize, size: usize) -> (r: Vec<(usize, usize)>)
    ensures
        ranges_view(r@) == fixed_from(len as int, size as int, 0),
{
    let mut ranges: Vec<(usize, usize)> = Vec::new();
    if size == 0 {
        assert(ranges_view(ranges@) =~= fixed_from(len as int, size as int, 0));
        return ranges;
    }
    let mut start: usize = 0;
    assert(ranges_view(ranges@) + fixed_from(len as int, size as int, 0) =~= fixed_from(len as int, size as int, 0));
    while start < len
        invariant
            size > 0,
            start <= len,
            ranges_view(ranges@) + fixed_from(len as int, size as int, start as int) == fixed_from(len as int, size as int, 0),
        decreases len - start,
    {
        let end = if len - start > size { start + size } else { len };
        let ghost before = ranges_view(ranges@);
        ranges.push((start, end));
        assert(ranges_view(ranges@) =~= before.push((start as int, end as int)));
        assert(before + fixed_from(len as int, size as int, start as int)
            =~= ranges_view(ranges@) + fixed_from(len as int, size as int, end as int));
        start = end;
    }
    assert(ranges_view(ranges@) =~= fixed_from(len as int, size as int, 0));
    ranges
}

/// The blocks of `b`: one empty block for an empty input, content-defined
/// chunks up to the small-file threshold, fixed-size blocks above it.
pub open spec fn chunk_plan(b: Seq<u8>, o: ChunkingOptions, t: Seq<u64>) -> Seq<(int, int)> {
    if b.len() == 0 {
        seq![(0int, 0int)]
    } else if b.len() <= o.small_file_threshold {
        cdc_ranges(b, o, t)
    } else {
        fixed_from(b.len() as int, o.fixed_block_size as int, 0)
    }
}

/// The options can split an input of `len` bytes.
pub open spec fn chunk_ok(o: ChunkingOptions, len: int) -> bool {
    len == 0 || len > o.small_file_threshold || cdc_ok(o, len)
}

/// The plan covers the whole input: always, but for a large input with a
/// block size of zero.
pub open spec fn plan_covers(o: ChunkingOptions, len: int) -> bool {
    len <= o.small_file_threshold || o.fixed_block_size > 0
}

/// The byte ranges of the blocks of `bytes`, small inputs chunked with the
/// gear table of `seed`: the same seed always gives the same ranges.
pub fn chunk_ranges_with_seed(bytes: &[u8], options: &ChunkingOptions, seed: u64) -> (r: Vec<(usize, usize)>)
    requires
        chunk_ok(*options, bytes@.len() as int),
    ensures
        ranges_view(r@) == chunk_plan(bytes@, *options, gear_table(seed)),
        bytes@.len() > 0 && plan_covers(*options, bytes@.len() as int) ==> tiles(ranges_view(r@), 0, bytes@.len() as int),
{
    let len = bytes.len();
    if len == 0 {
        let r = vec![(0usize, 0usize)];
        assert(ranges_view(r@) =~= seq![(0int, 0int)]);
        return r;
    }
    if len <= options.small_file_threshold {
        let table = build_gear_table_from(seed);
        let r = cdc_chunk_ranges_with_table(bytes, options, &table);
        proof {
            lemma_cdc_ranges_tile(bytes@, *options, table@);
        }
        r
    } else {
        let r = fixed_chunk_ranges(len, options.fixed_block_size);
        proof {
            if options.fixed_block_size > 0 {
                lemma_fixed_tiles(len as int, options.fixed_block_size as int, 0);
            }
        }
        r
    }
}

/// The byte ranges of the blocks of `bytes`.  Small inputs are chunked with
/// a gear table seeded from the clock; the contract holds for some seed.
pub fn chunk_ranges(bytes: &[u8], options: &ChunkingOptions) -> (r: Vec<(usize, usize)>)
    requires
        chunk_ok(*options, bytes@.len() as int),
    ensures
        exists|seed: u64| ranges_view(r@) == chunk_plan(bytes@, *options, #[trigger] gear_table(seed)),
        bytes@.len() > 0 && plan_covers(*options, bytes@.len() as int) ==> tiles(ranges_view(r@), 0, bytes@.len() as int),
{
    let seed = nanos_seed();
    chunk_ranges_with_seed(bytes, options, seed)
}

/// The ranges lie within `len` bytes, in order.
pub open spec fn ranges_within(s: Seq<(int, int)>, len: int) -> bool {
    forall|k: int| 0 <= k < s.len() ==> 0 <= (#[trigger] s[k]).0 <= s[k].1 <= len
}

pub proof fn lemma_tiles_within(s: Seq<(int, int)>, lo: int, hi: int)
    requires
        tiles(s, lo, hi),
        0 <= lo,
    ensures
        lo <= hi,
        ranges_within(s, hi),
    decreases s.len(),
{
    if s.len() > 0 {
        lemma_tiles_within(s.drop_first(), s[0].1, hi);
        assert forall|k: int| 0 <= k < s.len() implies 0 <= (#[trigger] s[k]).0 <= s[k].1 <= hi by {
            if k > 0 {
                assert(s[k] == s.drop_first()[k - 1]);
            }
        }
    }
}

/// The pieces of `b` that the ranges of `s` cut out, in order.
pub open spec fn pieces(b: Seq<u8>, s: Seq<(int, int)>) -> Seq<Seq<u8>> {
    Seq::new(s.len(), |k: int| b.subrange(s[k].0, s[k].1))
}

pub proof fn lemma_tiles_flatten(b: Seq<u8>, s: Seq<(int, int)>, lo: int, hi: int)
    requires
        tiles(s, lo, hi),
        0 <= lo,
        hi <= b.len(),
    ensures
        pieces(b, s).flatten() == b.subrange(lo, hi),
    decreases s.len(),
{
    if s.len() == 0 {
        assert(b.subrange(lo, hi) =~= Seq::<u8>::empty());
    } else {
        let rest = s.drop_first();
        lemma_tiles_within(rest, s[0].1, hi);
        lemma_tiles_flatten(b, rest, s[0].1, hi);
        assert(pieces(b, s).drop_first() =~= pieces(b, rest));
        assert(pieces(b, s).first() == b.subrange(lo, s[0].1));
        assert(b.subrange(lo, s[0].1) + b.subrange(s[0].1, hi) =~= b.subrange(lo, hi));
    }
}

/// The contents of a sequence of blocks.
pub open spec fn block_datas(v: Seq<FileBlock>) -> Seq<Seq<u8>> {
    Seq::new(v.len(), |k: int| v[k].block_data@)
}

/// The blocks holding the pieces of `bytes` that `ranges` cut out.
pub fn blocks_of_ranges(bytes: &[u8], ranges: &Vec<(usize, usize)>) -> (r: Vec<FileBlock>)
    requires
        ranges_within(ranges_view(ranges@), bytes@.len() as int),
    ensures
        block_datas(r@) == pieces(bytes@, ranges_view(ranges@)),
        forall|k: int| 0 <= k < r@.len() ==> (#[trigger] r@[k]).id@ == block_id(r@[k].block_data@)
            && r@[k].hash_algorithm@ == "blake3"@,
{
    let ghost rv = ranges_view(ranges@);
    let mut blocks: Vec<FileBlock> = Vec::new();
    let mut k: usize = 0;
    while k < ranges.len()
        invariant
            k <= ranges@.len(),
            rv == ranges_view(ranges@),
            ranges_within(rv, bytes@.len() as int),
            blocks@.len() == k,
            forall|j: int| 0 <= j < k ==> (#[trigger] blocks@[j]).block_data@ == bytes@.subrange(rv[j].0, rv[j].1),
            forall|j: int| 0 <= j < k ==> (#[trigger] blocks@[j]).id@ == block_id(blocks@[j].block_data@)
                && blocks@[j].hash_algorithm@ == "blake3"@,
        decreases ranges@.len() - k,
    {
        let (start, end) = ranges[k];
        assert(rv[k as int] == (start as int, end as int));
        let piece = slice_to_vec(slice_subrange(bytes, start, end));
        blocks.push(FileBlock::from_bytes(piece));
        k = k + 1;
    }
    assert(block_datas(blocks@) =~= pieces(bytes@, rv));
    blocks
}

/// The blocks of `bytes` under `options`, small inputs chunked with the gear
/// table of `seed`: the same seed always gives the same blocks, and their
/// contents put together are `bytes` (unless a large input meets a block
/// size of zero, which gives no blocks).
pub fn chunk_bytes_with_seed(bytes: &[u8], options: &ChunkingOptions, seed: u64) -> (r: Vec<FileBlock>)
    requires
        chunk_ok(*options, bytes@.len() as int),
    ensures
        block_datas(r@) == pieces(bytes@, chunk_plan(bytes@, *options, gear_table(seed))),
        forall|k: int| 0 <= k < r@.len() ==> (#[trigger] r@[k]).id@ == block_id(r@[k].block_data@),
        plan_covers(*options, bytes@.len() as int) ==> block_datas(r@).flatten() == bytes@,
{
    let ranges = chunk_ranges_with_seed(bytes, options, seed);
    let ghost rv = ranges_view(ranges@);
    proof {
        if bytes@.len() > 0 && plan_covers(*options, bytes@.len() as int) {
            lemma_tiles_within(rv, 0, bytes@.len() as int);
        } else if bytes@.len() == 0 {
            assert(rv == seq![(0int, 0int)]);
        } else {
            lemma_fixed_zero(bytes@.len() as int, options.fixed_block_size as int);
            assert(rv.len() == 0);
        }
    }
    let r = blocks_of_ranges(bytes, &ranges);
    proof {
        if bytes@.len() > 0 && plan_covers(*options, bytes@.len() as int) {
            lemma_tiles_flatten(bytes@, rv, 0, bytes@.len() as int);
            assert(bytes@.subrange(0, bytes@.len() as int) =~= bytes@);
        } else if bytes@.len() == 0 {
            assert(block_datas(r@).len() == 1);
            assert(block_datas(r@)[0] =~= Seq::<u8>::empty());
            assert(block_datas(r@).drop_first().flatten() =~= Seq::<u8>::empty());
            assert(block_datas(r@).flatten() =~= bytes@);
        }
    }
    r
}

/// The blocks of `bytes` under `options`.  Whatever the clock gave the gear
/// table, the blocks' contents put together are `bytes` (unless a large
/// input meets a block size of zero, which gives no blocks).
pub fn chunk_bytes(bytes: &[u8], options: &ChunkingOptions) -> (r: Vec<FileBlock>)
    requires
        chunk_ok(*options, bytes@.len() as int),
    ensures
        exists|seed: u64| block_datas(r@) == pieces(bytes@, chunk_plan(bytes@, *options, #[trigger] gear_table(seed))),
        forall|k: int| 0 <= k < r@.len() ==> (#[trigger] r@[k]).id@ == block_id(r@[k].block_data@),
        plan_covers(*options, bytes@.len() as int) ==> block_datas(r@).flatten() == bytes@,
{
    let seed = nanos_seed();
    chunk_bytes_with_seed(bytes, options, seed)
}

proof fn lemma_fixed_zero(len: int, size: int)
    requires
        size <= 0,
    ensures
        fixed_from(len, size, 0) == Seq::<(int, int)>::empty(),
{
}

} // verus!
