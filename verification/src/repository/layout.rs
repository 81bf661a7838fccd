//! Where packs live: shard directories and pack file names, the numbering of
//! packs, the statistics of a pack being written, and the cache of index
//! snapshots.
use vstd::prelude::*;
use crate::text::{decimal, digit_char, join_path_text, join_text, push_decimal, str_chars, string_push, string_push_str};
use super::constants::{PACK_DATA_SUFFIX, PACK_ENTRY_FIXED_SECTION, PACK_FILE_PREFIX, PACK_INDEX_SUFFIX, SHARD_DIR_PREFIX};
use super::index::IndexSnapshot;
use super::io_utils::hex_digit;
use crate::assoc::{
    assoc_map, has_key, keys_distinct, lemma_assoc_empty, lemma_assoc_index, lemma_assoc_push,
    lemma_assoc_remove, lemma_assoc_update,
};

verus! {

/// The directory layout of a repository under its root.
#[derive(Debug)]
pub struct RepositoryLayout {
    root: String,
}

impl RepositoryLayout {
    /// The layout under the directory `root`.
    pub fn new(root: String) -> (r: Self)
        ensures
            r.root_view() == root@,
    {
        RepositoryLayout { root }
    }

    /// The root directory.
    pub closed spec fn root_view(&self) -> Seq<char> {
        self.root@
    }

    /// The root directory.
    pub fn root(&self) -> (r: &String)
        ensures
            r@ == self.root_view(),
    {
        &self.root
    }

    /// The name of a shard's directory: the prefix and two lowercase hex digits.
    pub fn shard_dir_name(shard: u8) -> (r: String)
        ensures
            r@ == shard_dir_text(shard),
    {
        let mut out = String::from_str(SHARD_DIR_PREFIX);
        string_push(&mut out, hex_char_of(shard / 16));
        string_push(&mut out, hex_char_of(shard % 16));
        out
    }

    /// The base name of a pack: the prefix and the id in decimal, padded
    /// with zeros to six digits.
    pub fn pack_base_name(pack_id: u32) -> (r: String)
        ensures
            r@ == pack_base_text(pack_id),
    {
        let mut digits = String::new();
        push_decimal(&mut digits, pack_id as usize);
        let n = str_chars(digits.as_str()).len();
        let mut out = String::from_str(PACK_FILE_PREFIX);
        let mut k: usize = n;
        assert(zeros(0) =~= Seq::<char>::empty());
        while k < 6
            invariant
                n == decimal(pack_id as nat).len(),
                digits@ == decimal(pack_id as nat),
                n <= k,
                k <= 6 || k == n,
                out@ == PACK_FILE_PREFIX@ + zeros((k - n) as nat),
            decreases 6 - k,
        {
            string_push(&mut out, '0');
            assert(zeros((k + 1 - n) as nat) =~= zeros((k - n) as nat).push('0'));
            k = k + 1;
        }
        string_push_str(&mut out, digits.as_str());
        proof {
            if n >= 6 {
                assert(zeros(0) + decimal(pack_id as nat) =~= decimal(pack_id as nat));
            }
        }
        out
    }

    /// The names of a pack's data file and index file.
    pub fn pack_file_names(pack_id: u32) -> (r: (String, String))
        ensures
            r.0@ == pack_base_text(pack_id) + PACK_DATA_SUFFIX@,
            r.1@ == pack_base_text(pack_id) + PACK_INDEX_SUFFIX@,
    {
        let base = Self::pack_base_name(pack_id);
        let mut dat = String::from_str(base.as_str());
        string_push_str(&mut dat, PACK_DATA_SUFFIX);
        let mut idx = String::from_str(base.as_str());
        string_push_str(&mut idx, PACK_INDEX_SUFFIX);
        (dat, idx)
    }

    /// The directory of a shard under the root.
    pub fn shard_dir(&self, shard: u8) -> (r: String)
        ensures
            r@ == join_text(self.root_view(), shard_dir_text(shard)),
    {
        let name = Self::shard_dir_name(shard);
        join_path_text(&self.root, &name)
    }

    /// The data and index files of a pack: the shard's directory joined with
    /// `pack_file_names`.
    pub fn pack_paths(&self, shard: u8, pack_id: u32) -> (r: (String, String))
        ensures
            r.0@ == join_text(join_text(self.root_view(), shard_dir_text(shard)), pack_base_text(pack_id) + PACK_DATA_SUFFIX@),
            r.1@ == join_text(join_text(self.root_view(), shard_dir_text(shard)), pack_base_text(pack_id) + PACK_INDEX_SUFFIX@),
    {
        let dir = self.shard_dir(shard);
        let (dat, idx) = Self::pack_file_names(pack_id);
        (join_path_text(&dir, &dat), join_path_text(&dir, &idx))
    }
}

fn hex_char_of(n: u8) -> (c: char)
    requires
        n < 16,
    ensures
        c == hex_digit(n as int),
{
    if n == 0 { '0' } else if n == 1 { '1' } else if n == 2 { '2' } else if n == 3 { '3' } else if n == 4 { '4' }
    else if n == 5 { '5' } else if n == 6 { '6' } else if n == 7 { '7' } else if n == 8 { '8' } else if n == 9 { '9' }
    else if n == 10 { 'a' } else if n == 11 { 'b' } else if n == 12 { 'c' } else if n == 13 { 'd' } else if n == 14 { 'e' }
    else { 'f' }
}

/// The name of a shard's directory.
pub open spec fn shard_dir_text(shard: u8) -> Seq<char> {
    SHARD_DIR_PREFIX@ + seq![hex_digit(shard as int / 16), hex_digit(shard as int % 16)]
}

/// `n` zeros.
pub open spec fn zeros(n: nat) -> Seq<char> {
    Seq::new(n, |i: int| '0')
}

/// The decimal writing of `n` padded with zeros to six digits.
pub open spec fn padded_decimal(n: nat) -> Seq<char> {
    if decimal(n).len() < 6 {
        zeros((6 - decimal(n).len()) as nat) + decimal(n)
    } else {
        decimal(n)
    }
}

/// The base name of a pack.
pub open spec fn pack_base_text(pack_id: u32) -> Seq<char> {
    PACK_FILE_PREFIX@ + padded_decimal(pack_id as nat)
}

/// The value of a decimal digit.
pub open spec fn digit_value(c: char) -> int {
    c as int - '0' as int
}

/// An ASCII decimal digit.
pub open spec fn is_digit(c: char) -> bool {
    '0' <= c <= '9'
}

/// The value of a string of decimal digits.
pub open spec fn digits_value(d: Seq<char>) -> nat
    decreases d.len(),
{
    if d.len() == 0 {
        0
    } else {
        (digits_value(d.drop_last()) * 10 + digit_value(d.last())) as nat
    }
}

/// All characters are decimal digits.
pub open spec fn all_digits(d: Seq<char>) -> bool {
    forall|i: int| 0 <= i < d.len() ==> is_digit(#[trigger] d[i])
}

/// What `str::parse::<u32>` reads from a text: an optional `+`, then at
/// least one decimal digit, with a value a `u32` holds.
pub open spec fn parse_u32(t: Seq<char>) -> Option<u32> {
    let d = if t.len() > 0 && t[0] == '+' { t.drop_first() } else { t };
    if d.len() > 0 && all_digits(d) && digits_value(d) <= u32::MAX {
        Some(digits_value(d) as u32)
    } else {
        None
    }
}

/// The pack id a file name carries: the name must start with the pack
/// prefix and end with `suffix`, and what lies between must read as a `u32`.
pub open spec fn pack_id_of(name: Seq<char>, suffix: Seq<char>) -> Option<u32> {
    let p = PACK_FILE_PREFIX@;
    if crate::text::starts_with(name, p) && crate::text::ends_with(name, suffix) {
        parse_u32(name.subrange(p.len() as int, name.len() - suffix.len()))
    } else {
        None
    }
}

/// A value grows with each digit appended.
proof fn lemma_digits_value_prefix(d: Seq<char>, k: int)
    requires
        0 <= k <= d.len(),
        all_digits(d),
    ensures
        digits_value(d.take(k)) <= digits_value(d),
    decreases d.len() - k,
{
    if k < d.len() {
        lemma_digits_value_prefix(d, k + 1);
        assert(d.take(k + 1).drop_last() =~= d.take(k));
        assert(d.take(k + 1).last() == d[k]);
        assert(is_digit(d[k]));
        assert(digit_value(d[k]) >= 0);
    } else {
        assert(d.take(k) =~= d);
    }
}

/// Reads an optional `+` and decimal digits as a `u32`.
fn parse_u32_text(t: &Vec<char>, lo: usize, hi: usize) -> (r: Option<u32>)
    requires
        lo <= hi <= t@.len(),
    ensures
        r == parse_u32(t@.subrange(lo as int, hi as int)),
{
    let ghost s = t@.subrange(lo as int, hi as int);
    let mut start = lo;
    if lo < hi && t[lo] == '+' {
        start = lo + 1;
    }
    let ghost d = t@.subrange(start as int, hi as int);
    assert(d =~= if s.len() > 0 && s[0] == '+' { s.drop_first() } else { s });
    if start == hi {
        return None;
    }
    let mut v: u64 = 0;
    let mut i = start;
    assert(d.take(0) =~= Seq::<char>::empty());
    while i < hi
        invariant
            start <= i <= hi <= t@.len(),
            s == t@.subrange(lo as int, hi as int),
            d == (if s.len() > 0 && s[0] == '+' { s.drop_first() } else { s }),
            d == t@.subrange(start as int, hi as int),
            v == digits_value(d.take(i - start)),
            v <= u32::MAX,
            all_digits(d.take(i - start)),
        decreases hi - i,
    {
        let c = t[i];
        if !('0' <= c && c <= '9') {
            assert(!is_digit(d[i - start]));
            return None;
        }
        let dv = (c as u32 - '0' as u32) as u64;
        assert(d.take(i + 1 - start).drop_last() =~= d.take(i - start));
        assert(d.take(i + 1 - start).last() == c);
        let nv = v * 10 + dv;
        assert(nv == digits_value(d.take(i + 1 - start)));
        assert(all_digits(d.take(i + 1 - start)));
        if nv > 4294967295 {
            proof {
                if all_digits(d) {
                    lemma_digits_value_prefix(d, i + 1 - start);
                }
            }
            return None;
        }
        v = nv;
        i = i + 1;
    }
    assert(d.take(hi - start) =~= d);
    Some(v as u32)
}

/// The pack id a file name carries, when it has the pack prefix, the
/// suffix, and a number between.  A name in which prefix and suffix would
/// overlap is left out: the byte slicing of such a name panics.
pub fn parse_pack_id(name: &str, suffix: &str) -> (r: Option<u32>)
    requires
        crate::text::starts_with(name@, PACK_FILE_PREFIX@) && crate::text::ends_with(name@, suffix@)
            ==> PACK_FILE_PREFIX@.len() + suffix@.len() <= name@.len(),
    ensures
        r == pack_id_of(name@, suffix@),
{
    let n = String::from_str(name);
    let p = String::from_str(PACK_FILE_PREFIX);
    let s = String::from_str(suffix);
    if !crate::text::text_starts_with(&n, &p) || !crate::text::text_ends_with(&n, &s) {
        return None;
    }
    let cs = str_chars(name);
    let plen = str_chars(PACK_FILE_PREFIX).len();
    let slen = str_chars(suffix).len();
    parse_u32_text(&cs, plen, cs.len() - slen)
}

/// The value of zeros followed by digits is the value of the digits.
proof fn lemma_digits_value_zeros(z: nat, d: Seq<char>)
    ensures
        digits_value(zeros(z) + d) == digits_value(d),
    decreases d.len(), z,
{
    if d.len() > 0 {
        lemma_digits_value_zeros(z, d.drop_last());
        assert((zeros(z) + d).drop_last() =~= zeros(z) + d.drop_last());
    } else if z > 0 {
        lemma_digits_value_zeros((z - 1) as nat, d);
        assert((zeros(z) + d).drop_last() =~= zeros((z - 1) as nat) + d);
        assert(zeros(z) + d =~= zeros(z));
    } else {
        assert(zeros(0) + d =~= Seq::<char>::empty());
    }
}

/// A decimal digit character is a digit with its value.
proof fn lemma_digit_char(d: nat)
    requires
        d < 10,
    ensures
        is_digit(digit_char(d)),
        digit_value(digit_char(d)) == d,
{
}

/// The decimal writing of `n` reads back as `n`.
proof fn lemma_decimal_value(n: nat)
    ensures
        digits_value(decimal(n)) == n,
        all_digits(decimal(n)),
        decimal(n).len() > 0,
    decreases n,
{
    if n >= 10 {
        lemma_decimal_value(n / 10);
        let d = decimal(n);
        assert(d.drop_last() =~= decimal(n / 10));
        assert(d.last() == digit_char(n % 10));
        lemma_digit_char((n % 10) as nat);
        assert(n == (n / 10) * 10 + n % 10);
        assert(digits_value(d) == digits_value(d.drop_last()) * 10 + digit_value(d.last()));
        assert(digits_value(d) == (n / 10) * 10 + n % 10);
        assert forall|i: int| 0 <= i < d.len() implies is_digit(#[trigger] d[i]) by {
            if i < d.len() - 1 {
                assert(d[i] == decimal(n / 10)[i]);
            }
        }
    } else {
        lemma_digit_char(n);
        let d = decimal(n);
        assert(d.drop_last() =~= Seq::<char>::empty());
        assert(digits_value(d.drop_last()) == 0);
        assert(d.last() == digit_char(n));
        assert(digits_value(d) == digits_value(d.drop_last()) * 10 + digit_value(d.last()));
    }
}

/// A pack's data file name reads back as its id.
pub proof fn lemma_pack_name_roundtrip(pack_id: u32)
    ensures
        pack_id_of(pack_base_text(pack_id) + PACK_DATA_SUFFIX@, PACK_DATA_SUFFIX@) == Some(pack_id),
        pack_id_of(pack_base_text(pack_id) + PACK_INDEX_SUFFIX@, PACK_INDEX_SUFFIX@) == Some(pack_id),
{
    reveal_strlit("pack-");
    reveal_strlit(".dat");
    reveal_strlit(".idx");
    lemma_decimal_value(pack_id as nat);
    let dd = decimal(pack_id as nat);
    let pd = padded_decimal(pack_id as nat);
    if dd.len() < 6 {
        lemma_digits_value_zeros((6 - dd.len()) as nat, dd);
    }
    assert(digits_value(pd) == pack_id);
    assert(all_digits(pd)) by {
        assert forall|i: int| 0 <= i < pd.len() implies is_digit(#[trigger] pd[i]) by {
            if dd.len() < 6 {
                let z = (6 - dd.len()) as int;
                if i >= z {
                    assert(pd[i] == dd[i - z]);
                }
            }
        }
    }
    assert(pd[0] != '+');
    let p = PACK_FILE_PREFIX@;
    let name_d = pack_base_text(pack_id) + PACK_DATA_SUFFIX@;
    assert(name_d.take(p.len() as int) =~= p);
    assert(name_d.subrange(name_d.len() - 4, name_d.len() as int) =~= PACK_DATA_SUFFIX@);
    assert(name_d.subrange(p.len() as int, name_d.len() - 4) =~= pd);
    let name_i = pack_base_text(pack_id) + PACK_INDEX_SUFFIX@;
    assert(name_i.take(p.len() as int) =~= p);
    assert(name_i.subrange(name_i.len() - 4, name_i.len() as int) =~= PACK_INDEX_SUFFIX@);
    assert(name_i.subrange(p.len() as int, name_i.len() - 4) =~= pd);
}

/// The next pack id of a shard: one past the largest known id (saturating),
/// and 1 when none is known.
pub fn next_pack_id(known: &[u32]) -> (r: u32)
    ensures
        r == if known@.len() == 0 { 1 } else {
            let m = max_of(known@);
            if m == u32::MAX { u32::MAX } else { (m + 1) as u32 }
        },
{
    let mut m: u32 = 0;
    let mut i: usize = 0;
    while i < known.len()
        invariant
            i <= known@.len(),
            m == if i == 0 { 0 } else { max_of(known@.take(i as int)) },
        decreases known@.len() - i,
    {
        assert(known@.take(i + 1).drop_last() =~= known@.take(i as int));
        assert(known@.take(i + 1).last() == known@[i as int]);
        if i == 0 || known[i] > m {
            m = known[i];
        }
        i = i + 1;
    }
    assert(known@.take(known@.len() as int) =~= known@);
    let n = m.saturating_add(1);
    if n < 1 { 1 } else { n }
}

/// The largest of a non-empty list.
pub open spec fn max_of(s: Seq<u32>) -> u32
    decreases s.len(),
{
    if s.len() <= 1 {
        s[0]
    } else {
        let m = max_of(s.drop_last());
        if s.last() > m { s.last() } else { m }
    }
}

/// The known packs of a shard other than the active one, in order.
pub fn sealed_pack_ids(known: &[u32], active: Option<u32>) -> (r: Vec<u32>)
    ensures
        r@ == known@.filter(|id: u32| Some(id) != active),
{
    let mut r: Vec<u32> = Vec::new();
    let mut i: usize = 0;
    while i < known.len()
        invariant
            i <= known@.len(),
            r@ == known@.take(i as int).filter(|id: u32| Some(id) != active),
        decreases known@.len() - i,
    {
        let id = known[i];
        proof {
            let p = |x: u32| Some(x) != active;
            assert(known@.take(i + 1) =~= known@.take(i as int).push(id));
            known@.take(i as int).lemma_filter_push(id, p);
        }
        let keep = match active {
            Some(a) => a != id,
            None => true,
        };
        if keep {
            r.push(id);
        }
        i = i + 1;
    }
    assert(known@.take(known@.len() as int) =~= known@);
    r
}

/// A cached value with the file stamps it was read under.
#[derive(Debug)]
pub struct CacheSlot<V> {
    pub value: V,
    /// Modification time of the file, nanoseconds since the epoch.
    pub modified: u128,
    /// Length of the file.
    pub len: u64,
}

/// A bounded cache of index snapshots keyed by (shard, pack id), which
/// drops the least recently used key when it grows past its capacity.
#[derive(Debug)]
pub struct IndexCache<V> {
    slots: Vec<((u8, u32), CacheSlot<V>)>,
    order: Vec<(u8, u32)>,
    capacity: usize,
}

/// Abstract cache.
pub struct IndexCacheView<V> {
    /// Each key's value with its stamps (modification time, length).
    pub slots: Map<(u8, u32), (V, u128, u64)>,
    /// Keys from least to most recently used.
    pub order: Seq<(u8, u32)>,
    pub capacity: nat,
}

spec fn slots_model<V>(v: Seq<((u8, u32), CacheSlot<V>)>) -> Seq<((u8, u32), (V, u128, u64))> {
    v.map_values(|p: ((u8, u32), CacheSlot<V>)| (p.0, (p.1.value, p.1.modified, p.1.len)))
}

impl<V> View for IndexCache<V> {
    type V = IndexCacheView<V>;

    closed spec fn view(&self) -> IndexCacheView<V> {
        IndexCacheView { slots: assoc_map(slots_model(self.slots@)), order: self.order@, capacity: self.capacity as nat }
    }
}

/// `order` after using `k`: `k` moved (or added) to the most recent end.
pub open spec fn used(order: Seq<(u8, u32)>, k: (u8, u32), after: Seq<(u8, u32)>) -> bool {
    if order.contains(k) {
        exists|i: int| 0 <= i < order.len() && order[i] == k && after == order.remove(i).push(k)
    } else {
        after == order.push(k)
    }
}

impl<V> IndexCache<V> {
    /// Well-formedness: the keys of the slots are exactly the keys of the
    /// order, each once, no more than the capacity, which is at least 1.
    pub closed spec fn wf(&self) -> bool {
        &&& keys_distinct(slots_model(self.slots@))
        &&& self.order@.no_duplicates()
        &&& forall|k: (u8, u32)| #[trigger] has_key(slots_model(self.slots@), k) <==> self.order@.contains(k)
        &&& self.order@.len() <= self.capacity
        &&& self.capacity >= 1
    }

    /// An empty cache holding at most `capacity` keys (at least 1).
    pub fn new(capacity: usize) -> (r: Self)
        ensures
            r.wf(),
            r@.slots == Map::<(u8, u32), (V, u128, u64)>::empty(),
            r@.order == Seq::<(u8, u32)>::empty(),
            r@.capacity == if capacity < 1 { 1 } else { capacity as nat },
    {
        let r = IndexCache { slots: Vec::new(), order: Vec::new(), capacity: if capacity < 1 { 1 } else { capacity } };
        proof {
            lemma_assoc_empty::<(u8, u32), (V, u128, u64)>();
            assert(slots_model(r.slots@) =~= Seq::empty());
        }
        r
    }

    fn slot_index(&self, key: (u8, u32)) -> (r: Option<usize>)
        requires
            keys_distinct(slots_model(self.slots@)),
        ensures
            r is None <==> !self@.slots.contains_key(key),
            r matches Some(j) ==> j < self.slots@.len() && self.slots@[j as int].0 == key,
    {
        let ghost m = slots_model(self.slots@);
        let mut j: usize = 0;
        while j < self.slots.len()
            invariant
                j <= self.slots@.len(),
                m == slots_model(self.slots@),
                forall|i: int| 0 <= i < j ==> (#[trigger] m[i]).0 != key,
            decreases self.slots@.len() - j,
        {
            if self.slots[j].0.0 == key.0 && self.slots[j].0.1 == key.1 {
                assert(m[j as int].0 == key);
                assert(has_key(m, key));
                return Some(j);
            }
            j = j + 1;
        }
        assert(!has_key(m, key));
        None
    }

    fn order_index(&self, key: (u8, u32)) -> (r: Option<usize>)
        ensures
            r is None <==> !self.order@.contains(key),
            r matches Some(j) ==> j < self.order@.len() && self.order@[j as int] == key,
    {
        let mut j: usize = 0;
        while j < self.order.len()
            invariant
                j <= self.order@.len(),
                forall|i: int| 0 <= i < j ==> self.order@[i] != key,
            decreases self.order@.len() - j,
        {
            if self.order[j].0 == key.0 && self.order[j].1 == key.1 {
                return Some(j);
            }
            j = j + 1;
        }
        None
    }

    /// Whether the cache holds `key` read under these stamps.
    pub fn is_fresh(&self, key: (u8, u32), len: u64, modified: u128) -> (r: bool)
        requires
            self.wf(),
        ensures
            r == (self@.slots.contains_key(key) && self@.slots[key].2 == len && self@.slots[key].1 == modified),
    {
        match self.slot_index(key) {
            Some(j) => {
                proof {
                    lemma_assoc_index(slots_model(self.slots@), j as int);
                }
                self.slots[j].1.len == len && self.slots[j].1.modified == modified
            },
            None => false,
        }
    }

    /// The value cached under `key`.
    pub fn get(&self, key: (u8, u32)) -> (r: Option<&V>)
        requires
            self.wf(),
        ensures
            r is Some <==> self@.slots.contains_key(key),
            r matches Some(v) ==> *v == self@.slots[key].0,
    {
        match self.slot_index(key) {
            Some(j) => {
                proof {
                    lemma_assoc_index(slots_model(self.slots@), j as int);
                }
                Some(&self.slots[j].1.value)
            },
            None => None,
        }
    }

    /// Marks `key` as the most recently used.
    pub fn touch(&mut self, key: (u8, u32))
        requires
            old(self).wf(),
            old(self)@.order.contains(key),
        ensures
            final(self).wf(),
            final(self)@.slots == old(self)@.slots,
            final(self)@.capacity == old(self)@.capacity,
            used(old(self)@.order, key, final(self)@.order),
    {
        self.move_to_end(key);
    }

    /// Moves or adds `key` at the most recent end of the order.
    fn move_to_end(&mut self, key: (u8, u32))
        requires
            old(self).order@.no_duplicates(),
        ensures
            final(self).slots@ == old(self).slots@,
            final(self).capacity == old(self).capacity,
            final(self).order@.no_duplicates(),
            used(old(self).order@, key, final(self).order@),
            forall|k: (u8, u32)| #[trigger] final(self).order@.contains(k) <==> old(self).order@.contains(k) || k == key,
    {
        let ghost o = self.order@;
        match self.order_index(key) {
            Some(j) => {
                self.order.remove(j);
                self.order.push(key);
                proof {
                    assert(self.order@ == o.remove(j as int).push(key));
                    assert(used(o, key, self.order@));
                    lemma_move_to_end(o, j as int);
                }
            },
            None => {
                self.order.push(key);
                proof {
                    assert forall|k: (u8, u32)| #[trigger] self.order@.contains(k) <==> o.contains(k) || k == key by {
                        if o.contains(k) {
                            let i = choose|i: int| 0 <= i < o.len() && o[i] == k;
                            assert(self.order@[i] == k);
                        }
                        if self.order@.contains(k) && k != key {
                            let i = choose|i: int| 0 <= i < self.order@.len() && self.order@[i] == k;
                            assert(o[i] == k);
                        }
                        if k == key {
                            assert(self.order@[o.len() as int] == k);
                        }
                    }
                }
            },
        }
    }

    /// Caches `value` under `key` with its stamps and marks it most recently
    /// used; past the capacity, the least recently used key is dropped.
    pub fn insert(&mut self, key: (u8, u32), value: V, modified: u128, len: u64)
        requires
            old(self).wf(),
        ensures
            final(self).wf(),
            final(self)@.capacity == old(self)@.capacity,
            ({
                let o = choose|o: Seq<(u8, u32)>| used(old(self)@.order, key, o);
                let m = old(self)@.slots.insert(key, (value, modified, len));
                &&& used(old(self)@.order, key, o)
                &&& o.len() > old(self)@.capacity ==> final(self)@.order == o.drop_first() && final(self)@.slots
                    == m.remove(o[0])
                &&& o.len() <= old(self)@.capacity ==> final(self)@.order == o && final(self)@.slots == m
            }),
            final(self)@.slots.contains_key(key),
            final(self)@.slots[key] == (value, modified, len),
    {
        let ghost m0 = slots_model(self.slots@);
        let slot = CacheSlot { value, modified, len };
        match self.slot_index(key) {
            Some(j) => {
                self.slots.set(j, (key, slot));
                proof {
                    lemma_assoc_update(m0, j as int, (value, modified, len));
                    assert(slots_model(self.slots@) =~= m0.update(j as int, (m0[j as int].0, (value, modified, len))));
                }
            },
            None => {
                self.slots.push((key, slot));
                proof {
                    lemma_assoc_push(m0, key, (value, modified, len));
                    assert(slots_model(self.slots@) =~= m0.push((key, (value, modified, len))));
                }
            },
        }
        let ghost o_old = self.order@;
        let ghost m1 = slots_model(self.slots@);
        self.move_to_end(key);
        let ghost o1 = self.order@;
        proof {
            assert(used(o_old, key, o1));
            lemma_used_unique(o_old, key, o1);
            assert forall|k: (u8, u32)| #[trigger] has_key(m1, k) <==> o1.contains(k) by {
                if has_key(m1, k) {
                    lemma_assoc_index(m1, choose|i: int| 0 <= i < m1.len() && (#[trigger] m1[i]).0 == k);
                }
                if k != key && !has_key(m0, k) && has_key(m1, k) {
                    let i = choose|i: int| 0 <= i < m1.len() && (#[trigger] m1[i]).0 == k;
                    lemma_assoc_index(m1, i);
                }
                assert(assoc_map(m1).contains_key(k) <==> has_key(m1, k));
                assert(assoc_map(m0).contains_key(k) <==> has_key(m0, k));
            }
        }
        if self.order.len() > self.capacity {
            let oldest = self.order.remove(0);
            proof {
                assert(self.order@ =~= o1.drop_first());
                assert(o1.len() >= 2);
                assert(o1[o1.len() - 1] == key);
                assert(oldest != key);
            }
            let j = self.slot_index(oldest);
            proof {
                assert(has_key(m1, oldest)) by {
                    assert(o1.contains(oldest));
                }
            }
            let j = j.unwrap();
            let ghost m2 = slots_model(self.slots@);
            self.slots.remove(j);
            proof {
                lemma_assoc_remove(m2, j as int);
                assert(slots_model(self.slots@) =~= m2.remove(j as int));
                assert forall|k: (u8, u32)| #[trigger] has_key(slots_model(self.slots@), k) <==> self.order@.contains(k) by {
                    assert(assoc_map(slots_model(self.slots@)).contains_key(k) <==> has_key(slots_model(self.slots@), k));
                    assert(assoc_map(m2).contains_key(k) <==> has_key(m2, k));
                    if self.order@.contains(k) {
                        let i = choose|i: int| 0 <= i < self.order@.len() && self.order@[i] == k;
                        assert(o1[i + 1] == k);
                        assert(o1.contains(k));
                        assert(k != oldest);
                    }
                    if o1.contains(k) && k != oldest {
                        let i = choose|i: int| 0 <= i < o1.len() && o1[i] == k;
                        assert(i != 0);
                        assert(self.order@[i - 1] == k);
                    }
                }
                assert forall|a: int, b: int| 0 <= a < self.order@.len() && 0 <= b < self.order@.len() && a != b
                    implies self.order@[a] != self.order@[b] by {
                    assert(self.order@[a] == o1[a + 1] && self.order@[b] == o1[b + 1]);
                }
            }
        }
        proof {
            let m = assoc_map(m0).insert(key, (value, modified, len));
            assert(assoc_map(m1) == m);
        }
    }
}

/// Moving the key at `j` to the end keeps the keys and their distinctness.
proof fn lemma_move_to_end(o: Seq<(u8, u32)>, j: int)
    requires
        o.no_duplicates(),
        0 <= j < o.len(),
    ensures
        o.remove(j).push(o[j]).no_duplicates(),
        forall|k: (u8, u32)| #[trigger] o.remove(j).push(o[j]).contains(k) <==> o.contains(k),
{
    let n = o.remove(j).push(o[j]);
    assert forall|a: int, b: int| 0 <= a < n.len() && 0 <= b < n.len() && a != b implies n[a] != n[b] by {
        let x = if a == n.len() - 1 { j } else if a < j { a } else { a + 1 };
        let y = if b == n.len() - 1 { j } else if b < j { b } else { b + 1 };
        assert(n[a] == o[x] && n[b] == o[y]);
    }
    assert forall|k: (u8, u32)| #[trigger] n.contains(k) <==> o.contains(k) by {
        if n.contains(k) {
            let a = choose|a: int| 0 <= a < n.len() && n[a] == k;
            let x = if a == n.len() - 1 { j } else if a < j { a } else { a + 1 };
            assert(o[x] == k);
        }
        if o.contains(k) {
            let x = choose|x: int| 0 <= x < o.len() && o[x] == k;
            if x == j {
                assert(n[n.len() - 1] == k);
            } else if x < j {
                assert(n[x] == k);
            } else {
                assert(n[x - 1] == k);
            }
        }
    }
}

/// There is one order after using a key.
proof fn lemma_used_unique(o: Seq<(u8, u32)>, k: (u8, u32), after: Seq<(u8, u32)>)
    requires
        o.no_duplicates(),
        used(o, k, after),
    ensures
        (choose|x: Seq<(u8, u32)>| used(o, k, x)) == after,
{
    let c = choose|x: Seq<(u8, u32)>| used(o, k, x);
    if o.contains(k) {
        let i = choose|i: int| 0 <= i < o.len() && o[i] == k && after == o.remove(i).push(k);
        let i2 = choose|i2: int| 0 <= i2 < o.len() && o[i2] == k && c == o.remove(i2).push(k);
        assert(i == i2);
    }
}

} // verus!
