//! Character-level helpers shared by the path grammar and the renderers.
use vstd::prelude::*;

verus! {

broadcast use vstd::string::group_string_axioms;

/// The characters of a string slice, in order.
pub fn str_chars(s: &str) -> (res: Vec<char>)
    ensures
        res@ == s@,
{
    let mut res: Vec<char> = Vec::new();
    for c in it: s.chars()
        invariant
            res@ == it.seq().take(it.index() as int),
            it.seq() == s@,
    {
        res.push(c);
    }
    res
}

/// Appends one character to a string (`String::push`).
#[verifier::external_body]
pub(crate) fn string_push(s: &mut String, c: char)
    ensures
        final(s)@ == old(s)@.push(c),
{
    s.push(c);
}

/// Appends a string slice to a string.
pub fn string_push_str(s: &mut String, t: &str)
    ensures
        final(s)@ == old(s)@ + t@,
{
    s.append(t);
}

/// The string made of `cs[lo..hi]`.
pub fn string_from_range(cs: &Vec<char>, lo: usize, hi: usize) -> (res: String)
    requires
        lo <= hi <= cs@.len(),
    ensures
        res@ == cs@.subrange(lo as int, hi as int),
{
    let mut res = String::new();
    let mut i = lo;
    while i < hi
        invariant
            lo <= i <= hi <= cs@.len(),
            res@ == cs@.subrange(lo as int, i as int),
        decreases hi - i,
    {
        string_push(&mut res, cs[i]);
        assert(cs@.subrange(lo as int, i + 1) == cs@.subrange(lo as int, i as int).push(cs@[i as int]));
        i = i + 1;
    }
    res
}

/// The string made of all of `cs`.
pub fn string_from_chars(cs: &Vec<char>) -> (res: String)
    ensures
        res@ == cs@,
{
    let res = string_from_range(cs, 0, cs.len());
    assert(cs@.subrange(0, cs@.len() as int) == cs@);
    res
}

/// A copy of a string.
pub fn copy_string(s: &String) -> (res: String)
    ensures
        res@ == s@,
{
    s.clone()
}

/// Equality of two strings by their characters.
pub fn string_eq(a: &String, b: &String) -> (r: bool)
    ensures
        r == (a@ == b@),
{
    *a == *b
}

/// The character sequences of a sequence of strings.
pub open spec fn texts(v: Seq<String>) -> Seq<Seq<char>> {
    v.map_values(|s: String| s@)
}

/// A copy of a list of strings.
pub fn copy_strings(v: &Vec<String>) -> (res: Vec<String>)
    ensures
        texts(res@) == texts(v@),
{
    let mut res: Vec<String> = Vec::new();
    let mut i: usize = 0;
    while i < v.len()
        invariant
            i <= v@.len(),
            res@.len() == i,
            forall|k: int| 0 <= k < i ==> #[trigger] res@[k]@ == v@[k]@,
        decreases v@.len() - i,
    {
        res.push(copy_string(&v[i]));
        i = i + 1;
    }
    assert(texts(res@) =~= texts(v@));
    res
}

/// Equality of two lists of strings, element by element.
pub fn strings_eq(a: &[String], b: &[String]) -> (r: bool)
    ensures
        r == (texts(a@) == texts(b@)),
{
    if a.len() != b.len() {
        assert(texts(a@).len() != texts(b@).len());
        return false;
    }
    let mut i: usize = 0;
    while i < a.len()
        invariant
            a@.len() == b@.len(),
            i <= a@.len(),
            forall|k: int| 0 <= k < i ==> a@[k]@ == b@[k]@,
        decreases a@.len() - i,
    {
        if !string_eq(&a[i], &b[i]) {
            assert(texts(a@)[i as int] != texts(b@)[i as int]);
            return false;
        }
        i = i + 1;
    }
    assert(texts(a@) =~= texts(b@));
    true
}

/// A copy of `v[lo..]` as a vector of strings.
pub fn copy_strings_from(v: &[String], lo: usize) -> (res: Vec<String>)
    requires
        lo <= v@.len(),
    ensures
        texts(res@) == texts(v@).skip(lo as int),
{
    let mut res: Vec<String> = Vec::new();
    let mut i: usize = lo;
    while i < v.len()
        invariant
            lo <= i <= v@.len(),
            res@.len() == i - lo,
            forall|k: int| 0 <= k < i - lo ==> #[trigger] res@[k]@ == v@[k + lo]@,
        decreases v@.len() - i,
    {
        res.push(copy_string(&v[i]));
        i = i + 1;
    }
    assert(texts(res@) =~= texts(v@).skip(lo as int));
    res
}

/// A copy of `v[lo..hi]` as a vector of strings.
pub fn copy_strings_range(v: &[String], lo: usize, hi: usize) -> (res: Vec<String>)
    requires
        lo <= hi <= v@.len(),
    ensures
        texts(res@) == texts(v@).subrange(lo as int, hi as int),
{
    let mut res: Vec<String> = Vec::new();
    let mut i: usize = lo;
    while i < hi
        invariant
            lo <= i <= hi <= v@.len(),
            res@.len() == i - lo,
            forall|k: int| 0 <= k < i - lo ==> #[trigger] res@[k]@ == v@[k + lo]@,
        decreases hi - i,
    {
        res.push(copy_string(&v[i]));
        i = i + 1;
    }
    assert(texts(res@) =~= texts(v@).subrange(lo as int, hi as int));
    res
}

/// A copy of a slice of strings.
pub fn copy_slice(v: &[String]) -> (res: Vec<String>)
    ensures
        texts(res@) == texts(v@),
{
    let res = copy_strings_range(v, 0, v.len());
    assert(texts(v@).subrange(0, v@.len() as int) =~= texts(v@));
    res
}

/// Appends copies of `src` to `dst`.
pub fn extend_strings(dst: &mut Vec<String>, src: &[String])
    ensures
        texts(final(dst)@) == texts(old(dst)@) + texts(src@),
{
    let ghost d0 = dst@;
    let mut i: usize = 0;
    while i < src.len()
        invariant
            i <= src@.len(),
            dst@.len() == d0.len() + i,
            forall|k: int| 0 <= k < d0.len() ==> #[trigger] dst@[k]@ == d0[k]@,
            forall|k: int| 0 <= k < i ==> #[trigger] dst@[d0.len() + k]@ == src@[k]@,
        decreases src@.len() - i,
    {
        dst.push(copy_string(&src[i]));
        i = i + 1;
    }
    assert forall|k: int| 0 <= k < dst@.len() implies #[trigger] texts(dst@)[k] == (texts(d0) + texts(src@))[k] by {
        if k >= d0.len() {
            assert(dst@[d0.len() + (k - d0.len())]@ == src@[k - d0.len()]@);
        }
    }
    assert(texts(dst@) =~= texts(d0) + texts(src@));
}

/// `s` ends with `suffix`.
pub open spec fn ends_with(s: Seq<char>, suffix: Seq<char>) -> bool {
    suffix.len() <= s.len() && s.subrange(s.len() - suffix.len(), s.len() as int) == suffix
}

/// `s` starts with `prefix`.
pub open spec fn starts_with(s: Seq<char>, prefix: Seq<char>) -> bool {
    prefix.len() <= s.len() && s.take(prefix.len() as int) == prefix
}

/// Whether `s` ends with `suffix`, compared character by character.
pub fn text_ends_with(s: &String, suffix: &String) -> (r: bool)
    ensures
        r == ends_with(s@, suffix@),
{
    let a = str_chars(s.as_str());
    let b = str_chars(suffix.as_str());
    if b.len() > a.len() {
        return false;
    }
    let off = a.len() - b.len();
    let mut i: usize = 0;
    while i < b.len()
        invariant
            a@ == s@,
            b@ == suffix@,
            off + b@.len() == a@.len(),
            a@.len() <= usize::MAX,
            i <= b@.len(),
            forall|k: int| 0 <= k < i ==> a@[off + k] == b@[k],
        decreases b@.len() - i,
    {
        if a[off + i] != b[i] {
            assert(s@.subrange(s@.len() - suffix@.len(), s@.len() as int)[i as int] != suffix@[i as int]);
            return false;
        }
        i = i + 1;
    }
    assert(s@.subrange(s@.len() - suffix@.len(), s@.len() as int) =~= suffix@);
    true
}

/// Whether `s` starts with `prefix`, compared character by character.
pub fn text_starts_with(s: &String, prefix: &String) -> (r: bool)
    ensures
        r == starts_with(s@, prefix@),
{
    let a = str_chars(s.as_str());
    let b = str_chars(prefix.as_str());
    if b.len() > a.len() {
        return false;
    }
    let mut i: usize = 0;
    while i < b.len()
        invariant
            a@ == s@,
            b@ == prefix@,
            b@.len() <= a@.len(),
            i <= b@.len(),
            forall|k: int| 0 <= k < i ==> a@[k] == b@[k],
        decreases b@.len() - i,
    {
        if a[i] != b[i] {
            assert(s@.take(prefix@.len() as int)[i as int] != prefix@[i as int]);
            return false;
        }
        i = i + 1;
    }
    assert(s@.take(prefix@.len() as int) =~= prefix@);
    true
}

/// The decimal digit character of `d`.
pub open spec fn digit_char(d: nat) -> char {
    if d == 0 { '0' } else if d == 1 { '1' } else if d == 2 { '2' } else if d == 3 { '3' } else if d
        == 4 { '4' } else if d == 5 { '5' } else if d == 6 { '6' } else if d == 7 { '7' } else if d
        == 8 { '8' } else { '9' }
}

/// The decimal writing of `n`.
pub open spec fn decimal(n: nat) -> Seq<char>
    decreases n,
{
    if n < 10 {
        seq![digit_char(n)]
    } else {
        decimal(n / 10) + seq![digit_char(n % 10)]
    }
}

fn digit_of(d: usize) -> (c: char)
    requires
        d < 10,
    ensures
        c == digit_char(d as nat),
{
    if d == 0 { '0' } else if d == 1 { '1' } else if d == 2 { '2' } else if d == 3 { '3' } else if d
        == 4 { '4' } else if d == 5 { '5' } else if d == 6 { '6' } else if d == 7 { '7' } else if d
        == 8 { '8' } else { '9' }
}

/// Appends the decimal writing of `n`.
pub fn push_decimal(out: &mut String, n: usize)
    ensures
        final(out)@ == old(out)@ + decimal(n as nat),
    decreases n,
{
    if n < 10 {
        string_push(out, digit_of(n));
    } else {
        push_decimal(out, n / 10);
        string_push(out, digit_of(n % 10));
    }
}

/// Each text followed by a line break except the last: the texts joined by `\n`.
pub open spec fn join_lines(lines: Seq<Seq<char>>) -> Seq<char>
    decreases lines.len(),
{
    if lines.len() == 0 {
        Seq::empty()
    } else if lines.len() == 1 {
        lines[0]
    } else {
        join_lines(lines.drop_last()) + seq!['\n'] + lines.last()
    }
}

/// The strings joined by line breaks.
pub fn join_with_newlines(lines: &Vec<String>) -> (res: String)
    ensures
        res@ == join_lines(texts(lines@)),
{
    let mut out = String::new();
    let mut i: usize = 0;
    while i < lines.len()
        invariant
            i <= lines@.len(),
            out@ == join_lines(texts(lines@).take(i as int)),
        decreases lines@.len() - i,
    {
        if i > 0 {
            string_push(&mut out, '\n');
        }
        string_push_str(&mut out, lines[i].as_str());
        assert(texts(lines@).take(i + 1).drop_last() == texts(lines@).take(i as int));
        i = i + 1;
    }
    assert(texts(lines@).take(lines@.len() as int) == texts(lines@));
    out
}

/// Strict lexicographic order on texts, by code point; the order of `String`'s
/// `Ord` (byte order of UTF-8 agrees with code-point order).
pub open spec fn text_lt(a: Seq<char>, b: Seq<char>) -> bool
    decreases a.len(),
{
    if b.len() == 0 {
        false
    } else if a.len() == 0 {
        true
    } else if (a[0] as u32) < (b[0] as u32) {
        true
    } else if a[0] == b[0] {
        text_lt(a.drop_first(), b.drop_first())
    } else {
        false
    }
}

/// No text comes before itself.
pub proof fn lemma_text_lt_irreflexive(a: Seq<char>)
    ensures
        !text_lt(a, a),
    decreases a.len(),
{
    if a.len() > 0 {
        lemma_text_lt_irreflexive(a.drop_first());
    }
}

/// The order is transitive.
pub proof fn lemma_text_lt_transitive(a: Seq<char>, b: Seq<char>, c: Seq<char>)
    requires
        text_lt(a, b),
        text_lt(b, c),
    ensures
        text_lt(a, c),
    decreases a.len(),
{
    if a.len() > 0 && b.len() > 0 && c.len() > 0 && a[0] == b[0] && b[0] == c[0] {
        lemma_text_lt_transitive(a.drop_first(), b.drop_first(), c.drop_first());
    }
}

/// Two different texts are ordered one way or the other.
pub proof fn lemma_text_lt_total(a: Seq<char>, b: Seq<char>)
    requires
        a != b,
    ensures
        text_lt(a, b) || text_lt(b, a),
    decreases a.len(),
{
    if a.len() > 0 && b.len() > 0 && a[0] == b[0] {
        if a.drop_first() == b.drop_first() {
            assert(a =~= seq![a[0]] + a.drop_first());
            assert(b =~= seq![b[0]] + b.drop_first());
        }
        lemma_text_lt_total(a.drop_first(), b.drop_first());
    } else if a.len() > 0 && b.len() > 0 {
        let ua = a[0] as u32;
        let ub = b[0] as u32;
        vstd::utf8::char_u32_cast(a[0], ua);
        vstd::utf8::char_u32_cast(b[0], ub);
    } else if a.len() == 0 && b.len() == 0 {
        assert(a =~= b);
    }
}

/// The order is asymmetric.
pub proof fn lemma_text_lt_asymmetric(a: Seq<char>, b: Seq<char>)
    requires
        text_lt(a, b),
    ensures
        !text_lt(b, a),
{
    if text_lt(b, a) {
        lemma_text_lt_transitive(a, b, a);
        lemma_text_lt_irreflexive(a);
    }
}

/// Whether `a` comes strictly before `b` in lexicographic order.
pub fn text_less(a: &String, b: &String) -> (r: bool)
    ensures
        r == text_lt(a@, b@),
{
    let x = str_chars(a.as_str());
    let y = str_chars(b.as_str());
    let mut i: usize = 0;
    assert(a@.skip(0) =~= a@ && b@.skip(0) =~= b@);
    while i < x.len() && i < y.len()
        invariant
            x@ == a@,
            y@ == b@,
            i <= x@.len(),
            i <= y@.len(),
            text_lt(a@, b@) == text_lt(a@.skip(i as int), b@.skip(i as int)),
        decreases x@.len() - i,
    {
        let ghost sa = a@.skip(i as int);
        let ghost sb = b@.skip(i as int);
        if (x[i] as u32) < (y[i] as u32) {
            assert(sa[0] == x@[i as int] && sb[0] == y@[i as int]);
            return true;
        }
        if x[i] != y[i] {
            assert(sa[0] == x@[i as int] && sb[0] == y@[i as int]);
            proof {
                let ua = x@[i as int] as u32;
                let ub = y@[i as int] as u32;
                vstd::utf8::char_u32_cast(x@[i as int], ua);
                vstd::utf8::char_u32_cast(y@[i as int], ub);
            }
            return false;
        }
        assert(sa.drop_first() =~= a@.skip(i + 1));
        assert(sb.drop_first() =~= b@.skip(i + 1));
        i = i + 1;
    }
    i < y.len()
}

/// The texts of `v` are strictly increasing.
pub open spec fn strictly_sorted(v: Seq<Seq<char>>) -> bool {
    forall|i: int, j: int| 0 <= i < j < v.len() ==> text_lt(v[i], v[j])
}

/// Inserts `t` into the strictly increasing list `names` unless it is already
/// there.
pub fn insert_sorted_text(names: &mut Vec<String>, t: &String)
    requires
        strictly_sorted(texts(old(names)@)),
    ensures
        strictly_sorted(texts(final(names)@)),
        texts(final(names)@).to_set() == texts(old(names)@).to_set().insert(t@),
{
    let ghost old_v = texts(names@);
    let mut p: usize = 0;
    while p < names.len() && text_less(&names[p], t)
        invariant
            p <= names@.len(),
            texts(names@) == old_v,
            forall|k: int| 0 <= k < p ==> text_lt(#[trigger] old_v[k], t@),
        decreases names@.len() - p,
    {
        p = p + 1;
    }
    if p < names.len() && string_eq(&names[p], t) {
        assert(old_v.to_set().insert(t@) =~= old_v.to_set()) by {
            assert(old_v[p as int] == t@);
        }
        return;
    }
    proof {
        if p < old_v.len() {
            assert(!text_lt(old_v[p as int], t@));
            assert(old_v[p as int] != t@);
            lemma_text_lt_total(old_v[p as int], t@);
        }
    }
    names.insert(p, copy_string(t));
    let ghost new_v = texts(names@);
    assert(new_v =~= old_v.insert(p as int, t@));
    assert forall|i: int, j: int| 0 <= i < j < new_v.len() implies text_lt(new_v[i], new_v[j]) by {
        if j < p {
        } else if j == p {
        } else if i < p {
            if j - 1 > p {
                assert(text_lt(old_v[p as int], old_v[j - 1]));
                lemma_text_lt_transitive(t@, old_v[p as int], old_v[j - 1]);
            }
            lemma_text_lt_transitive(old_v[i], t@, old_v[j - 1]);
        } else if i == p {
            if j - 1 > p {
                lemma_text_lt_transitive(t@, old_v[p as int], old_v[j - 1]);
            }
        } else {
        }
    }
    assert(new_v.to_set() =~= old_v.to_set().insert(t@)) by {
        assert forall|x: Seq<char>| new_v.to_set().contains(x) implies old_v.to_set().insert(t@).contains(x) by {
            let k = choose|k: int| 0 <= k < new_v.len() && new_v[k] == x;
            if k < p {
                assert(old_v[k] == x);
            } else if k > p {
                assert(old_v[k - 1] == x);
            }
        }
        assert forall|x: Seq<char>| old_v.to_set().insert(t@).contains(x) implies new_v.to_set().contains(x) by {
            if x == t@ {
                assert(new_v[p as int] == x);
            } else {
                let k = choose|k: int| 0 <= k < old_v.len() && old_v[k] == x;
                if k < p {
                    assert(new_v[k] == x);
                } else {
                    assert(new_v[k + 1] == x);
                }
            }
        }
    }
}

fn digit_of_u64(d: u64) -> (c: char)
    requires
        d < 10,
    ensures
        c == digit_char(d as nat),
{
    if d == 0 { '0' } else if d == 1 { '1' } else if d == 2 { '2' } else if d == 3 { '3' } else if d
        == 4 { '4' } else if d == 5 { '5' } else if d == 6 { '6' } else if d == 7 { '7' } else if d
        == 8 { '8' } else { '9' }
}

/// Appends the decimal writing of a `u64`.
pub fn push_decimal_u64(out: &mut String, n: u64)
    ensures
        final(out)@ == old(out)@ + decimal(n as nat),
    decreases n,
{
    if n < 10 {
        string_push(out, digit_of_u64(n));
    } else {
        push_decimal_u64(out, n / 10);
        string_push(out, digit_of_u64(n % 10));
    }
}

/// The decimal writing of `n` with zeros in front up to `width` digits.
pub open spec fn zero_padded(n: nat, width: nat) -> Seq<char> {
    if decimal(n).len() < width {
        Seq::new((width - decimal(n).len()) as nat, |i: int| '0') + decimal(n)
    } else {
        decimal(n)
    }
}

/// Appends the decimal writing of `n` with zeros in front up to `width` digits.
pub fn push_zero_padded(out: &mut String, n: u64, width: usize)
    ensures
        final(out)@ == old(out)@ + zero_padded(n as nat, width as nat),
{
    let mut digits = String::new();
    push_decimal_u64(&mut digits, n);
    let len = str_chars(digits.as_str()).len();
    let ghost o = out@;
    let mut k: usize = len;
    assert(Seq::new(0, |i: int| '0') =~= Seq::<char>::empty());
    while k < width
        invariant
            len == decimal(n as nat).len(),
            digits@ == decimal(n as nat),
            len <= k,
            k <= width || k == len,
            out@ == o + Seq::new((k - len) as nat, |i: int| '0'),
        decreases width - k,
    {
        string_push(out, '0');
        assert(Seq::new((k + 1 - len) as nat, |i: int| '0') =~= Seq::new((k - len) as nat, |i: int| '0').push('0'));
        k = k + 1;
    }
    string_push_str(out, digits.as_str());
    proof {
        if len >= width {
            assert(Seq::new(0, |i: int| '0') + decimal(n as nat) =~= decimal(n as nat));
            assert(o + Seq::new((k - len) as nat, |i: int| '0') =~= o);
        }
        assert(o + zero_padded(n as nat, width as nat) =~= o + Seq::new((k - len) as nat, |i: int| '0') + decimal(n as nat));
    }
}

/// `needle` occurs in `s` at position `i`.
pub open spec fn occurs_at(s: Seq<char>, needle: Seq<char>, i: int) -> bool {
    0 <= i && i + needle.len() <= s.len() && s.subrange(i, i + needle.len()) == needle
}

/// `needle` occurs somewhere in `s` (`str::contains`).
pub open spec fn text_contains(s: Seq<char>, needle: Seq<char>) -> bool {
    exists|i: int| #[trigger] occurs_at(s, needle, i)
}

/// Whether `needle` occurs in `s`.
pub fn contains_text(s: &str, needle: &str) -> (r: bool)
    ensures
        r == text_contains(s@, needle@),
{
    let a = str_chars(s);
    let b = str_chars(needle);
    if b.len() > a.len() {
        assert forall|i: int| !#[trigger] occurs_at(s@, needle@, i) by {}
        return false;
    }
    let mut i: usize = 0;
    while i <= a.len() - b.len()
        invariant
            a@ == s@,
            b@ == needle@,
            b@.len() <= a@.len(),
            i <= a@.len() - b@.len() + 1,
            forall|j: int| 0 <= j < i ==> !#[trigger] occurs_at(s@, needle@, j),
        decreases a@.len() - b@.len() + 1 - i,
    {
        let mut k: usize = 0;
        let mut same = true;
        while k < b.len()
            invariant
                a@ == s@,
                b@ == needle@,
                a@.len() <= usize::MAX,
                i + b@.len() <= a@.len(),
                k <= b@.len(),
                same == forall|q: int| 0 <= q < k ==> a@[i + q] == b@[q],
            decreases b@.len() - k,
        {
            if a[i + k] != b[k] {
                same = false;
            }
            k = k + 1;
        }
        if same {
            assert(s@.subrange(i as int, i + needle@.len()) =~= needle@);
            assert(occurs_at(s@, needle@, i as int));
            return true;
        }
        assert(!occurs_at(s@, needle@, i as int)) by {
            let q = choose|q: int| 0 <= q < b@.len() && a@[i + q] != b@[q];
            assert(s@.subrange(i as int, i + needle@.len())[q] != needle@[q]);
        }
        i = i + 1;
    }
    assert forall|j: int| !#[trigger] occurs_at(s@, needle@, j) by {
        if 0 <= j < i {
        }
    }
    false
}

/// ASCII letters in lower case, other characters unchanged.
pub open spec fn ascii_lower(c: char) -> char {
    if 'A' <= c <= 'Z' {
        ((c as u32) + 32) as char
    } else {
        c
    }
}

/// A text with its ASCII letters in lower case.
pub open spec fn lower_text(s: Seq<char>) -> Seq<char> {
    s.map_values(|c: char| ascii_lower(c))
}

/// `s` with its ASCII letters in lower case.
pub fn ascii_lowercase(s: &str) -> (r: String)
    ensures
        r@ == lower_text(s@),
{
    let cs = str_chars(s);
    let mut out = String::new();
    let mut i: usize = 0;
    while i < cs.len()
        invariant
            cs@ == s@,
            i <= cs@.len(),
            out@ == lower_text(s@.take(i as int)),
        decreases cs@.len() - i,
    {
        let c = cs[i];
        let l = if 'A' <= c && c <= 'Z' {
            ((c as u8) + 32) as char
        } else {
            c
        };
        assert(l == ascii_lower(c));
        string_push(&mut out, l);
        assert(lower_text(s@.take(i + 1)) =~= lower_text(s@.take(i as int)).push(ascii_lower(c)));
        i = i + 1;
    }
    assert(s@.take(cs@.len() as int) =~= s@);
    out
}

/// `base` joined with the relative component `part`, the way a Unix path
/// joins: a `/` between them unless `base` is empty or already ends in one.
pub open spec fn join_text(base: Seq<char>, part: Seq<char>) -> Seq<char> {
    if base.len() == 0 {
        part
    } else if base.last() == '/' {
        base + part
    } else {
        base + seq!['/'] + part
    }
}

/// `base` joined with `part`, as `join_text` says.
pub fn join_path_text(base: &String, part: &String) -> (r: String)
    ensures
        r@ == join_text(base@, part@),
{
    let cs = str_chars(base.as_str());
    if cs.len() == 0 {
        return String::from_str(part.as_str());
    }
    let mut r = String::from_str(base.as_str());
    if cs[cs.len() - 1] != '/' {
        string_push(&mut r, '/');
    }
    string_push_str(&mut r, part.as_str());
    r
}

} // verus!
