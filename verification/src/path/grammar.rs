//! The textual grammar of paths.
//!
//! A path segment is a non-empty run of characters that holds none of
//! ` ~*\|/<>?:` or a line break, except that single spaces-runs may stand
//! between non-blank blocks; no block may hold `...`.  Each reader below is
//! a function from a position in a character sequence to the value read and
//! the position after it; the whole-text parsers ask the reader to stop at
//! the end of the text.
use vstd::prelude::*;
use crate::text::{decimal, push_decimal, str_chars, string_from_range, string_push, string_push_str, texts};
use crate::path::pattern::{check_regex, regex_compiles};
use crate::path::basic::{
    depot_path_text, depot_wildcard_text, dirs_text, wildcard_renderable, wildcard_text,
    DepotPath, DepotPathView, DepotPathWildcard, DepotPathWildcardView, FilenameWildcard,
    FilenameWildcardView, LocalDir, LocalPath, LocalPathView, LocalPathWildcard,
    LocalPathWildcardView, PathError, PathResult, RangeDepotWildcard, RangeDepotWildcardView,
    RegexDepotWildcard, WorkspaceDir, WorkspaceDirView, WorkspacePath, WorkspacePathView,
};

verus! {

/// Characters that may not stand in a block of a segment.
pub open spec fn is_illegal(c: char) -> bool {
    c == ' ' || c == '~' || c == '*' || c == '\\' || c == '|' || c == '/' || c == '<' || c == '>'
        || c == '?' || c == ':' || c == '\r' || c == '\n'
}

/// An ASCII letter (a drive letter).
pub open spec fn is_ascii_letter(c: char) -> bool {
    ('a' <= c && c <= 'z') || ('A' <= c && c <= 'Z')
}

fn is_ascii_letter_char(c: char) -> (r: bool)
    ensures
        r == is_ascii_letter(c),
{
    ('a' <= c && c <= 'z') || ('A' <= c && c <= 'Z')
}

/// Separators: `/` alone, or `/` and `\` when `both`.
pub open spec fn is_sep(c: char, both: bool) -> bool {
    c == '/' || (both && c == '\\')
}

/// The end of the longest run of legal characters from `i`.
pub open spec fn run_end(s: Seq<char>, i: int) -> int
    decreases s.len() - i,
{
    if 0 <= i < s.len() && !is_illegal(s[i]) {
        run_end(s, i + 1)
    } else {
        i
    }
}

/// The end of the longest run of spaces from `i`.
pub open spec fn spaces_end(s: Seq<char>, i: int) -> int
    decreases s.len() - i,
{
    if 0 <= i < s.len() && s[i] == ' ' {
        spaces_end(s, i + 1)
    } else {
        i
    }
}

/// `s[lo..hi]` holds `...`.
pub open spec fn has_triple_dot(s: Seq<char>, lo: int, hi: int) -> bool {
    exists|k: int| lo <= k && k + 3 <= hi && #[trigger] s[k] == '.' && s[k + 1] == '.' && s[k + 2] == '.'
}

/// A block at `i`: the longest legal run, when it is not empty and holds no `...`.
pub open spec fn block_end(s: Seq<char>, i: int) -> Option<int> {
    let e = run_end(s, i);
    if e > i && !has_triple_dot(s, i, e) {
        Some(e)
    } else {
        None
    }
}

/// From the end `j` of a block, the end of the segment: further blocks
/// joined by runs of spaces.
pub open spec fn segment_tail(s: Seq<char>, j: int) -> int
    decreases s.len() - j,
{
    if 0 <= j < s.len() {
        let k = spaces_end(s, j);
        if k > j {
            match block_end(s, k) {
                Some(e) => if j < e <= s.len() {
                    segment_tail(s, e)
                } else {
                    j
                },
                None => j,
            }
        } else {
            j
        }
    } else {
        j
    }
}

/// The end of the segment that starts at `i`, if one does.
pub open spec fn segment_end(s: Seq<char>, i: int) -> Option<int> {
    match block_end(s, i) {
        Some(e) => Some(segment_tail(s, e)),
        None => None,
    }
}

/// Segments separated by single separators, at least one.
pub open spec fn seg_list(s: Seq<char>, i: int, both: bool) -> Option<(Seq<Seq<char>>, int)>
    decreases s.len() - i,
{
    match segment_end(s, i) {
        None => None,
        Some(e) => if i < e < s.len() && is_sep(s[e], both) && segment_end(s, e + 1) is Some {
            match seg_list(s, e + 1, both) {
                Some((rest, end)) => Some((seq![s.subrange(i, e)] + rest, end)),
                None => None,
            }
        } else {
            Some((seq![s.subrange(i, e)], e))
        },
    }
}

/// Segments each followed by a separator, any number.
pub open spec fn dir_list(s: Seq<char>, i: int, both: bool) -> (Seq<Seq<char>>, int)
    decreases s.len() - i,
{
    match segment_end(s, i) {
        Some(e) => if i < e < s.len() && is_sep(s[e], both) {
            let (rest, end) = dir_list(s, e + 1, both);
            (seq![s.subrange(i, e)] + rest, end)
        } else {
            (Seq::empty(), i)
        },
        None => (Seq::empty(), i),
    }
}

/// Segments each followed by an optional separator (`/` or `\`), any number.
pub open spec fn dir_list_opt(s: Seq<char>, i: int) -> (Seq<Seq<char>>, int)
    decreases s.len() - i,
{
    match segment_end(s, i) {
        Some(e) => if i < e < s.len() && is_sep(s[e], true) {
            let (rest, end) = dir_list_opt(s, e + 1);
            (seq![s.subrange(i, e)] + rest, end)
        } else if i < e {
            (seq![s.subrange(i, e)], e)
        } else {
            (Seq::empty(), i)
        },
        None => (Seq::empty(), i),
    }
}

/// `lit` stands in `s` at `i`.
pub open spec fn has_at(s: Seq<char>, i: int, lit: Seq<char>) -> bool {
    0 <= i && i + lit.len() <= s.len() && s.subrange(i, i + lit.len()) == lit
}

/// The filename pattern at `i`: `~` and a segment, a segment, or nothing.
pub open spec fn wildcard_at(s: Seq<char>, i: int) -> (FilenameWildcardView, int) {
    if 0 <= i < s.len() && s[i] == '~' && segment_end(s, i + 1) is Some {
        (FilenameWildcardView::Extension(seq!['.'] + s.subrange(i + 1, segment_end(s, i + 1)->0)), segment_end(s, i + 1)->0)
    } else if segment_end(s, i) is Some {
        (FilenameWildcardView::Exact(s.subrange(i, segment_end(s, i)->0)), segment_end(s, i)->0)
    } else {
        (FilenameWildcardView::All, i)
    }
}

pub open spec fn dslash() -> Seq<char> {
    seq!['/', '/']
}

pub open spec fn dots() -> Seq<char> {
    seq!['.', '.', '.']
}

pub open spec fn regex_prefix() -> Seq<char> {
    seq!['r', ':', '/', '/']
}

/// A range wildcard at `i`: `//`, directories, optional `...`, filename pattern.
pub open spec fn range_at(s: Seq<char>, i: int) -> Option<(RangeDepotWildcardView, int)> {
    if has_at(s, i, dslash()) {
        let (dirs, j) = dir_list(s, i + 2, false);
        let recursive = has_at(s, j, dots());
        let k = if recursive { j + 3 } else { j };
        let (w, m) = wildcard_at(s, k);
        Some((RangeDepotWildcardView { dirs, recursive, wildcard: w }, m))
    } else {
        None
    }
}

/// A depot path at `i`: `//` and segments separated by `/`; the last is the file.
pub open spec fn depot_path_at(s: Seq<char>, i: int) -> Option<(DepotPathView, int)> {
    if has_at(s, i, dslash()) {
        match seg_list(s, i + 2, false) {
            Some((segs, j)) => Some((DepotPathView { dirs: segs.drop_last(), file: segs.last() }, j)),
            None => None,
        }
    } else {
        None
    }
}

/// The end of the line that holds position `i`.
pub open spec fn line_end(s: Seq<char>, i: int) -> int
    decreases s.len() - i,
{
    if 0 <= i < s.len() && s[i] != '\n' && s[i] != '\r' {
        line_end(s, i + 1)
    } else {
        i
    }
}

/// A depot wildcard at `i`: a range wildcard, or `r://` and a pattern up to
/// the end of the line.
pub open spec fn depot_wildcard_at(s: Seq<char>, i: int) -> Option<(DepotPathWildcardView, int)> {
    if has_at(s, i, dslash()) {
        match range_at(s, i) {
            Some((r, j)) => Some((DepotPathWildcardView::Range(r), j)),
            None => None,
        }
    } else if has_at(s, i, regex_prefix()) {
        let e = line_end(s, i + 4);
        Some((DepotPathWildcardView::Regex(s.subrange(i + 4, e)), e))
    } else {
        None
    }
}

/// The root of a local path at `i`: a drive letter, `:` and a separator, or `/`.
pub open spec fn root_at(s: Seq<char>, i: int) -> Option<(Seq<Seq<char>>, int)> {
    if 0 <= i && i + 2 < s.len() && is_ascii_letter(s[i]) && s[i + 1] == ':' && is_sep(s[i + 2], true) {
        Some((seq![seq![s[i]]], i + 3))
    } else if 0 <= i < s.len() && s[i] == '/' {
        Some((Seq::empty(), i + 1))
    } else {
        None
    }
}

/// A local file path at `i`.
pub open spec fn local_path_at(s: Seq<char>, i: int) -> Option<(LocalPathView, int)> {
    match root_at(s, i) {
        Some((drive, j)) => match seg_list(s, j, true) {
            Some((segs, k)) => if k < s.len() && is_sep(s[k], true) {
                None
            } else {
                Some((LocalPathView { dirs: drive + segs.drop_last(), file: segs.last() }, k))
            },
            None => None,
        },
        None => None,
    }
}

/// A local directory at `i`.
pub open spec fn local_dir_at(s: Seq<char>, i: int) -> Option<(Seq<Seq<char>>, int)> {
    match root_at(s, i) {
        Some((drive, j)) => {
            let (segs, k) = dir_list_opt(s, j);
            Some((drive + segs, k))
        },
        None => None,
    }
}

/// A local wildcard path at `i`.
pub open spec fn local_wildcard_at(s: Seq<char>, i: int) -> Option<(LocalPathWildcardView, int)> {
    match root_at(s, i) {
        Some((drive, j)) => {
            let (dirs, k) = dir_list(s, j, true);
            let recursive = has_at(s, k, dots());
            let m = if recursive { k + 3 } else { k };
            let (w, e) = wildcard_at(s, m);
            Some((LocalPathWildcardView { dirs: drive + dirs, recursive, wildcard: w }, e))
        },
        None => None,
    }
}

/// A workspace file path at `i`: `//`, the workspace name, directories, file.
pub open spec fn workspace_path_at(s: Seq<char>, i: int) -> Option<(WorkspacePathView, int)> {
    if has_at(s, i, dslash()) {
        match seg_list(s, i + 2, false) {
            Some((segs, j)) => if segs.len() >= 2 && !(j < s.len() && s[j] == '/') {
                Some((WorkspacePathView {
                    workspace_name: segs[0],
                    dirs: segs.subrange(1, segs.len() - 1),
                    file: segs.last(),
                }, j))
            } else {
                None
            },
            None => None,
        }
    } else {
        None
    }
}

/// A workspace directory at `i`: `//`, the workspace name and directories,
/// each followed by `/`, and no segment after them.
pub open spec fn workspace_dir_at(s: Seq<char>, i: int) -> Option<(WorkspaceDirView, int)> {
    if has_at(s, i, dslash()) {
        let (segs, j) = dir_list(s, i + 2, false);
        if segs.len() >= 1 && segment_end(s, j) is None {
            Some((WorkspaceDirView { workspace_name: segs[0], dirs: segs.skip(1) }, j))
        } else {
            None
        }
    } else {
        None
    }
}

/// The value read from all of `s` by `reader`, which must stop at the end.
pub open spec fn whole<T>(r: Option<(T, int)>, s: Seq<char>) -> Option<T> {
    match r {
        Some((v, e)) => if e == s.len() { Some(v) } else { None },
        None => None,
    }
}

// ---------------------------------------------------------------------------
// Facts about the readers.

pub proof fn lemma_run_end_bounds(s: Seq<char>, i: int)
    requires
        0 <= i <= s.len(),
    ensures
        i <= run_end(s, i) <= s.len(),
        forall|k: int| i <= k < run_end(s, i) ==> !is_illegal(#[trigger] s[k]),
        run_end(s, i) < s.len() ==> is_illegal(s[run_end(s, i)]),
    decreases s.len() - i,
{
    if i < s.len() && !is_illegal(s[i]) {
        lemma_run_end_bounds(s, i + 1);
    }
}

pub proof fn lemma_spaces_end_bounds(s: Seq<char>, i: int)
    requires
        0 <= i <= s.len(),
    ensures
        i <= spaces_end(s, i) <= s.len(),
        forall|k: int| i <= k < spaces_end(s, i) ==> #[trigger] s[k] == ' ',
    decreases s.len() - i,
{
    if i < s.len() && s[i] == ' ' {
        lemma_spaces_end_bounds(s, i + 1);
    }
}

pub proof fn lemma_segment_tail_bounds(s: Seq<char>, j: int)
    requires
        0 <= j <= s.len(),
    ensures
        j <= segment_tail(s, j) <= s.len(),
    decreases s.len() - j,
{
    if 0 <= j < s.len() {
        let k = spaces_end(s, j);
        lemma_spaces_end_bounds(s, j);
        if k > j {
            match block_end(s, k) {
                Some(e) => if j < e <= s.len() {
                    lemma_segment_tail_bounds(s, e);
                },
                None => {},
            }
        }
    }
}

pub proof fn lemma_segment_end_bounds(s: Seq<char>, i: int)
    requires
        0 <= i <= s.len(),
    ensures
        segment_end(s, i) matches Some(e) ==> i < e <= s.len(),
{
    lemma_run_end_bounds(s, i);
    if let Some(e) = block_end(s, i) {
        lemma_segment_tail_bounds(s, e);
    }
}

pub proof fn lemma_line_end_bounds(s: Seq<char>, i: int)
    requires
        0 <= i <= s.len(),
    ensures
        i <= line_end(s, i) <= s.len(),
    decreases s.len() - i,
{
    if 0 <= i < s.len() && s[i] != '\n' && s[i] != '\r' {
        lemma_line_end_bounds(s, i + 1);
    }
}

// ---------------------------------------------------------------------------
// Readers.

fn is_illegal_char(c: char) -> (r: bool)
    ensures
        r == is_illegal(c),
{
    c == ' ' || c == '~' || c == '*' || c == '\\' || c == '|' || c == '/' || c == '<' || c == '>'
        || c == '?' || c == ':' || c == '\r' || c == '\n'
}

fn is_sep_char(c: char, both: bool) -> (r: bool)
    ensures
        r == is_sep(c, both),
{
    c == '/' || (both && c == '\\')
}

fn read_run(cs: &Vec<char>, i: usize) -> (e: usize)
    requires
        i <= cs@.len(),
    ensures
        e == run_end(cs@, i as int),
{
    let mut j = i;
    while j < cs.len() && !is_illegal_char(cs[j])
        invariant
            i <= j <= cs@.len(),
            run_end(cs@, i as int) == run_end(cs@, j as int),
        decreases cs@.len() - j,
    {
        j = j + 1;
    }
    j
}

fn read_spaces(cs: &Vec<char>, i: usize) -> (e: usize)
    requires
        i <= cs@.len(),
    ensures
        e == spaces_end(cs@, i as int),
{
    let mut j = i;
    while j < cs.len() && cs[j] == ' '
        invariant
            i <= j <= cs@.len(),
            spaces_end(cs@, i as int) == spaces_end(cs@, j as int),
        decreases cs@.len() - j,
    {
        j = j + 1;
    }
    j
}

fn holds_triple_dot(cs: &Vec<char>, lo: usize, hi: usize) -> (r: bool)
    requires
        lo <= hi <= cs@.len(),
    ensures
        r == has_triple_dot(cs@, lo as int, hi as int),
{
    let mut k = lo;
    while k < hi && hi - k >= 3
        invariant
            lo <= k,
            hi <= cs@.len(),
            forall|m: int| lo <= m < k && m + 3 <= hi ==> !(#[trigger] cs@[m] == '.' && cs@[m + 1] == '.' && cs@[m + 2] == '.'),
        decreases hi - k,
    {
        if cs[k] == '.' && cs[k + 1] == '.' && cs[k + 2] == '.' {
            return true;
        }
        k = k + 1;
    }
    false
}

fn read_block(cs: &Vec<char>, i: usize) -> (r: Option<usize>)
    requires
        i <= cs@.len(),
    ensures
        match r {
            Some(e) => block_end(cs@, i as int) == Some(e as int) && i < e <= cs@.len(),
            None => block_end(cs@, i as int) is None,
        },
{
    let e = read_run(cs, i);
    proof { lemma_run_end_bounds(cs@, i as int); }
    if e > i && !holds_triple_dot(cs, i, e) {
        Some(e)
    } else {
        None
    }
}

/// The end of the segment starting at `i`, if one does.
pub fn read_segment(cs: &Vec<char>, i: usize) -> (r: Option<usize>)
    requires
        i <= cs@.len(),
    ensures
        match r {
            Some(e) => segment_end(cs@, i as int) == Some(e as int) && i < e <= cs@.len(),
            None => segment_end(cs@, i as int) is None,
        },
{
    proof { lemma_segment_end_bounds(cs@, i as int); }
    let first = read_block(cs, i);
    let mut j = match first {
        Some(e) => e,
        None => return None,
    };
    while j < cs.len()
        invariant
            i < j <= cs@.len(),
            segment_end(cs@, i as int) == Some(segment_tail(cs@, j as int)),
        ensures
            i < j <= cs@.len(),
            segment_end(cs@, i as int) == Some(segment_tail(cs@, j as int)),
            segment_tail(cs@, j as int) == j,
        decreases cs@.len() - j,
    {
        let k = read_spaces(cs, j);
        proof { lemma_spaces_end_bounds(cs@, j as int); }
        if k == j {
            break;
        }
        match read_block(cs, k) {
            Some(e) => {
                j = e;
            },
            None => {
                break;
            },
        }
    }
    proof { lemma_segment_tail_bounds(cs@, j as int); }
    Some(j)
}

fn has_text_at(cs: &Vec<char>, i: usize, lit: &Vec<char>) -> (r: bool)
    requires
        i <= cs@.len(),
    ensures
        r == has_at(cs@, i as int, lit@),
        cs@.len() <= usize::MAX,
{
    let n = cs.len();
    if lit.len() > n - i {
        return false;
    }
    let mut k: usize = 0;
    while k < lit.len()
        invariant
            n == cs@.len(),
            i + lit@.len() <= cs@.len(),
            k <= lit@.len(),
            forall|m: int| 0 <= m < k ==> cs@[i + m] == lit@[m],
        decreases lit@.len() - k,
    {
        if cs[i + k] != lit[k] {
            assert(cs@.subrange(i as int, i + lit@.len())[k as int] != lit@[k as int]);
            return false;
        }
        k = k + 1;
    }
    assert(cs@.subrange(i as int, i + lit@.len()) =~= lit@);
    true
}

fn lit_dslash() -> (r: Vec<char>)
    ensures
        r@ == dslash(),
{
    let r = vec!['/', '/'];
    assert(r@ =~= dslash());
    r
}

fn lit_dots() -> (r: Vec<char>)
    ensures
        r@ == dots(),
{
    let r = vec!['.', '.', '.'];
    assert(r@ =~= dots());
    r
}

fn lit_regex_prefix() -> (r: Vec<char>)
    ensures
        r@ == regex_prefix(),
{
    let r = vec!['r', ':', '/', '/'];
    assert(r@ =~= regex_prefix());
    r
}

/// Reads segments separated by single separators.
fn read_seg_list(cs: &Vec<char>, i: usize, both: bool) -> (r: Option<(Vec<String>, usize)>)
    requires
        i <= cs@.len(),
    ensures
        match r {
            Some((v, e)) => seg_list(cs@, i as int, both) == Some((texts(v@), e as int)) && e <= cs@.len(),
            None => seg_list(cs@, i as int, both).is_none(),
        },
    decreases cs@.len() - i,
{
    let e = match read_segment(cs, i) {
        Some(e) => e,
        None => return None,
    };
    let seg = string_from_range(cs, i, e);
    if e < cs.len() && is_sep_char(cs[e], both) && read_segment(cs, e + 1).is_some() {
        match read_seg_list(cs, e + 1, both) {
            Some((mut rest, end)) => {
                rest.insert(0, seg);
                assert(texts(rest@) =~= seq![cs@.subrange(i as int, e as int)] + seg_list(cs@, e + 1, both).unwrap().0);
                Some((rest, end))
            },
            None => None,
        }
    } else {
        let mut v: Vec<String> = Vec::new();
        v.push(seg);
        assert(texts(v@) =~= seq![cs@.subrange(i as int, e as int)]);
        Some((v, e))
    }
}

/// Reads segments each followed by a separator.
fn read_dir_list(cs: &Vec<char>, i: usize, both: bool) -> (r: (Vec<String>, usize))
    requires
        i <= cs@.len(),
    ensures
        dir_list(cs@, i as int, both) == (texts(r.0@), r.1 as int),
        r.1 <= cs@.len(),
    decreases cs@.len() - i,
{
    match read_segment(cs, i) {
        Some(e) => {
            if e < cs.len() && is_sep_char(cs[e], both) {
                let seg = string_from_range(cs, i, e);
                let (mut rest, end) = read_dir_list(cs, e + 1, both);
                rest.insert(0, seg);
                assert(texts(rest@) =~= seq![cs@.subrange(i as int, e as int)] + dir_list(cs@, e + 1, both).0);
                (rest, end)
            } else {
                let v: Vec<String> = Vec::new();
                assert(texts(v@) =~= Seq::<Seq<char>>::empty());
                (v, i)
            }
        },
        None => {
            let v: Vec<String> = Vec::new();
            assert(texts(v@) =~= Seq::<Seq<char>>::empty());
            (v, i)
        },
    }
}

/// Reads segments each followed by an optional separator.
fn read_dir_list_opt(cs: &Vec<char>, i: usize) -> (r: (Vec<String>, usize))
    requires
        i <= cs@.len(),
    ensures
        dir_list_opt(cs@, i as int) == (texts(r.0@), r.1 as int),
        r.1 <= cs@.len(),
    decreases cs@.len() - i,
{
    match read_segment(cs, i) {
        Some(e) => {
            let seg = string_from_range(cs, i, e);
            if e < cs.len() && is_sep_char(cs[e], true) {
                let (mut rest, end) = read_dir_list_opt(cs, e + 1);
                rest.insert(0, seg);
                assert(texts(rest@) =~= seq![cs@.subrange(i as int, e as int)] + dir_list_opt(cs@, e + 1).0);
                (rest, end)
            } else {
                let mut v: Vec<String> = Vec::new();
                v.push(seg);
                assert(texts(v@) =~= seq![cs@.subrange(i as int, e as int)]);
                (v, e)
            }
        },
        None => {
            let v: Vec<String> = Vec::new();
            assert(texts(v@) =~= Seq::<Seq<char>>::empty());
            (v, i)
        },
    }
}

/// Reads a filename pattern.
fn read_wildcard(cs: &Vec<char>, i: usize) -> (r: (FilenameWildcard, usize))
    requires
        i <= cs@.len(),
    ensures
        wildcard_at(cs@, i as int) == (r.0@, r.1 as int),
        r.1 <= cs@.len(),
{
    if i < cs.len() && cs[i] == '~' {
        match read_segment(cs, i + 1) {
            Some(e) => {
                let mut ext = String::new();
                string_push(&mut ext, '.');
                let body = string_from_range(cs, i + 1, e);
                ext.append(body.as_str());
                return (FilenameWildcard::Extension(ext), e);
            },
            None => {},
        }
    }
    match read_segment(cs, i) {
        Some(e) => (FilenameWildcard::Exact(string_from_range(cs, i, e)), e),
        None => (FilenameWildcard::All, i),
    }
}

fn read_range(cs: &Vec<char>, i: usize) -> (r: Option<(RangeDepotWildcard, usize)>)
    requires
        i <= cs@.len(),
    ensures
        match r {
            Some((v, e)) => range_at(cs@, i as int) == Some((v@, e as int)) && e <= cs@.len(),
            None => range_at(cs@, i as int).is_none(),
        },
{
    if !has_text_at(cs, i, &lit_dslash()) {
        return None;
    }
    let (dirs, j) = read_dir_list(cs, i + 2, false);
    let recursive = has_text_at(cs, j, &lit_dots());
    let k = if recursive { j + 3 } else { j };
    let (wildcard, m) = read_wildcard(cs, k);
    Some((RangeDepotWildcard { dirs, recursive, wildcard }, m))
}

fn read_depot_path(cs: &Vec<char>, i: usize) -> (r: Option<(DepotPath, usize)>)
    requires
        i <= cs@.len(),
    ensures
        match r {
            Some((v, e)) => depot_path_at(cs@, i as int) == Some((v@, e as int)) && e <= cs@.len(),
            None => depot_path_at(cs@, i as int).is_none(),
        },
{
    if !has_text_at(cs, i, &lit_dslash()) {
        return None;
    }
    match read_seg_list(cs, i + 2, false) {
        Some((mut segs, j)) => {
            proof { lemma_seg_list_nonempty(cs@, i + 2, false); }
            let file = segs.pop().unwrap();
            proof {
                assert(texts(segs@) =~= seg_list(cs@, i + 2, false).unwrap().0.drop_last());
            }
            Some((DepotPath { dirs: segs, file }, j))
        },
        None => None,
    }
}

pub proof fn lemma_dir_list_opt_bounds(s: Seq<char>, i: int)
    requires
        0 <= i <= s.len(),
    ensures
        i <= dir_list_opt(s, i).1 <= s.len(),
    decreases s.len() - i,
{
    lemma_segment_end_bounds(s, i);
    match segment_end(s, i) {
        Some(e) => if i < e < s.len() && is_sep(s[e], true) {
            lemma_dir_list_opt_bounds(s, e + 1);
        },
        None => {},
    }
}

pub proof fn lemma_seg_list_nonempty(s: Seq<char>, i: int, both: bool)
    ensures
        seg_list(s, i, both) matches Some((segs, _)) ==> segs.len() >= 1,
    decreases s.len() - i,
{
    match segment_end(s, i) {
        None => {},
        Some(e) => if i < e < s.len() && is_sep(s[e], both) && segment_end(s, e + 1) is Some {
            lemma_seg_list_nonempty(s, e + 1, both);
        },
    }
}

fn read_line_end(cs: &Vec<char>, i: usize) -> (e: usize)
    requires
        i <= cs@.len(),
    ensures
        e == line_end(cs@, i as int),
{
    let mut j = i;
    while j < cs.len() && cs[j] != '\n' && cs[j] != '\r'
        invariant
            i <= j <= cs@.len(),
            line_end(cs@, i as int) == line_end(cs@, j as int),
        decreases cs@.len() - j,
    {
        j = j + 1;
    }
    j
}

fn read_depot_wildcard(cs: &Vec<char>, i: usize) -> (r: Option<(DepotPathWildcard, usize)>)
    requires
        i <= cs@.len(),
    ensures
        match r {
            Some((v, e)) => depot_wildcard_at(cs@, i as int) == Some((v@, e as int)) && e <= cs@.len(),
            None => depot_wildcard_at(cs@, i as int).is_none(),
        },
{
    if has_text_at(cs, i, &lit_dslash()) {
        match read_range(cs, i) {
            Some((r, j)) => Some((DepotPathWildcard::Range(r), j)),
            None => None,
        }
    } else if has_text_at(cs, i, &lit_regex_prefix()) {
        let e = read_line_end(cs, i + 4);
        proof { lemma_line_end_bounds(cs@, i + 4); }
        Some((DepotPathWildcard::Regex(RegexDepotWildcard { pattern: string_from_range(cs, i + 4, e) }), e))
    } else {
        None
    }
}

fn read_root(cs: &Vec<char>, i: usize) -> (r: Option<(Vec<String>, usize)>)
    requires
        i <= cs@.len(),
    ensures
        match r {
            Some((v, e)) => root_at(cs@, i as int) == Some((texts(v@), e as int)) && e <= cs@.len(),
            None => root_at(cs@, i as int).is_none(),
        },
        cs@.len() <= usize::MAX,
{
    if cs.len() >= 3 && i < cs.len() - 2 && is_ascii_letter_char(cs[i]) && cs[i + 1] == ':' && is_sep_char(cs[i + 2], true) {
        let mut v: Vec<String> = Vec::new();
        let mut d = String::new();
        string_push(&mut d, cs[i]);
        v.push(d);
        assert(texts(v@) =~= seq![seq![cs@[i as int]]]);
        Some((v, i + 3))
    } else if i < cs.len() && cs[i] == '/' {
        let v: Vec<String> = Vec::new();
        assert(texts(v@) =~= Seq::<Seq<char>>::empty());
        Some((v, i + 1))
    } else {
        None
    }
}

fn read_local_path(cs: &Vec<char>, i: usize) -> (r: Option<(LocalPath, usize)>)
    requires
        i <= cs@.len(),
    ensures
        match r {
            Some((v, e)) => local_path_at(cs@, i as int) == Some((v@, e as int)) && i < e <= cs@.len(),
            None => local_path_at(cs@, i as int).is_none(),
        },
{
    let (mut drive, j) = match read_root(cs, i) {
        Some(x) => x,
        None => return None,
    };
    match read_seg_list(cs, j, true) {
        Some((mut segs, k)) => {
            if k < cs.len() && is_sep_char(cs[k], true) {
                return None;
            }
            proof {
                lemma_seg_list_nonempty(cs@, j as int, true);
                lemma_seg_list_text(cs@, j as int, true);
            }
            let file = segs.pop().unwrap();
            let ghost d0 = drive@;
            drive.append(&mut segs);
            proof {
                assert(texts(drive@) =~= texts(d0) + seg_list(cs@, j as int, true).unwrap().0.drop_last());
            }
            Some((LocalPath { dirs: LocalDir(drive), file }, k))
        },
        None => None,
    }
}

fn read_local_dir(cs: &Vec<char>, i: usize) -> (r: Option<(LocalDir, usize)>)
    requires
        i <= cs@.len(),
    ensures
        match r {
            Some((v, e)) => local_dir_at(cs@, i as int) == Some((v@, e as int)) && i < e <= cs@.len(),
            None => local_dir_at(cs@, i as int).is_none(),
        },
{
    let (mut drive, j) = match read_root(cs, i) {
        Some(x) => x,
        None => return None,
    };
    let (mut segs, k) = read_dir_list_opt(cs, j);
    proof { lemma_dir_list_opt_bounds(cs@, j as int); }
    let ghost d0 = drive@;
    let ghost s0 = segs@;
    drive.append(&mut segs);
    assert(texts(drive@) =~= texts(d0) + texts(s0));
    Some((LocalDir(drive), k))
}

fn read_local_wildcard(cs: &Vec<char>, i: usize) -> (r: Option<(LocalPathWildcard, usize)>)
    requires
        i <= cs@.len(),
    ensures
        match r {
            Some((v, e)) => local_wildcard_at(cs@, i as int) == Some((v@, e as int)) && e <= cs@.len(),
            None => local_wildcard_at(cs@, i as int).is_none(),
        },
{
    let (mut drive, j) = match read_root(cs, i) {
        Some(x) => x,
        None => return None,
    };
    let (mut dirs, k) = read_dir_list(cs, j, true);
    let recursive = has_text_at(cs, k, &lit_dots());
    let m = if recursive { k + 3 } else { k };
    let (wildcard, e) = read_wildcard(cs, m);
    let ghost d0 = drive@;
    let ghost s0 = dirs@;
    drive.append(&mut dirs);
    assert(texts(drive@) =~= texts(d0) + texts(s0));
    Some((LocalPathWildcard { dirs: LocalDir(drive), recursive, wildcard }, e))
}

fn read_workspace_path(cs: &Vec<char>, i: usize) -> (r: Option<(WorkspacePath, usize)>)
    requires
        i <= cs@.len(),
    ensures
        match r {
            Some((v, e)) => workspace_path_at(cs@, i as int) == Some((v@, e as int)) && e <= cs@.len(),
            None => workspace_path_at(cs@, i as int).is_none(),
        },
{
    if !has_text_at(cs, i, &lit_dslash()) {
        return None;
    }
    match read_seg_list(cs, i + 2, false) {
        Some((mut segs, j)) => {
            if segs.len() < 2 || (j < cs.len() && cs[j] == '/') {
                return None;
            }
            let ghost all = texts(segs@);
            let file = segs.pop().unwrap();
            let workspace_name = segs.remove(0);
            assert(texts(segs@) =~= all.subrange(1, all.len() - 1));
            Some((WorkspacePath { workspace_name, dirs: segs, file }, j))
        },
        None => None,
    }
}

fn read_workspace_dir(cs: &Vec<char>, i: usize) -> (r: Option<(WorkspaceDir, usize)>)
    requires
        i <= cs@.len(),
    ensures
        match r {
            Some((v, e)) => workspace_dir_at(cs@, i as int) == Some((v@, e as int)) && e <= cs@.len(),
            None => workspace_dir_at(cs@, i as int).is_none(),
        },
{
    if !has_text_at(cs, i, &lit_dslash()) {
        return None;
    }
    let (mut segs, j) = read_dir_list(cs, i + 2, false);
    if segs.len() < 1 || read_segment(cs, j).is_some() {
        return None;
    }
    let ghost all = texts(segs@);
    let workspace_name = segs.remove(0);
    assert(texts(segs@) =~= all.skip(1));
    Some((WorkspaceDir { workspace_name, dirs: segs }, j))
}

// ---------------------------------------------------------------------------
// Whole-text parsers.

/// The message of a syntax error met at position `at` of `cs`: what was
/// found there, and where.
pub open spec fn syntax_message(cs: Seq<char>, at: int) -> Seq<char> {
    if 0 <= at < cs.len() {
        "found '"@ + seq![cs[at]] + "' at "@ + decimal(at as nat)
    } else {
        "found end of input at "@ + decimal(at as nat)
    }
}

fn syntax_error(cs: &Vec<char>, at: usize) -> (e: PathError)
    ensures
        e matches PathError::SyntaxError(m) && m@ == syntax_message(cs@, at as int),
{
    let mut m: String;
    if at < cs.len() {
        m = String::from_str("found '");
        string_push(&mut m, cs[at]);
        string_push_str(&mut m, "' at ");
    } else {
        m = String::from_str("found end of input at ");
    }
    push_decimal(&mut m, at);
    PathError::SyntaxError(m)
}

/// Parses a depot file path `//dir/.../file`.
pub fn depot_path(input: &str) -> (res: PathResult<DepotPath>)
    ensures
        match res {
            Ok(p) => whole(depot_path_at(input@, 0), input@) == Some(p@),
            Err(e) => whole(depot_path_at(input@, 0), input@).is_none() && e is SyntaxError,
        },
{
    let cs = str_chars(input);
    match read_depot_path(&cs, 0) {
        Some((p, e)) => if e == cs.len() {
            Ok(p)
        } else {
            Err(syntax_error(&cs, e))
        },
        None => Err(syntax_error(&cs, 0)),
    }
}

/// Parses a local directory.
pub fn local_dir(input: &str) -> (res: PathResult<LocalDir>)
    ensures
        match res {
            Ok(p) => whole(local_dir_at(input@, 0), input@) == Some(p@),
            Err(e) => whole(local_dir_at(input@, 0), input@).is_none() && e is SyntaxError,
        },
{
    let cs = str_chars(input);
    match read_local_dir(&cs, 0) {
        Some((p, e)) => if e == cs.len() {
            Ok(p)
        } else {
            Err(syntax_error(&cs, e))
        },
        None => Err(syntax_error(&cs, 0)),
    }
}

/// Parses a local file path.
pub fn local_path(input: &str) -> (res: PathResult<LocalPath>)
    ensures
        match res {
            Ok(p) => whole(local_path_at(input@, 0), input@) == Some(p@),
            Err(e) => whole(local_path_at(input@, 0), input@).is_none() && e is SyntaxError,
        },
{
    let cs = str_chars(input);
    match read_local_path(&cs, 0) {
        Some((p, e)) => if e == cs.len() {
            Ok(p)
        } else {
            Err(syntax_error(&cs, e))
        },
        None => Err(syntax_error(&cs, 0)),
    }
}

/// Parses a local wildcard path.
pub fn local_path_wildcard(input: &str) -> (res: PathResult<LocalPathWildcard>)
    ensures
        match res {
            Ok(p) => whole(local_wildcard_at(input@, 0), input@) == Some(p@),
            Err(e) => whole(local_wildcard_at(input@, 0), input@).is_none() && e is SyntaxError,
        },
{
    let cs = str_chars(input);
    match read_local_wildcard(&cs, 0) {
        Some((p, e)) => if e == cs.len() {
            Ok(p)
        } else {
            Err(syntax_error(&cs, e))
        },
        None => Err(syntax_error(&cs, 0)),
    }
}

/// Parses a workspace file path.
pub fn workspace_path(input: &str) -> (res: PathResult<WorkspacePath>)
    ensures
        match res {
            Ok(p) => whole(workspace_path_at(input@, 0), input@) == Some(p@),
            Err(e) => whole(workspace_path_at(input@, 0), input@).is_none() && e is SyntaxError,
        },
{
    let cs = str_chars(input);
    match read_workspace_path(&cs, 0) {
        Some((p, e)) => if e == cs.len() {
            Ok(p)
        } else {
            Err(syntax_error(&cs, e))
        },
        None => Err(syntax_error(&cs, 0)),
    }
}

/// Parses a workspace directory.
pub fn workspace_dir(input: &str) -> (res: PathResult<WorkspaceDir>)
    ensures
        match res {
            Ok(p) => whole(workspace_dir_at(input@, 0), input@) == Some(p@),
            Err(e) => whole(workspace_dir_at(input@, 0), input@).is_none() && e is SyntaxError,
        },
{
    let cs = str_chars(input);
    match read_workspace_dir(&cs, 0) {
        Some((p, e)) => if e == cs.len() {
            Ok(p)
        } else {
            Err(syntax_error(&cs, e))
        },
        None => Err(syntax_error(&cs, 0)),
    }
}

/// Parses a depot wildcard: a range `//dir/...~ext` or a regex `r://pattern`.
/// A regex pattern must compile.
pub fn depot_path_wildcard(input: &str) -> (res: PathResult<DepotPathWildcard>)
    ensures
        match res {
            Ok(w) => whole(depot_wildcard_at(input@, 0), input@) == Some(w@)
                && (w@ matches DepotPathWildcardView::Regex(p) ==> regex_compiles(p)),
            Err(PathError::SyntaxError(_)) => whole(depot_wildcard_at(input@, 0), input@).is_none(),
            Err(PathError::RegexError(_)) => whole(depot_wildcard_at(input@, 0), input@) matches Some(
                DepotPathWildcardView::Regex(p),
            ) && !regex_compiles(p),
        },
{
    let cs = str_chars(input);
    let w = match read_depot_wildcard(&cs, 0) {
        Some((w, e)) => if e == cs.len() {
            w
        } else {
            return Err(syntax_error(&cs, e));
        },
        None => return Err(syntax_error(&cs, 0)),
    };
    match &w {
        DepotPathWildcard::Range(_) => {},
        DepotPathWildcard::Regex(regex) => {
            match check_regex(regex.pattern.as_str()) {
                Ok(()) => {},
                Err(message) => return Err(PathError::RegexError(message)),
            }
        },
    }
    Ok(w)
}

// ---------------------------------------------------------------------------
// Reading then writing gives back the text.

/// Segments joined by `/`.
pub open spec fn slash_join(segs: Seq<Seq<char>>) -> Seq<char> {
    dirs_text(segs.drop_last()) + segs.last()
}

pub proof fn lemma_dirs_text_prepend(a: Seq<char>, r: Seq<Seq<char>>)
    ensures
        dirs_text(seq![a] + r) == a + seq!['/'] + dirs_text(r),
    decreases r.len(),
{
    if r.len() == 0 {
        assert(seq![a] + r =~= seq![a]);
        assert(seq![a].drop_last() =~= Seq::<Seq<char>>::empty());
        assert(dirs_text(seq![a].drop_last()) =~= Seq::<char>::empty());
        assert(seq![a].last() == a);
        assert(dirs_text(seq![a]) =~= a + seq!['/']);
        assert(a + seq!['/'] + dirs_text(r) =~= a + seq!['/']);
    } else {
        lemma_dirs_text_prepend(a, r.drop_last());
        assert((seq![a] + r).drop_last() =~= seq![a] + r.drop_last());
        assert((seq![a] + r).last() == r.last());
        assert(dirs_text(seq![a] + r) =~= a + seq!['/'] + dirs_text(r.drop_last()) + r.last() + seq!['/']);
    }
}

pub proof fn lemma_seg_list_text(s: Seq<char>, i: int, both: bool)
    requires
        0 <= i <= s.len(),
    ensures
        seg_list(s, i, both) matches Some((segs, e)) ==> segs.len() >= 1 && i <= e <= s.len()
            && (!both ==> s.subrange(i, e) == slash_join(segs)),
    decreases s.len() - i,
{
    lemma_segment_end_bounds(s, i);
    match segment_end(s, i) {
        None => {},
        Some(e) => if i < e < s.len() && is_sep(s[e], both) && segment_end(s, e + 1) is Some {
            lemma_seg_list_text(s, e + 1, both);
            if let Some((rest, end)) = seg_list(s, e + 1, both) {
                let seg = s.subrange(i, e);
                if !both {
                    lemma_dirs_text_prepend(seg, rest.drop_last());
                    assert((seq![seg] + rest).drop_last() =~= seq![seg] + rest.drop_last());
                    assert(s.subrange(i, end) =~= seg + seq!['/'] + s.subrange(e + 1, end));
                }
            }
        } else {
            if !both {
                assert(seq![s.subrange(i, e)].drop_last() =~= Seq::<Seq<char>>::empty());
                assert(slash_join(seq![s.subrange(i, e)]) =~= s.subrange(i, e));
            }
        },
    }
}

pub proof fn lemma_dir_list_text(s: Seq<char>, i: int)
    requires
        0 <= i <= s.len(),
    ensures
        i <= dir_list(s, i, false).1 <= s.len(),
        s.subrange(i, dir_list(s, i, false).1) == dirs_text(dir_list(s, i, false).0),
    decreases s.len() - i,
{
    lemma_segment_end_bounds(s, i);
    match segment_end(s, i) {
        Some(e) => if i < e < s.len() && is_sep(s[e], false) {
            lemma_dir_list_text(s, e + 1);
            let (rest, end) = dir_list(s, e + 1, false);
            let seg = s.subrange(i, e);
            lemma_dirs_text_prepend(seg, rest);
            assert(s.subrange(i, end) =~= seg + seq!['/'] + s.subrange(e + 1, end));
        } else {
            assert(s.subrange(i, i) =~= Seq::<char>::empty());
        },
        None => {
            assert(s.subrange(i, i) =~= Seq::<char>::empty());
        },
    }
}

pub proof fn lemma_wildcard_text(s: Seq<char>, i: int)
    requires
        0 <= i <= s.len(),
    ensures
        i <= wildcard_at(s, i).1 <= s.len(),
        s.subrange(i, wildcard_at(s, i).1) == wildcard_text(wildcard_at(s, i).0),
        wildcard_renderable(wildcard_at(s, i).0),
{
    lemma_segment_end_bounds(s, i);
    if 0 <= i < s.len() && s[i] == '~' && segment_end(s, i + 1) is Some {
        lemma_segment_end_bounds(s, i + 1);
        let e = segment_end(s, i + 1).unwrap();
        let x = seq!['.'] + s.subrange(i + 1, e);
        assert(x.drop_first() =~= s.subrange(i + 1, e));
        assert(s.subrange(i, e) =~= seq!['~'] + s.subrange(i + 1, e));
    } else if segment_end(s, i) is Some {
    } else {
        assert(s.subrange(i, i) =~= Seq::<char>::empty());
    }
}

/// Reading a depot path from a text and writing it again gives the text back.
pub proof fn lemma_depot_path_roundtrip(s: Seq<char>)
    ensures
        whole(depot_path_at(s, 0), s) matches Some(p) ==> depot_path_text(p) == s,
{
    if let Some(p) = whole(depot_path_at(s, 0), s) {
        lemma_seg_list_text(s, 2, false);
        let segs = seg_list(s, 2, false).unwrap().0;
        assert(s =~= dslash() + s.subrange(2, s.len() as int));
    }
}

/// Reading a depot wildcard from a text and writing it again gives the text back.
pub proof fn lemma_depot_wildcard_roundtrip(s: Seq<char>)
    ensures
        whole(depot_wildcard_at(s, 0), s) matches Some(w) ==> depot_wildcard_text(w) == s && (
        w matches DepotPathWildcardView::Range(r) ==> wildcard_renderable(r.wildcard)),
{
    if let Some(w) = whole(depot_wildcard_at(s, 0), s) {
        if has_at(s, 0, dslash()) {
            lemma_dir_list_text(s, 2);
            let (dirs, j) = dir_list(s, 2, false);
            let recursive = has_at(s, j, dots());
            let k = if recursive { j + 3 } else { j };
            lemma_wildcard_text(s, k);
            let m = wildcard_at(s, k).1;
            assert(s =~= dslash() + s.subrange(2, j) + s.subrange(j, k) + s.subrange(k, m));
            if recursive {
                assert(s.subrange(j, k) =~= dots());
            } else {
                assert(s.subrange(j, k) =~= Seq::<char>::empty());
            }
        } else {
            lemma_line_end_bounds(s, 4);
            assert(s =~= regex_prefix() + s.subrange(4, s.len() as int));
        }
    }
}

// ---------------------------------------------------------------------------
// Parsing entry points of the path types.

impl DepotPath {
    /// Parses `//dir/.../file`.
    pub fn parse(path: &str) -> (res: PathResult<Self>)
        ensures
            match res {
                Ok(p) => whole(depot_path_at(path@, 0), path@) == Some(p@),
                Err(e) => whole(depot_path_at(path@, 0), path@).is_none() && e is SyntaxError,
            },
    {
        depot_path(path)
    }
}

impl DepotPathWildcard {
    /// Parses a range wildcard or a regex wildcard.
    pub fn parse(wildcard: &str) -> (res: PathResult<Self>)
        ensures
            match res {
                Ok(w) => whole(depot_wildcard_at(wildcard@, 0), wildcard@) == Some(w@)
                    && (w@ matches DepotPathWildcardView::Regex(p) ==> regex_compiles(p)),
                Err(PathError::SyntaxError(_)) => whole(depot_wildcard_at(wildcard@, 0), wildcard@).is_none(),
                Err(PathError::RegexError(_)) => whole(depot_wildcard_at(wildcard@, 0), wildcard@) matches Some(
                    DepotPathWildcardView::Regex(p),
                ) && !regex_compiles(p),
            },
    {
        depot_path_wildcard(wildcard)
    }
}

impl LocalDir {
    /// Parses an absolute local directory (Windows or Unix style).
    pub fn parse(path: &str) -> (res: PathResult<Self>)
        ensures
            match res {
                Ok(p) => whole(local_dir_at(path@, 0), path@) == Some(p@),
                Err(e) => whole(local_dir_at(path@, 0), path@).is_none() && e is SyntaxError,
            },
    {
        local_dir(path)
    }
}

impl LocalPath {
    /// Parses an absolute local file path, Windows style (`C:\...`, the drive
    /// letter kept first among the directories) or Unix style.
    pub fn parse(path: &str) -> (res: PathResult<Self>)
        ensures
            match res {
                Ok(p) => whole(local_path_at(path@, 0), path@) == Some(p@),
                Err(e) => whole(local_path_at(path@, 0), path@).is_none() && e is SyntaxError,
            },
    {
        local_path(path)
    }
}

impl LocalPathWildcard {
    /// Parses a local wildcard path.
    pub fn parse(wildcard: &str) -> (res: PathResult<Self>)
        ensures
            match res {
                Ok(p) => whole(local_wildcard_at(wildcard@, 0), wildcard@) == Some(p@),
                Err(e) => whole(local_wildcard_at(wildcard@, 0), wildcard@).is_none() && e is SyntaxError,
            },
    {
        local_path_wildcard(wildcard)
    }
}

impl WorkspacePath {
    /// Parses `//workspace/dir/.../file`.
    pub fn parse(path: &str) -> (res: PathResult<Self>)
        ensures
            match res {
                Ok(p) => whole(workspace_path_at(path@, 0), path@) == Some(p@),
                Err(e) => whole(workspace_path_at(path@, 0), path@).is_none() && e is SyntaxError,
            },
    {
        workspace_path(path)
    }
}

impl WorkspaceDir {
    /// Parses `//workspace/dir/.../`.
    pub fn parse(path: &str) -> (res: PathResult<Self>)
        ensures
            match res {
                Ok(p) => whole(workspace_dir_at(path@, 0), path@) == Some(p@),
                Err(e) => whole(workspace_dir_at(path@, 0), path@).is_none() && e is SyntaxError,
            },
    {
        workspace_dir(path)
    }
}

// ---------------------------------------------------------------------------
// Workspace mapping specifications.

/// Unicode white space (`char::is_whitespace`).
pub open spec fn is_white(c: char) -> bool {
    let u = c as u32;
    (0x9 <= u && u <= 0xD) || u == 0x20 || u == 0x85 || u == 0xA0 || u == 0x1680 || (0x2000 <= u
        && u <= 0x200A) || u == 0x2028 || u == 0x2029 || u == 0x202F || u == 0x205F || u == 0x3000
}

fn is_white_char(c: char) -> (r: bool)
    ensures
        r == is_white(c),
{
    let u = c as u32;
    (0x9 <= u && u <= 0xD) || u == 0x20 || u == 0x85 || u == 0xA0 || u == 0x1680 || (0x2000 <= u
        && u <= 0x200A) || u == 0x2028 || u == 0x2029 || u == 0x202F || u == 0x205F || u == 0x3000
}

/// The end of the white space from `i`.
pub open spec fn white_end(s: Seq<char>, i: int) -> int
    decreases s.len() - i,
{
    if 0 <= i < s.len() && is_white(s[i]) {
        white_end(s, i + 1)
    } else {
        i
    }
}

/// One mapping line read at `i`, before any padding:
/// - `-` and a depot wildcard: an exclusion;
/// - a depot file, white space and a local file: a file mapping;
/// - a range wildcard, white space and a local directory: a folder mapping.
/// The first form that reads wins.
pub enum MappingItem {
    Exclude(DepotPathWildcardView),
    File(DepotPathView, LocalPathView),
    Folder(RangeDepotWildcardView, Seq<Seq<char>>),
}

pub open spec fn exclude_item_at(s: Seq<char>, i: int) -> Option<(MappingItem, int)> {
    if 0 <= i < s.len() && s[i] == '-' {
        match depot_wildcard_at(s, i + 1) {
            Some((w, e)) => Some((MappingItem::Exclude(w), e)),
            None => None,
        }
    } else {
        None
    }
}

pub open spec fn file_item_at(s: Seq<char>, i: int) -> Option<(MappingItem, int)> {
    match depot_path_at(s, i) {
        Some((d, j)) => {
            let k = white_end(s, j);
            if k > j {
                match local_path_at(s, k) {
                    Some((l, e)) => Some((MappingItem::File(d, l), e)),
                    None => None,
                }
            } else {
                None
            }
        },
        None => None,
    }
}

pub open spec fn folder_item_at(s: Seq<char>, i: int) -> Option<(MappingItem, int)> {
    match range_at(s, i) {
        Some((d, j)) => {
            let k = white_end(s, j);
            if k > j {
                match local_dir_at(s, k) {
                    Some((l, e)) => Some((MappingItem::Folder(d, l), e)),
                    None => None,
                }
            } else {
                None
            }
        },
        None => None,
    }
}

pub open spec fn mapping_item_at(s: Seq<char>, i: int) -> Option<(MappingItem, int)> {
    if exclude_item_at(s, i) is Some {
        exclude_item_at(s, i)
    } else if file_item_at(s, i) is Some {
        file_item_at(s, i)
    } else {
        folder_item_at(s, i)
    }
}

/// Mapping items from `i`, each with white space around it, as many as read;
/// and the position after the last.
pub open spec fn mapping_items(s: Seq<char>, i: int) -> (Seq<MappingItem>, int)
    decreases s.len() - i,
{
    let p = white_end(s, i);
    match mapping_item_at(s, p) {
        Some((m, q)) => {
            let r = white_end(s, q);
            if i < r <= s.len() {
                let (rest, end) = mapping_items(s, r);
                (seq![m] + rest, end)
            } else {
                (seq![m], r)
            }
        },
        None => (Seq::empty(), i),
    }
}

/// The mapping items of a whole specification text, when all of it reads.
pub open spec fn mapping_spec(s: Seq<char>) -> Option<Seq<MappingItem>> {
    let (items, e) = mapping_items(s, 0);
    if e == s.len() {
        Some(items)
    } else {
        None
    }
}

pub proof fn lemma_white_end_bounds(s: Seq<char>, i: int)
    requires
        0 <= i <= s.len(),
    ensures
        i <= white_end(s, i) <= s.len(),
    decreases s.len() - i,
{
    if 0 <= i < s.len() && is_white(s[i]) {
        lemma_white_end_bounds(s, i + 1);
    }
}

fn read_white(cs: &Vec<char>, i: usize) -> (e: usize)
    requires
        i <= cs@.len(),
    ensures
        e == white_end(cs@, i as int),
        i <= e <= cs@.len(),
{
    let mut j = i;
    while j < cs.len() && is_white_char(cs[j])
        invariant
            i <= j <= cs@.len(),
            white_end(cs@, i as int) == white_end(cs@, j as int),
        decreases cs@.len() - j,
    {
        j = j + 1;
    }
    j
}

/// A mapping line as read, before it is tied to a workspace root.
pub enum ReadMapping {
    Exclude(DepotPathWildcard),
    File(DepotPath, LocalPath),
    Folder(RangeDepotWildcard, LocalDir),
}

impl View for ReadMapping {
    type V = MappingItem;

    open spec fn view(&self) -> MappingItem {
        match self {
            ReadMapping::Exclude(w) => MappingItem::Exclude(w@),
            ReadMapping::File(d, l) => MappingItem::File(d@, l@),
            ReadMapping::Folder(d, l) => MappingItem::Folder(d@, l@),
        }
    }
}

fn read_exclude_item(cs: &Vec<char>, i: usize) -> (r: Option<(ReadMapping, usize)>)
    requires
        i <= cs@.len(),
    ensures
        match r {
            Some((m, e)) => exclude_item_at(cs@, i as int) == Some((m@, e as int)) && i < e <= cs@.len(),
            None => exclude_item_at(cs@, i as int).is_none(),
        },
{
    let n = cs.len();
    if i < n && cs[i] == '-' {
        match read_depot_wildcard(cs, i + 1) {
            Some((w, e)) => {
                proof { lemma_depot_wildcard_progress(cs@, i + 1); }
                Some((ReadMapping::Exclude(w), e))
            },
            None => None,
        }
    } else {
        None
    }
}

fn read_file_item(cs: &Vec<char>, i: usize) -> (r: Option<(ReadMapping, usize)>)
    requires
        i <= cs@.len(),
    ensures
        match r {
            Some((m, e)) => file_item_at(cs@, i as int) == Some((m@, e as int)) && i < e <= cs@.len(),
            None => file_item_at(cs@, i as int).is_none(),
        },
{
    match read_depot_path(cs, i) {
        Some((d, j)) => {
            let k = read_white(cs, j);
            if k > j {
                match read_local_path(cs, k) {
                    Some((l, e)) => {
                        proof { lemma_depot_path_progress(cs@, i as int); }
                        Some((ReadMapping::File(d, l), e))
                    },
                    None => None,
                }
            } else {
                None
            }
        },
        None => None,
    }
}

fn read_folder_item(cs: &Vec<char>, i: usize) -> (r: Option<(ReadMapping, usize)>)
    requires
        i <= cs@.len(),
    ensures
        match r {
            Some((m, e)) => folder_item_at(cs@, i as int) == Some((m@, e as int)) && i < e <= cs@.len(),
            None => folder_item_at(cs@, i as int).is_none(),
        },
{
    match read_range(cs, i) {
        Some((d, j)) => {
            let k = read_white(cs, j);
            if k > j {
                match read_local_dir(cs, k) {
                    Some((l, e)) => {
                        proof { lemma_range_progress(cs@, i as int); }
                        Some((ReadMapping::Folder(d, l), e))
                    },
                    None => None,
                }
            } else {
                None
            }
        },
        None => None,
    }
}

fn read_mapping_item(cs: &Vec<char>, i: usize) -> (r: Option<(ReadMapping, usize)>)
    requires
        i <= cs@.len(),
    ensures
        match r {
            Some((m, e)) => mapping_item_at(cs@, i as int) == Some((m@, e as int)) && i < e <= cs@.len(),
            None => mapping_item_at(cs@, i as int).is_none(),
        },
{
    match read_exclude_item(cs, i) {
        Some(x) => return Some(x),
        None => {},
    }
    match read_file_item(cs, i) {
        Some(x) => return Some(x),
        None => {},
    }
    read_folder_item(cs, i)
}

pub proof fn lemma_range_progress(s: Seq<char>, i: int)
    requires
        0 <= i <= s.len(),
    ensures
        range_at(s, i) matches Some((_, e)) ==> i + 2 <= e <= s.len(),
{
    if has_at(s, i, dslash()) {
        lemma_dir_list_text(s, i + 2);
        let (dirs, j) = dir_list(s, i + 2, false);
        let recursive = has_at(s, j, dots());
        let k = if recursive { j + 3 } else { j };
        lemma_wildcard_text(s, k);
    }
}

pub proof fn lemma_depot_path_progress(s: Seq<char>, i: int)
    requires
        0 <= i <= s.len(),
    ensures
        depot_path_at(s, i) matches Some((_, e)) ==> i + 2 <= e <= s.len(),
{
    if has_at(s, i, dslash()) {
        lemma_seg_list_text(s, i + 2, false);
    }
}

pub proof fn lemma_depot_wildcard_progress(s: Seq<char>, i: int)
    requires
        0 <= i <= s.len(),
    ensures
        depot_wildcard_at(s, i) matches Some((_, e)) ==> i <= e <= s.len(),
{
    if has_at(s, i, dslash()) {
        lemma_range_progress(s, i);
    } else if has_at(s, i, regex_prefix()) {
        lemma_line_end_bounds(s, i + 4);
    }
}

fn read_mapping_items(cs: &Vec<char>, i: usize) -> (r: (Vec<ReadMapping>, usize))
    requires
        i <= cs@.len(),
    ensures
        mapping_items(cs@, i as int) == (r.0@.map_values(|m: ReadMapping| m@), r.1 as int),
        r.1 <= cs@.len(),
    decreases cs@.len() - i,
{
    let p = read_white(cs, i);
    match read_mapping_item(cs, p) {
        Some((m, q)) => {
            let r = read_white(cs, q);
            if i < r {
                let (mut rest, end) = read_mapping_items(cs, r);
                let ghost rest0 = rest@;
                rest.insert(0, m);
                assert(rest@.map_values(|m: ReadMapping| m@) =~= seq![m@] + rest0.map_values(|m: ReadMapping| m@));
                (rest, end)
            } else {
                let mut v: Vec<ReadMapping> = Vec::new();
                v.push(m);
                assert(v@.map_values(|m: ReadMapping| m@) =~= seq![m@]);
                (v, r)
            }
        },
        None => {
            let v: Vec<ReadMapping> = Vec::new();
            assert(v@.map_values(|m: ReadMapping| m@) =~= Seq::<MappingItem>::empty());
            (v, i)
        },
    }
}

/// Reads all the mapping lines of a workspace specification; `None` when
/// some of the text does not read.
pub fn read_mappings(input: &str) -> (r: Option<Vec<ReadMapping>>)
    ensures
        match r {
            Some(v) => mapping_spec(input@) == Some(v@.map_values(|m: ReadMapping| m@)),
            None => mapping_spec(input@).is_none(),
        },
{
    let cs = str_chars(input);
    let (items, e) = read_mapping_items(&cs, 0);
    if e == cs.len() {
        Some(items)
    } else {
        None
    }
}

} // verus!
