//! Mapping conflict detection between server (depot) paths and local paths.
//!
//! Given mappings from server paths to local paths, later mappings taking
//! precedence, a conflict is a local path that two server paths reach: for
//! each mapping, the mappings that can still reach its local path are
//! counted by filename filter; a filter reached twice, or "all files"
//! reached beside any other filter, is a conflict.
//!
//! A path ending in `/` is a folder, any other a file.
use vstd::prelude::*;
use crate::text::{copy_string, ends_with, starts_with, str_chars, string_eq, string_push_str, text_ends_with, text_starts_with};

verus! {

/// Errors of conflict detection.
#[derive(Debug, Clone, PartialEq, Eq)]
pub enum ConflictError {
    /// Several server paths map to this local path.
    PathConflict(String),
}

pub type ConflictResult<T> = Result<T, ConflictError>;

/// Filename filter of a mapping.
#[derive(Debug, Clone, PartialEq, Eq, Hash)]
pub enum FilenameFilter {
    /// Every file.
    All,
    /// Files with this suffix (such as `"png"`).
    Extension(String),
}

impl View for FilenameFilter {
    type V = Option<Seq<char>>;

    /// `None` for every file, the suffix otherwise.
    open spec fn view(&self) -> Option<Seq<char>> {
        match self {
            FilenameFilter::All => None,
            FilenameFilter::Extension(e) => Some(e@),
        }
    }
}

/// Whether a file name meets a filter: every name meets "all files", and a
/// name meets a suffix filter when it ends with the suffix.
pub open spec fn name_meets(name: Seq<char>, f: Option<Seq<char>>) -> bool {
    match f {
        None => true,
        Some(e) => ends_with(name, e),
    }
}

/// Two filters can be met by one file: either admits every file, or one
/// suffix ends the other.
pub open spec fn filters_compatible(a: Option<Seq<char>>, b: Option<Seq<char>>) -> bool {
    match (a, b) {
        (Some(x), Some(y)) => ends_with(x, y) || ends_with(y, x),
        _ => true,
    }
}

/// Two filters are compatible exactly when some file name meets both.
pub proof fn lemma_filters_compatible_iff_common_name(a: Option<Seq<char>>, b: Option<Seq<char>>)
    ensures
        filters_compatible(a, b) <==> exists|n: Seq<char>| name_meets(n, a) && #[trigger] name_meets(n, b),
{
    match (a, b) {
        (Some(x), Some(y)) => {
            assert(x.subrange(0, x.len() as int) =~= x);
            assert(y.subrange(0, y.len() as int) =~= y);
            if ends_with(x, y) {
                assert(name_meets(x, a) && name_meets(x, b));
            } else if ends_with(y, x) {
                assert(name_meets(y, a) && name_meets(y, b));
            }
            if exists|n: Seq<char>| name_meets(n, a) && #[trigger] name_meets(n, b) {
                let n = choose|n: Seq<char>| name_meets(n, a) && #[trigger] name_meets(n, b);
                if x.len() <= y.len() {
                    assert forall|i: int| 0 <= i < x.len() implies y[y.len() - x.len() + i] == x[i] by {
                        assert(n.subrange(n.len() - x.len(), n.len() as int)[i] == x[i]);
                        assert(n.subrange(n.len() - y.len(), n.len() as int)[y.len() - x.len() + i] == y[y.len() - x.len() + i]);
                        assert(y[y.len() - x.len() + i] == n[n.len() - x.len() + i]);
                        assert(x[i] == n[n.len() - x.len() + i]);
                    }
                    assert(y.subrange(y.len() - x.len(), y.len() as int) =~= x);
                } else {
                    assert forall|i: int| 0 <= i < y.len() implies x[x.len() - y.len() + i] == y[i] by {
                        assert(n.subrange(n.len() - y.len(), n.len() as int)[i] == y[i]);
                        assert(n.subrange(n.len() - x.len(), n.len() as int)[x.len() - y.len() + i] == x[x.len() - y.len() + i]);
                        assert(x[x.len() - y.len() + i] == n[n.len() - y.len() + i]);
                        assert(y[i] == n[n.len() - y.len() + i]);
                    }
                    assert(x.subrange(x.len() - y.len(), x.len() as int) =~= y);
                }
            }
        },
        (None, _) => {
            match b {
                None => { assert(name_meets(Seq::<char>::empty(), a) && name_meets(Seq::<char>::empty(), b)); },
                Some(y) => {
                    assert(y.subrange(0, y.len() as int) =~= y);
                    assert(name_meets(y, a) && name_meets(y, b));
                },
            }
        },
        (Some(x), None) => {
            assert(x.subrange(0, x.len() as int) =~= x);
            assert(name_meets(x, a) && name_meets(x, b));
        },
    }
}

impl FilenameFilter {
    /// Whether some file can meet both filters.
    pub fn is_compatible_with(&self, other: &FilenameFilter) -> (r: bool)
        ensures
            r == filters_compatible(self@, other@),
    {
        match (self, other) {
            (FilenameFilter::All, _) | (_, FilenameFilter::All) => true,
            (FilenameFilter::Extension(ext1), FilenameFilter::Extension(ext2)) => text_ends_with(ext1, ext2)
                || text_ends_with(ext2, ext1),
        }
    }

    fn copy(&self) -> (r: FilenameFilter)
        ensures
            r@ == self@,
    {
        match self {
            FilenameFilter::All => FilenameFilter::All,
            FilenameFilter::Extension(e) => FilenameFilter::Extension(copy_string(e)),
        }
    }
}

/// A mapping from a server path to a local path.
#[derive(Debug, Clone)]
pub struct PathMapping {
    /// Server path, such as `"a/b/"` or `"a/b/file.txt"`.
    pub server_path: String,
    /// Local path, such as `"local/x/"` or `"local/x/file.txt"`.
    pub local_path: String,
    /// When false, only direct children are mapped.
    pub recursive: bool,
    /// Filename filter.
    pub filename_filter: FilenameFilter,
}

pub struct PathMappingView {
    pub server_path: Seq<char>,
    pub local_path: Seq<char>,
    pub recursive: bool,
    pub filter: Option<Seq<char>>,
}

impl View for PathMapping {
    type V = PathMappingView;

    open spec fn view(&self) -> PathMappingView {
        PathMappingView {
            server_path: self.server_path@,
            local_path: self.local_path@,
            recursive: self.recursive,
            filter: self.filename_filter@,
        }
    }
}

/// A local path that names a file: one that does not end in `/`.
pub open spec fn is_file_path(p: Seq<char>) -> bool {
    !ends_with(p, seq!['/'])
}

impl PathMapping {
    pub fn new(server_path: String, local_path: String, recursive: bool, filename_filter: FilenameFilter) -> (r: Self)
        ensures
            r@ == (PathMappingView { server_path: server_path@, local_path: local_path@, recursive, filter: filename_filter@ }),
    {
        Self { server_path, local_path, recursive, filename_filter }
    }

    /// Whether the local side names a file (does not end in `/`).
    pub fn is_file_mapping(&self) -> (r: bool)
        ensures
            r == is_file_path(self@.local_path),
    {
        let slash = String::from_str("/");
        proof { reveal_strlit("/"); }
        assert(slash@ =~= seq!['/']);
        !text_ends_with(&self.local_path, &slash)
    }

    /// A recursive mapping for every file.
    pub fn from_strings(server_path: &str, local_path: &str) -> (r: Self)
        ensures
            r@ == (PathMappingView { server_path: server_path@, local_path: local_path@, recursive: true, filter: None }),
    {
        Self::new(String::from_str(server_path), String::from_str(local_path), true, FilenameFilter::All)
    }

    /// A mapping with the given recursion and filter.
    pub fn from_strings_with_params(server_path: &str, local_path: &str, recursive: bool, filename_filter: FilenameFilter) -> (r: Self)
        ensures
            r@ == (PathMappingView { server_path: server_path@, local_path: local_path@, recursive, filter: filename_filter@ }),
    {
        Self::new(String::from_str(server_path), String::from_str(local_path), recursive, filename_filter)
    }
}

/// Position of the last `/` in `p`, if any.
pub open spec fn last_slash(p: Seq<char>, n: int) -> int
    decreases n,
{
    if n <= 0 {
        -1
    } else if p[n - 1] == '/' {
        n - 1
    } else {
        last_slash(p, n - 1)
    }
}

/// The part of `p` after its last `/`.
pub open spec fn file_name_of(p: Seq<char>) -> Seq<char> {
    p.skip(last_slash(p, p.len() as int) + 1)
}

/// `p` holds a `/`.
pub open spec fn has_slash(p: Seq<char>) -> bool {
    exists|k: int| 0 <= k < p.len() && p[k] == '/'
}

/// A filename meets a filter.
pub open spec fn filter_matches(name: Seq<char>, f: Option<Seq<char>>) -> bool {
    match f {
        None => true,
        Some(ext) => ends_with(name, ext),
    }
}

/// Whether a mapping's server path reaches an actual server path: it is a
/// prefix of it; without recursion, what follows holds no `/` for a file and
/// is empty for a folder; and a file's name meets the filter.
pub open spec fn server_reach(msp: Seq<char>, asp: Seq<char>, f: Option<Seq<char>>, recursive: bool, is_file: bool) -> bool {
    &&& starts_with(asp, msp)
    &&& (!recursive ==> if is_file {
        !has_slash(asp.skip(msp.len() as int))
    } else {
        asp.skip(msp.len() as int).len() == 0
    })
    &&& (is_file ==> filter_matches(file_name_of(asp), f))
}

/// Whether mapping `idx` reaches local path `lp`: its local path is a prefix
/// of `lp`, its server path reaches the corresponding server path, and no
/// later mapping with a compatible filter reaches that server path from `lp`.
pub open spec fn mapping_reach(ms: Seq<PathMappingView>, idx: int, lp: Seq<char>, is_file: bool) -> bool {
    let m = ms[idx];
    let sp = m.server_path + lp.skip(m.local_path.len() as int);
    &&& starts_with(lp, m.local_path)
    &&& server_reach(m.server_path, sp, m.filter, m.recursive, is_file)
    &&& !exists|h: int| #![trigger ms[h]] idx < h < ms.len() && starts_with(lp, ms[h].local_path)
        && server_reach(ms[h].server_path, sp, ms[h].filter, ms[h].recursive, is_file)
        && filters_compatible(m.filter, ms[h].filter)
}

/// How many of the first `n` mappings reach `lp` with filter `f`.
pub open spec fn reach_count(ms: Seq<PathMappingView>, lp: Seq<char>, is_file: bool, f: Option<Seq<char>>, n: int) -> nat
    decreases n,
{
    if n <= 0 {
        0
    } else {
        reach_count(ms, lp, is_file, f, n - 1) + if mapping_reach(ms, n - 1, lp, is_file) && ms[n - 1].filter == f {
            1nat
        } else {
            0nat
        }
    }
}

/// A conflict at `lp`: some filter is reached twice, or every-file is
/// reached beside another filter.
pub open spec fn conflict_at(ms: Seq<PathMappingView>, lp: Seq<char>, is_file: bool) -> bool {
    let n = ms.len() as int;
    ||| exists|f: Option<Seq<char>>| #[trigger] reach_count(ms, lp, is_file, f, n) > 1
    ||| reach_count(ms, lp, is_file, None, n) >= 1 && exists|x: Seq<char>| #[trigger] reach_count(ms, lp, is_file, Some(x), n) >= 1
}

/// Filter counts: distinct filters each with a positive count.
pub open spec fn counts_describe(v: Seq<(FilenameFilter, usize)>, ms: Seq<PathMappingView>, lp: Seq<char>, is_file: bool, n: int) -> bool {
    &&& forall|a: int, b: int| 0 <= a < b < v.len() ==> (#[trigger] v[a]).0@ != (#[trigger] v[b]).0@
    &&& forall|k: int| 0 <= k < v.len() ==> (#[trigger] v[k]).1 == reach_count(ms, lp, is_file, v[k].0@, n) && v[k].1 >= 1
    &&& forall|f: Option<Seq<char>>| #[trigger] reach_count(ms, lp, is_file, f, n) >= 1 ==> exists|k: int| 0 <= k < v.len() && (#[trigger] v[k]).0@ == f
}

/// Filter counts agree with the counting function `g`: distinct filters,
/// each with its count, every filter that `g` counts present.
pub open spec fn counts_match(v: Seq<(FilenameFilter, usize)>, g: spec_fn(Option<Seq<char>>) -> nat) -> bool {
    &&& forall|a: int, b: int| 0 <= a < b < v.len() ==> (#[trigger] v[a]).0@ != (#[trigger] v[b]).0@
    &&& forall|k: int| 0 <= k < v.len() ==> (#[trigger] v[k]).1 == g(v[k].0@) && v[k].1 >= 1
    &&& forall|f: Option<Seq<char>>| #[trigger] g(f) >= 1 ==> exists|k: int| 0 <= k < v.len() && (#[trigger] v[k]).0@ == f
}

proof fn lemma_counts_match_ext(v: Seq<(FilenameFilter, usize)>, g1: spec_fn(Option<Seq<char>>) -> nat, g2: spec_fn(Option<Seq<char>>) -> nat)
    requires
        counts_match(v, g1),
        forall|f: Option<Seq<char>>| #[trigger] g1(f) == g2(f),
    ensures
        counts_match(v, g2),
{
    assert forall|f: Option<Seq<char>>| #[trigger] g2(f) >= 1 implies exists|k: int| 0 <= k < v.len() && (#[trigger] v[k]).0@ == f by {
        assert(g1(f) >= 1);
    }
}

/// `g` with one more for `fi`.
pub open spec fn plus_one(g: spec_fn(Option<Seq<char>>) -> nat, fi: Option<Seq<char>>) -> spec_fn(Option<Seq<char>>) -> nat {
    |f: Option<Seq<char>>| g(f) + if f == fi { 1nat } else { 0nat }
}

/// Adds one to the count of `filt`, or records it with a count of one.
fn bump(counts: &mut Vec<(FilenameFilter, usize)>, filt: &FilenameFilter, Ghost(g): Ghost<spec_fn(Option<Seq<char>>) -> nat>)
    requires
        counts_match(old(counts)@, g),
        g(filt@) < usize::MAX,
    ensures
        counts_match(final(counts)@, plus_one(g, filt@)),
{
    let ghost c0 = counts@;
    let ghost fi = filt@;
    let ghost g2 = plus_one(g, fi);
    let mut k: usize = 0;
    let mut found = false;
    while k < counts.len()
        invariant_except_break
            !found,
        invariant
            counts@ == c0,
            fi == filt@,
            k <= counts@.len(),
            forall|m: int| 0 <= m < k ==> (#[trigger] counts@[m]).0@ != fi,
        ensures
            counts@ == c0,
            found ==> k < counts@.len() && counts@[k as int].0@ == fi,
            !found ==> forall|m: int| 0 <= m < counts@.len() ==> (#[trigger] counts@[m]).0@ != fi,
        decreases counts@.len() - k,
    {
        if same_filter(&counts[k].0, filt) {
            found = true;
            break;
        }
        k = k + 1;
    }
    if found {
        let (f, c) = counts.remove(k);
        counts.insert(k, (f, c + 1));
        assert forall|a: int, b: int| 0 <= a < b < counts@.len() implies (#[trigger] counts@[a]).0@ != (#[trigger] counts@[b]).0@ by {
            assert(counts@[a].0@ == c0[a].0@);
            assert(counts@[b].0@ == c0[b].0@);
        }
        assert forall|m: int| 0 <= m < counts@.len() implies (#[trigger] counts@[m]).1 == g2(counts@[m].0@) && counts@[m].1 >= 1 by {
            if m != k {
                assert(counts@[m] == c0[m]);
            }
        }
        assert forall|f: Option<Seq<char>>| #[trigger] g2(f) >= 1 implies exists|m: int| 0 <= m < counts@.len() && (#[trigger] counts@[m]).0@ == f by {
            if f == fi {
                assert(counts@[k as int].0@ == f);
            } else {
                assert(g(f) >= 1);
                let m = choose|m: int| 0 <= m < c0.len() && (#[trigger] c0[m]).0@ == f;
                assert(counts@[m].0@ == f);
            }
        }
    } else {
        assert(g(fi) == 0) by {
            if g(fi) >= 1 {
                let m = choose|m: int| 0 <= m < c0.len() && (#[trigger] c0[m]).0@ == fi;
            }
        }
        counts.push((filt.copy(), 1));
        assert forall|a: int, b: int| 0 <= a < b < counts@.len() implies (#[trigger] counts@[a]).0@ != (#[trigger] counts@[b]).0@ by {
            assert(counts@[a] == c0[a]);
            if b < c0.len() {
                assert(counts@[b] == c0[b]);
            }
        }
        assert forall|m: int| 0 <= m < counts@.len() implies (#[trigger] counts@[m]).1 == g2(counts@[m].0@) && counts@[m].1 >= 1 by {
            if m < c0.len() {
                assert(counts@[m] == c0[m]);
            }
        }
        assert forall|f: Option<Seq<char>>| #[trigger] g2(f) >= 1 implies exists|m: int| 0 <= m < counts@.len() && (#[trigger] counts@[m]).0@ == f by {
            if f == fi {
                assert(counts@[c0.len() as int].0@ == f);
            } else {
                assert(g(f) >= 1);
                let m = choose|m: int| 0 <= m < c0.len() && (#[trigger] c0[m]).0@ == f;
                assert(counts@[m] == c0[m]);
            }
        }
    }
}

/// The first mapping whose local path is in conflict.
pub open spec fn first_conflict(ms: Seq<PathMappingView>, n: int) -> Option<int>
    decreases n,
{
    if n <= 0 {
        None
    } else {
        match first_conflict(ms, n - 1) {
            Some(k) => Some(k),
            None => if conflict_at(ms, ms[n - 1].local_path, is_file_path(ms[n - 1].local_path)) {
                Some(n - 1)
            } else {
                None
            },
        }
    }
}

proof fn lemma_first_conflict_stable(ms: Seq<PathMappingView>, k: int, m: int, n: int)
    requires
        0 <= k < m <= n,
        first_conflict(ms, m) == Some(k),
    ensures
        first_conflict(ms, n) == Some(k),
    decreases n - m,
{
    if m < n {
        lemma_first_conflict_stable(ms, k, m + 1, n);
    }
}

/// Mapping conflict detector.
pub struct ConflictDetector {
    mappings: Vec<PathMapping>,
}

impl View for ConflictDetector {
    type V = Seq<PathMappingView>;

    closed spec fn view(&self) -> Seq<PathMappingView> {
        self.mappings@.map_values(|m: PathMapping| m@)
    }
}

proof fn lemma_reach_count_le(ms: Seq<PathMappingView>, lp: Seq<char>, is_file: bool, f: Option<Seq<char>>, n: int)
    requires
        0 <= n,
    ensures
        reach_count(ms, lp, is_file, f, n) <= n,
    decreases n,
{
    if n > 0 {
        lemma_reach_count_le(ms, lp, is_file, f, n - 1);
    }
}

impl ConflictDetector {
    pub fn new(mappings: Vec<PathMapping>) -> (r: Self)
        ensures
            r@ == mappings@.map_values(|m: PathMapping| m@),
    {
        Self { mappings }
    }

    /// Checks every mapping's local path for conflicts, in order; the first
    /// local path in conflict is reported.
    pub fn verify_mappings(&self) -> (r: ConflictResult<()>)
        ensures
            match r {
                Ok(()) => first_conflict(self@, self@.len() as int).is_none(),
                Err(ConflictError::PathConflict(p)) => first_conflict(self@, self@.len() as int) matches Some(k)
                    && p@ == self@[k].local_path,
            },
    {
        let n = self.mappings.len();
        let mut i: usize = 0;
        while i < n
            invariant
                n == self.mappings@.len(),
                n == self@.len(),
                i <= n,
                first_conflict(self@, i as int).is_none(),
            decreases n - i,
        {
            let mapping = &self.mappings[i];
            assert(self@[i as int] == mapping@);
            let filter_counts = self.count_mappings_by_filter(&mapping.local_path, mapping.is_file_mapping());
            if self.has_filter_conflict(&filter_counts) {
                proof {
                    self.lemma_counts_conflict(filter_counts@, mapping@.local_path, is_file_path(mapping@.local_path));
                    lemma_first_conflict_stable(self@, i as int, i + 1, n as int);
                }
                return Err(ConflictError::PathConflict(copy_string(&mapping.local_path)));
            }
            proof { self.lemma_counts_conflict(filter_counts@, mapping@.local_path, is_file_path(mapping@.local_path)); }
            i = i + 1;
        }
        Ok(())
    }

    proof fn lemma_counts_conflict(&self, v: Seq<(FilenameFilter, usize)>, lp: Seq<char>, is_file: bool)
        requires
            counts_describe(v, self@, lp, is_file, self@.len() as int),
        ensures
            counts_conflict(v) == conflict_at(self@, lp, is_file),
    {
        let ms = self@;
        let n = ms.len() as int;
        if counts_conflict(v) {
            if exists|k: int| 0 <= k < v.len() && (#[trigger] v[k]).1 > 1 {
                let k = choose|k: int| 0 <= k < v.len() && (#[trigger] v[k]).1 > 1;
                assert(reach_count(ms, lp, is_file, v[k].0@, n) > 1);
            } else {
                let k = choose|k: int| 0 <= k < v.len() && (#[trigger] v[k]).0@ is None;
                assert(v.len() > 1);
                let other = if k == 0 { 1int } else { 0int };
                assert(v[other].0@ != v[k].0@);
                let x = v[other].0@.unwrap();
                assert(reach_count(ms, lp, is_file, Some(x), n) >= 1);
                assert(reach_count(ms, lp, is_file, None, n) >= 1);
            }
        }
        if conflict_at(ms, lp, is_file) {
            if exists|f: Option<Seq<char>>| #[trigger] reach_count(ms, lp, is_file, f, n) > 1 {
                let f = choose|f: Option<Seq<char>>| #[trigger] reach_count(ms, lp, is_file, f, n) > 1;
                let k = choose|k: int| 0 <= k < v.len() && (#[trigger] v[k]).0@ == f;
                assert(v[k].1 > 1);
            } else {
                let x = choose|x: Seq<char>| #[trigger] reach_count(ms, lp, is_file, Some(x), n) >= 1;
                assert(reach_count(ms, lp, is_file, None, n) >= 1);
                let ka = choose|k: int| 0 <= k < v.len() && (#[trigger] v[k]).0@ == None::<Seq<char>>;
                let kb = choose|k: int| 0 <= k < v.len() && (#[trigger] v[k]).0@ == Some(x);
                assert(ka != kb);
                assert(v.len() > 1);
            }
        }
    }

    /// Counts, per filename filter, the mappings that reach `local_path`.
    fn count_mappings_by_filter(&self, local_path: &String, is_file_node: bool) -> (r: Vec<(FilenameFilter, usize)>)
        ensures
            counts_describe(r@, self@, local_path@, is_file_node, self@.len() as int),
    {
        let n = self.mappings.len();
        let mut counts: Vec<(FilenameFilter, usize)> = Vec::new();
        let mut idx: usize = 0;
        while idx < n
            invariant
                n == self.mappings@.len(),
                n == self@.len(),
                idx <= n,
                counts_match(counts@, |f: Option<Seq<char>>| reach_count(self@, local_path@, is_file_node, f, idx as int)),
            decreases n - idx,
        {
            let ghost g0 = |f: Option<Seq<char>>| reach_count(self@, local_path@, is_file_node, f, idx as int);
            let ghost g1 = |f: Option<Seq<char>>| reach_count(self@, local_path@, is_file_node, f, idx + 1);
            let reach = self.can_mapping_reach_local_path(idx, local_path, is_file_node);
            assert(self@[idx as int] == self.mappings@[idx as int]@);
            proof { lemma_reach_count_le(self@, local_path@, is_file_node, self@[idx as int].filter, idx as int); }
            if reach {
                bump(&mut counts, &self.mappings[idx].filename_filter, Ghost(g0));
                proof {
                    let fi = self@[idx as int].filter;
                    lemma_counts_match_ext(counts@, plus_one(g0, fi), g1);
                }
            } else {
                proof { lemma_counts_match_ext(counts@, g0, g1); }
            }
            idx = idx + 1;
        }
        proof {
            let g = |f: Option<Seq<char>>| reach_count(self@, local_path@, is_file_node, f, n as int);
            assert forall|f: Option<Seq<char>>| #[trigger] reach_count(self@, local_path@, is_file_node, f, n as int) >= 1 implies
                exists|k: int| 0 <= k < counts@.len() && (#[trigger] counts@[k]).0@ == f by {
                assert(g(f) >= 1);
            }
        }
        counts
    }

    /// Whether filter counts show a conflict: a filter counted twice, or
    /// every-file counted beside another filter.
    fn has_filter_conflict(&self, filter_counts: &Vec<(FilenameFilter, usize)>) -> (r: bool)
        ensures
            r == counts_conflict(filter_counts@),
    {
        let mut k: usize = 0;
        while k < filter_counts.len()
            invariant
                k <= filter_counts@.len(),
                forall|m: int| 0 <= m < k ==> (#[trigger] filter_counts@[m]).1 <= 1 && !((filter_counts@[m]).0@ is None && filter_counts@.len() > 1),
                forall|m: int| 0 <= m < k ==> !((#[trigger] filter_counts@[m]).0@ is None),
            decreases filter_counts@.len() - k,
        {
            let (filter, count) = (&filter_counts[k].0, filter_counts[k].1);
            match filter {
                FilenameFilter::All => {
                    if count > 1 {
                        return true;
                    }
                    if filter_counts.len() > 1 {
                        return true;
                    }
                    // the only entry: no conflict from it
                    assert(filter_counts@.len() == 1 && k == 0);
                    return false;
                },
                FilenameFilter::Extension(_) => {
                    if count > 1 {
                        return true;
                    }
                    if contains_all(filter_counts) {
                        return true;
                    }
                },
            }
            k = k + 1;
        }
        false
    }

    /// Whether mapping `mapping_idx` reaches `local_path`.
    fn can_mapping_reach_local_path(&self, mapping_idx: usize, local_path: &String, is_file_node: bool) -> (r: bool)
        requires
            mapping_idx < self@.len(),
        ensures
            r == mapping_reach(self@, mapping_idx as int, local_path@, is_file_node),
    {
        let mapping = &self.mappings[mapping_idx];
        assert(self@[mapping_idx as int] == mapping@);
        if !self.is_prefix(&mapping.local_path, local_path) {
            return false;
        }
        let lp = str_chars(local_path.as_str());
        let plen = str_chars(mapping.local_path.as_str()).len();
        let rel = crate::text::string_from_range(&lp, plen, lp.len());
        let mut server_path = copy_string(&mapping.server_path);
        string_push_str(&mut server_path, rel.as_str());
        assert(server_path@ == mapping@.server_path + local_path@.skip(mapping@.local_path.len() as int));
        if !self.can_server_path_reach(&mapping.server_path, &server_path, &mapping.filename_filter, mapping.recursive, is_file_node) {
            return false;
        }
        let n = self.mappings.len();
        let mut h = mapping_idx + 1;
        while h < n
            invariant
                n == self.mappings@.len(),
                n == self@.len(),
                mapping_idx < h <= n,
                self@[mapping_idx as int] == mapping@,
                server_path@ == mapping@.server_path + local_path@.skip(mapping@.local_path.len() as int),
                forall|g: int| #![trigger self@[g]] mapping_idx < g < h ==> !(starts_with(local_path@, self@[g].local_path)
                    && server_reach(self@[g].server_path, server_path@, self@[g].filter, self@[g].recursive, is_file_node)
                    && filters_compatible(mapping@.filter, self@[g].filter)),
            decreases n - h,
        {
            let higher = &self.mappings[h];
            assert(self@[h as int] == higher@);
            if self.is_prefix(&higher.local_path, local_path) {
                if self.can_server_path_reach(&higher.server_path, &server_path, &higher.filename_filter, higher.recursive, is_file_node) {
                    if mapping.filename_filter.is_compatible_with(&higher.filename_filter) {
                        return false;
                    }
                }
            }
            h = h + 1;
        }
        true
    }

    /// Whether a mapping's server path reaches an actual server path.
    fn can_server_path_reach(&self, mapping_server_path: &String, actual_server_path: &String, filename_filter: &FilenameFilter, recursive: bool, is_file_path: bool) -> (r: bool)
        ensures
            r == server_reach(mapping_server_path@, actual_server_path@, filename_filter@, recursive, is_file_path),
    {
        if !self.is_prefix(mapping_server_path, actual_server_path) {
            return false;
        }
        let asp = str_chars(actual_server_path.as_str());
        let start = str_chars(mapping_server_path.as_str()).len();
        if !recursive {
            if is_file_path {
                if has_slash_from(&asp, start) {
                    return false;
                }
            } else {
                if start != asp.len() {
                    return false;
                }
            }
        }
        if is_file_path {
            let name = file_name(&asp);
            if !self.filename_matches_filter(&name, filename_filter) {
                return false;
            }
        }
        true
    }

    /// Whether a filename meets a filter.
    fn filename_matches_filter(&self, filename: &String, filter: &FilenameFilter) -> (r: bool)
        ensures
            r == filter_matches(filename@, filter@),
    {
        match filter {
            FilenameFilter::All => true,
            FilenameFilter::Extension(ext) => text_ends_with(filename, ext),
        }
    }

    /// Whether `prefix` is a prefix of `path`.
    fn is_prefix(&self, prefix: &String, path: &String) -> (r: bool)
        ensures
            r == starts_with(path@, prefix@),
    {
        text_starts_with(path, prefix)
    }
}

/// Whether filter counts show a conflict.
pub open spec fn counts_conflict(v: Seq<(FilenameFilter, usize)>) -> bool {
    ||| exists|k: int| 0 <= k < v.len() && (#[trigger] v[k]).1 > 1
    ||| v.len() > 1 && exists|k: int| 0 <= k < v.len() && (#[trigger] v[k]).0@ is None
}

fn contains_all(v: &Vec<(FilenameFilter, usize)>) -> (r: bool)
    ensures
        r == exists|k: int| 0 <= k < v@.len() && (#[trigger] v@[k]).0@ is None,
{
    let mut k: usize = 0;
    while k < v.len()
        invariant
            k <= v@.len(),
            forall|m: int| 0 <= m < k ==> !((#[trigger] v@[m]).0@ is None),
        decreases v@.len() - k,
    {
        match &v[k].0 {
            FilenameFilter::All => return true,
            FilenameFilter::Extension(_) => {},
        }
        k = k + 1;
    }
    false
}

fn same_filter(a: &FilenameFilter, b: &FilenameFilter) -> (r: bool)
    ensures
        r == (a@ == b@),
{
    match (a, b) {
        (FilenameFilter::All, FilenameFilter::All) => true,
        (FilenameFilter::Extension(x), FilenameFilter::Extension(y)) => string_eq(x, y),
        _ => false,
    }
}

fn has_slash_from(cs: &Vec<char>, start: usize) -> (r: bool)
    requires
        start <= cs@.len(),
    ensures
        r == has_slash(cs@.skip(start as int)),
{
    let mut k = start;
    while k < cs.len()
        invariant
            start <= k <= cs@.len(),
            forall|m: int| start <= m < k ==> cs@[m] != '/',
        decreases cs@.len() - k,
    {
        if cs[k] == '/' {
            assert(cs@.skip(start as int)[k - start] == '/');
            return true;
        }
        k = k + 1;
    }
    assert forall|m: int| 0 <= m < cs@.skip(start as int).len() implies cs@.skip(start as int)[m] != '/' by {
        assert(cs@.skip(start as int)[m] == cs@[start + m]);
    }
    false
}

/// The part of a path after its last `/`.
fn file_name(cs: &Vec<char>) -> (r: String)
    ensures
        r@ == file_name_of(cs@),
{
    let mut k = cs.len();
    while k > 0 && cs[k - 1] != '/'
        invariant
            k <= cs@.len(),
            last_slash(cs@, cs@.len() as int) == last_slash(cs@, k as int),
        decreases k,
    {
        k = k - 1;
    }
    proof { lemma_last_slash_bounds(cs@, k as int); }
    let r = crate::text::string_from_range(cs, k, cs.len());
    assert(r@ =~= cs@.skip(k as int));
    r
}

proof fn lemma_last_slash_bounds(p: Seq<char>, n: int)
    requires
        0 <= n <= p.len(),
        n == 0 || p[n - 1] == '/',
    ensures
        last_slash(p, n) + 1 == n,
{
}

} // verus!
