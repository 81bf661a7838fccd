//! Path types and their rendering.
use vstd::prelude::*;
use crate::text::{
    copy_string, copy_strings, ends_with, extend_strings, str_chars, string_eq, string_from_range,
    string_push, string_push_str, strings_eq, text_ends_with, texts,
};

verus! {

/// Errors of path parsing.
#[derive(Debug, Clone, PartialEq, Eq)]
pub enum PathError {
    /// The text does not follow the path grammar.
    SyntaxError(String),
    /// The pattern of a regex wildcard does not compile.
    RegexError(String),
}

pub type PathResult<T> = Result<T, PathError>;

/// The message of a path error: its kind, a colon and its detail.
pub open spec fn path_error_text(e: PathError) -> Seq<char> {
    match e {
        PathError::SyntaxError(m) => "Syntax error: "@ + m@,
        PathError::RegexError(m) => "Regex compilation error: "@ + m@,
    }
}

impl PathError {
    /// The message of the error, as its `Display` form writes it.
    pub fn message(&self) -> (r: String)
        ensures
            r@ == path_error_text(*self),
    {
        match self {
            PathError::SyntaxError(m) => {
                let mut out = String::from_str("Syntax error: ");
                string_push_str(&mut out, m.as_str());
                out
            },
            PathError::RegexError(m) => {
                let mut out = String::from_str("Regex compilation error: ");
                string_push_str(&mut out, m.as_str());
                out
            },
        }
    }
}

/// A revision descriptor: `#33` or `@3588021`.
#[derive(Debug, Clone, Copy, PartialEq, Eq)]
pub enum RevisionDescriptor {
    /// Revision number `#33`.
    RevisionId(u64),
    /// Changelist number `@3588021`.
    ChangelistNumber(u64),
}

/// Filename pattern of a wildcard path.
#[derive(Debug, Clone, PartialEq, Eq)]
pub enum FilenameWildcard {
    /// An exact filename.
    Exact(String),
    /// A suffix such as `.png` or `.obj.meta` (written `~png`, `~obj.meta`).
    Extension(String),
    /// Every file.
    All,
}

/// Abstract filename pattern.
pub enum FilenameWildcardView {
    Exact(Seq<char>),
    Extension(Seq<char>),
    All,
}

impl View for FilenameWildcard {
    type V = FilenameWildcardView;

    open spec fn view(&self) -> FilenameWildcardView {
        match self {
            FilenameWildcard::Exact(s) => FilenameWildcardView::Exact(s@),
            FilenameWildcard::Extension(s) => FilenameWildcardView::Extension(s@),
            FilenameWildcard::All => FilenameWildcardView::All,
        }
    }
}

/// Whether `filename` is matched by the pattern `w`.
pub open spec fn wildcard_matches(w: FilenameWildcardView, filename: Seq<char>) -> bool {
    match w {
        FilenameWildcardView::Exact(e) => filename == e,
        FilenameWildcardView::Extension(x) => ends_with(filename, x),
        FilenameWildcardView::All => true,
    }
}

/// The written form of a filename pattern: the name, `~` and the suffix
/// without its leading character, or nothing.
pub open spec fn wildcard_text(w: FilenameWildcardView) -> Seq<char> {
    match w {
        FilenameWildcardView::Exact(e) => e,
        FilenameWildcardView::Extension(x) => seq!['~'] + x.drop_first(),
        FilenameWildcardView::All => Seq::empty(),
    }
}

/// A pattern whose written form can be produced: a suffix starts with a
/// one-byte (ASCII) character, as every suffix read by the grammar (`.`) does.
pub open spec fn wildcard_renderable(w: FilenameWildcardView) -> bool {
    match w {
        FilenameWildcardView::Extension(x) => x.len() > 0 && (x[0] as u32) < 128,
        _ => true,
    }
}

/// Each directory followed by `/`.
pub open spec fn dirs_text(dirs: Seq<Seq<char>>) -> Seq<char>
    decreases dirs.len(),
{
    if dirs.len() == 0 {
        Seq::empty()
    } else {
        dirs_text(dirs.drop_last()) + dirs.last() + seq!['/']
    }
}

/// The names joined by `sep`.
pub open spec fn joined(dirs: Seq<Seq<char>>, sep: char) -> Seq<char>
    decreases dirs.len(),
{
    if dirs.len() == 0 {
        Seq::empty()
    } else if dirs.len() == 1 {
        dirs[0]
    } else {
        joined(dirs.drop_last(), sep) + seq![sep] + dirs.last()
    }
}

/// The `/` form of a directory is `/` alone for no name, and otherwise `/`,
/// the names joined by `/`, and a closing `/`.
pub proof fn lemma_unix_dir_form(dirs: Seq<Seq<char>>)
    ensures
        dirs.len() == 0 ==> seq!['/'] + dirs_text(dirs) == seq!['/'],
        dirs.len() > 0 ==> seq!['/'] + dirs_text(dirs) == seq!['/'] + joined(dirs, '/') + seq!['/'],
    decreases dirs.len(),
{
    if dirs.len() == 0 {
        assert(seq!['/'] + dirs_text(dirs) =~= seq!['/']);
    } else if dirs.len() == 1 {
        assert(dirs_text(dirs.drop_last()) =~= Seq::<char>::empty());
        assert(dirs_text(dirs) =~= dirs[0] + seq!['/']);
        assert(seq!['/'] + dirs_text(dirs) =~= seq!['/'] + joined(dirs, '/') + seq!['/']);
    } else {
        let init = dirs.drop_last();
        lemma_unix_dir_form(init);
        assert((seq!['/'] + dirs_text(init)).skip(1) =~= dirs_text(init));
        assert((seq!['/'] + joined(init, '/') + seq!['/']).skip(1) =~= joined(init, '/') + seq!['/']);
        assert(dirs_text(init) =~= joined(init, '/') + seq!['/']);
        assert(seq!['/'] + dirs_text(dirs) =~= seq!['/'] + joined(dirs, '/') + seq!['/']);
    }
}

/// Appends each of `dirs` followed by `/` to `out`.
pub fn push_dirs_text(out: &mut String, dirs: &[String])
    ensures
        final(out)@ == old(out)@ + dirs_text(texts(dirs@)),
{
    let ghost o = out@;
    let mut i: usize = 0;
    while i < dirs.len()
        invariant
            i <= dirs@.len(),
            out@ == o + dirs_text(texts(dirs@).take(i as int)),
        decreases dirs@.len() - i,
    {
        string_push_str(out, dirs[i].as_str());
        string_push(out, '/');
        assert(texts(dirs@).take(i + 1).drop_last() == texts(dirs@).take(i as int));
        assert(out@ == o + dirs_text(texts(dirs@).take(i + 1)));
        i = i + 1;
    }
    assert(texts(dirs@).take(dirs@.len() as int) == texts(dirs@));
}

/// Each of `dirs` followed by `\`, the way Windows writes directories.
pub open spec fn windows_dirs_text(dirs: Seq<Seq<char>>) -> Seq<char>
    decreases dirs.len(),
{
    if dirs.len() == 0 {
        Seq::empty()
    } else {
        windows_dirs_text(dirs.drop_last()) + dirs.last() + seq!['\\']
    }
}

/// A drive name with its colon: `C` and `C:` both give `C:`.
pub open spec fn drive_text(d: Seq<char>) -> Seq<char> {
    if d.len() > 0 && d.last() == ':' { d } else { d.push(':') }
}

/// The Windows form of a local directory whose first name is its drive:
/// `C:\`, then each further name followed by `\`.
pub open spec fn windows_dir_text(dirs: Seq<Seq<char>>) -> Seq<char> {
    drive_text(dirs[0]) + seq!['\\'] + windows_dirs_text(dirs.drop_first())
}

/// Appends each of `dirs` from position `lo` on, followed by `\`, to `out`.
fn push_windows_dirs(out: &mut String, dirs: &[String], lo: usize)
    requires
        lo <= dirs@.len(),
    ensures
        final(out)@ == old(out)@ + windows_dirs_text(texts(dirs@).skip(lo as int)),
{
    let ghost o = out@;
    let ghost d = texts(dirs@).skip(lo as int);
    let mut i: usize = lo;
    assert(d.take(0) =~= Seq::<Seq<char>>::empty());
    while i < dirs.len()
        invariant
            lo <= i <= dirs@.len(),
            d == texts(dirs@).skip(lo as int),
            out@ == o + windows_dirs_text(d.take(i - lo)),
        decreases dirs@.len() - i,
    {
        string_push_str(out, dirs[i].as_str());
        string_push(out, '\\');
        assert(d.take(i + 1 - lo).drop_last() =~= d.take(i - lo));
        assert(d.take(i + 1 - lo).last() == dirs@[i as int]@);
        i = i + 1;
    }
    assert(d.take(dirs@.len() - lo) =~= d);
}

/// Appends the Windows form of the directory `dirs` (its first name the
/// drive) to `out`.
fn push_windows_dir(out: &mut String, dirs: &[String])
    requires
        dirs@.len() >= 1,
    ensures
        final(out)@ == old(out)@ + windows_dir_text(texts(dirs@)),
{
    let ghost o = out@;
    let drive = dirs[0].as_str();
    string_push_str(out, drive);
    let cs = str_chars(drive);
    if !(cs.len() > 0 && cs[cs.len() - 1] == ':') {
        string_push(out, ':');
    }
    string_push(out, '\\');
    push_windows_dirs(out, dirs, 1);
    assert(texts(dirs@).skip(1) =~= texts(dirs@).drop_first());
}

impl FilenameWildcard {
    /// The written form of the pattern.
    pub fn to_custom_string(&self) -> (res: String)
        requires
            wildcard_renderable(self@),
        ensures
            res@ == wildcard_text(self@),
    {
        match self {
            FilenameWildcard::Exact(s) => copy_string(s),
            FilenameWildcard::Extension(s) => {
                let cs = str_chars(s.as_str());
                let mut out = String::new();
                string_push(&mut out, '~');
                let rest = string_from_range(&cs, 1, cs.len());
                string_push_str(&mut out, rest.as_str());
                assert(cs@.subrange(1, cs@.len() as int) == s@.drop_first());
                out
            },
            FilenameWildcard::All => String::new(),
        }
    }

    /// Whether a filename is matched by the pattern.
    pub fn check_match(&self, filename: &str) -> (r: bool)
        ensures
            r == wildcard_matches(self@, filename@),
    {
        let f = String::from_str(filename);
        match self {
            FilenameWildcard::Exact(exact) => string_eq(&f, exact),
            FilenameWildcard::Extension(extension) => text_ends_with(&f, extension),
            FilenameWildcard::All => true,
        }
    }
}

/// A file inside a workspace: `//workspace/dir/.../file`.
#[derive(Debug, Clone, PartialEq, Eq)]
pub struct WorkspacePath {
    pub workspace_name: String,
    pub dirs: Vec<String>,
    pub file: String,
}

pub struct WorkspacePathView {
    pub workspace_name: Seq<char>,
    pub dirs: Seq<Seq<char>>,
    pub file: Seq<char>,
}

impl View for WorkspacePath {
    type V = WorkspacePathView;

    open spec fn view(&self) -> WorkspacePathView {
        WorkspacePathView { workspace_name: self.workspace_name@, dirs: texts(self.dirs@), file: self.file@ }
    }
}

/// A directory inside a workspace: `//workspace/dir/.../`.
#[derive(Debug, Clone, PartialEq, Eq)]
pub struct WorkspaceDir {
    pub workspace_name: String,
    pub dirs: Vec<String>,
}

pub struct WorkspaceDirView {
    pub workspace_name: Seq<char>,
    pub dirs: Seq<Seq<char>>,
}

impl View for WorkspaceDir {
    type V = WorkspaceDirView;

    open spec fn view(&self) -> WorkspaceDirView {
        WorkspaceDirView { workspace_name: self.workspace_name@, dirs: texts(self.dirs@) }
    }
}

/// A file of the depot: `//dir/.../file`.
#[derive(Debug, Clone, PartialEq, Eq)]
pub struct DepotPath {
    pub dirs: Vec<String>,
    pub file: String,
}

pub struct DepotPathView {
    pub dirs: Seq<Seq<char>>,
    pub file: Seq<char>,
}

impl View for DepotPath {
    type V = DepotPathView;

    open spec fn view(&self) -> DepotPathView {
        DepotPathView { dirs: texts(self.dirs@), file: self.file@ }
    }
}

/// The written form of a depot path.
pub open spec fn depot_path_text(p: DepotPathView) -> Seq<char> {
    seq!['/', '/'] + dirs_text(p.dirs) + p.file
}

/// A range of depot files: `//dir/...~png`, `//dir/~jpg.meta`, `//dir/...`.
#[derive(Debug, Clone, PartialEq, Eq)]
pub struct RangeDepotWildcard {
    /// Directory part.
    pub dirs: Vec<String>,
    /// Whether the recursive marker `...` is present.
    pub recursive: bool,
    /// Filename pattern.
    pub wildcard: FilenameWildcard,
}

pub struct RangeDepotWildcardView {
    pub dirs: Seq<Seq<char>>,
    pub recursive: bool,
    pub wildcard: FilenameWildcardView,
}

impl View for RangeDepotWildcard {
    type V = RangeDepotWildcardView;

    open spec fn view(&self) -> RangeDepotWildcardView {
        RangeDepotWildcardView { dirs: texts(self.dirs@), recursive: self.recursive, wildcard: self.wildcard@ }
    }
}

/// A depot range given by a regular expression: `r://project/.*\.rs`.
#[derive(Debug, Clone, PartialEq, Eq)]
pub struct RegexDepotWildcard {
    /// The pattern as written.
    pub pattern: String,
}

/// A depot wildcard path.
#[derive(Debug, Clone, PartialEq, Eq)]
pub enum DepotPathWildcard {
    Range(RangeDepotWildcard),
    Regex(RegexDepotWildcard),
}

pub enum DepotPathWildcardView {
    Range(RangeDepotWildcardView),
    Regex(Seq<char>),
}

impl View for DepotPathWildcard {
    type V = DepotPathWildcardView;

    open spec fn view(&self) -> DepotPathWildcardView {
        match self {
            DepotPathWildcard::Range(r) => DepotPathWildcardView::Range(r@),
            DepotPathWildcard::Regex(r) => DepotPathWildcardView::Regex(r.pattern@),
        }
    }
}

/// The written form of a depot wildcard.
pub open spec fn depot_wildcard_text(w: DepotPathWildcardView) -> Seq<char> {
    match w {
        DepotPathWildcardView::Range(r) => seq!['/', '/'] + dirs_text(r.dirs) + (if r.recursive {
            seq!['.', '.', '.']
        } else {
            Seq::empty()
        }) + wildcard_text(r.wildcard),
        DepotPathWildcardView::Regex(p) => seq!['r', ':', '/', '/'] + p,
    }
}

/// The length of the longest common prefix of `a` and `b`.
pub open spec fn common_prefix_len(a: Seq<Seq<char>>, b: Seq<Seq<char>>) -> int {
    choose|n: int| is_common_prefix_end(a, b, n)
}

/// `n` ends the common prefix of `a` and `b`.
pub open spec fn is_common_prefix_end(a: Seq<Seq<char>>, b: Seq<Seq<char>>, n: int) -> bool {
    0 <= n <= a.len() && n <= b.len() && a.take(n) == b.take(n) && (n == a.len() || n == b.len()
        || a[n] != b[n])
}

/// `a` is a prefix of `b`.
pub open spec fn is_prefix_of(a: Seq<Seq<char>>, b: Seq<Seq<char>>) -> bool {
    a.len() <= b.len() && b.take(a.len() as int) == a
}

/// The end of the common prefix of two lists of names: the first index at
/// which they differ, or the length of the shorter one.
pub fn common_prefix_end_index(slice_a: &[String], slice_b: &[String]) -> (n: usize)
    ensures
        n <= slice_a@.len(),
        n <= slice_b@.len(),
        texts(slice_a@).take(n as int) == texts(slice_b@).take(n as int),
        n == slice_a@.len() || n == slice_b@.len() || slice_a@[n as int]@ != slice_b@[n as int]@,
        n == common_prefix_len(texts(slice_a@), texts(slice_b@)),
{
    let mut i: usize = 0;
    while i < slice_a.len() && i < slice_b.len()
        invariant
            i <= slice_a@.len(),
            i <= slice_b@.len(),
            forall|k: int| 0 <= k < i ==> #[trigger] slice_a@[k]@ == slice_b@[k]@,
        decreases slice_a@.len() - i,
    {
        if !string_eq(&slice_a[i], &slice_b[i]) {
            proof { lemma_common_prefix_unique(texts(slice_a@), texts(slice_b@), i as int); }
            return i;
        }
        i = i + 1;
    }
    proof { lemma_common_prefix_unique(texts(slice_a@), texts(slice_b@), i as int); }
    i
}

/// The common-prefix length is the only index with its defining property.
pub proof fn lemma_common_prefix_unique(a: Seq<Seq<char>>, b: Seq<Seq<char>>, n: int)
    requires
        0 <= n <= a.len(),
        n <= b.len(),
        forall|k: int| 0 <= k < n ==> a[k] == b[k],
        n == a.len() || n == b.len() || a[n] != b[n],
    ensures
        a.take(n) == b.take(n),
        common_prefix_len(a, b) == n,
{
    assert(a.take(n) =~= b.take(n));
    assert(is_common_prefix_end(a, b, n));
    let m = common_prefix_len(a, b);
    assert(is_common_prefix_end(a, b, m));
    if m < n {
        assert(a.take(m + 1)[m] == a[m]);
        assert(a[m] == b[m]);
    } else if m > n {
        assert(a.take(m)[n] == a[n]);
        assert(b.take(m)[n] == b[n]);
    }
}

/// What is left of `other` after `base`, when `base` is a prefix of it.
pub open spec fn diff_after(base: Seq<Seq<char>>, other: Seq<Seq<char>>) -> Option<Seq<Seq<char>>> {
    if is_prefix_of(base, other) {
        Some(other.skip(base.len() as int))
    } else {
        None
    }
}

/// The directories of `path` below a range wildcard, when the wildcard
/// matches the path.
pub open spec fn range_match(w: RangeDepotWildcardView, path: DepotPathView) -> Option<Seq<Seq<char>>> {
    if is_prefix_of(w.dirs, path.dirs) && (w.recursive || path.dirs.len() == w.dirs.len())
        && wildcard_matches(w.wildcard, path.file) {
        Some(path.dirs.skip(w.dirs.len() as int))
    } else {
        None
    }
}

proof fn lemma_prefix_by_common(a: Seq<Seq<char>>, b: Seq<Seq<char>>, n: int)
    requires
        0 <= n <= a.len(),
        n <= b.len(),
        a.take(n) == b.take(n),
        n == a.len() || n == b.len() || a[n] != b[n],
    ensures
        is_prefix_of(a, b) <==> n == a.len(),
{
    if n == a.len() {
        assert(b.take(a.len() as int) == a.take(n));
        assert(a.take(n) =~= a);
    } else if is_prefix_of(a, b) {
        assert(b.take(a.len() as int)[n] == b[n]);
        assert(a[n] == b[n]);
    }
}

impl WorkspacePath {
    /// The written form `//workspace/dirs/file`.
    pub fn to_custom_string(&self) -> (res: String)
        ensures
            res@ == seq!['/', '/'] + self.workspace_name@ + seq!['/'] + dirs_text(texts(self.dirs@)) + self.file@,
    {
        let mut out = String::new();
        string_push(&mut out, '/');
        string_push(&mut out, '/');
        string_push_str(&mut out, self.workspace_name.as_str());
        string_push(&mut out, '/');
        push_dirs_text(&mut out, self.dirs.as_slice());
        string_push_str(&mut out, self.file.as_str());
        out
    }

    /// The local file under `root_dir` that this workspace file stands for.
    pub fn to_local_path_uncheck(&self, root_dir: &LocalDir) -> (res: LocalPath)
        ensures
            res@.dirs == texts(root_dir.0@) + texts(self.dirs@),
            res@.file == self.file@,
    {
        let mut dirs = copy_strings(&root_dir.0);
        extend_strings(&mut dirs, self.dirs.as_slice());
        LocalPath { dirs: LocalDir(dirs), file: copy_string(&self.file) }
    }
}

impl WorkspaceDir {
    /// The written form `//workspace/dirs/`.
    pub fn to_custom_string(&self) -> (res: String)
        ensures
            res@ == seq!['/', '/'] + self.workspace_name@ + seq!['/'] + dirs_text(texts(self.dirs@)),
    {
        let mut out = String::new();
        string_push(&mut out, '/');
        string_push(&mut out, '/');
        string_push_str(&mut out, self.workspace_name.as_str());
        string_push(&mut out, '/');
        push_dirs_text(&mut out, self.dirs.as_slice());
        out
    }

    /// The local directory under `root_dir` that this workspace directory stands for.
    pub fn to_local_dir_uncheck(&self, root_dir: &LocalDir) -> (res: LocalDir)
        ensures
            texts(res.0@) == texts(root_dir.0@) + texts(self.dirs@),
    {
        let mut dirs = copy_strings(&root_dir.0);
        extend_strings(&mut dirs, self.dirs.as_slice());
        LocalDir(dirs)
    }
}

impl DepotPath {
    /// The written form `//dirs/file`.
    pub fn to_custom_string(&self) -> (res: String)
        ensures
            res@ == depot_path_text(self@),
    {
        let mut out = String::new();
        string_push(&mut out, '/');
        string_push(&mut out, '/');
        push_dirs_text(&mut out, self.dirs.as_slice());
        string_push_str(&mut out, self.file.as_str());
        out
    }

    /// A copy of this path.
    pub fn copy(&self) -> (res: DepotPath)
        ensures
            res@ == self@,
    {
        DepotPath { dirs: copy_strings(&self.dirs), file: copy_string(&self.file) }
    }

    /// Equality by content.
    pub fn same_as(&self, other: &DepotPath) -> (r: bool)
        ensures
            r == (self@ == other@),
    {
        let r = strings_eq(self.dirs.as_slice(), other.dirs.as_slice()) && string_eq(&self.file, &other.file);
        proof {
            if self@.dirs == other@.dirs && self@.file == other@.file {
                assert(self@ == other@);
            }
        }
        r
    }
}

impl DepotPathWildcard {
    /// The written form of the wildcard.
    pub fn to_custom_string(&self) -> (res: String)
        requires
            self matches DepotPathWildcard::Range(r) ==> wildcard_renderable(r.wildcard@),
        ensures
            res@ == depot_wildcard_text(self@),
    {
        match self {
            DepotPathWildcard::Range(range) => {
                let mut out = String::new();
                string_push(&mut out, '/');
                string_push(&mut out, '/');
                push_dirs_text(&mut out, range.dirs.as_slice());
                if range.recursive {
                    string_push(&mut out, '.');
                    string_push(&mut out, '.');
                    string_push(&mut out, '.');
                }
                let w = range.wildcard.to_custom_string();
                string_push_str(&mut out, w.as_str());
                assert(out@ == depot_wildcard_text(self@));
                out
            },
            DepotPathWildcard::Regex(regex) => {
                let mut out = String::new();
                string_push(&mut out, 'r');
                string_push(&mut out, ':');
                string_push(&mut out, '/');
                string_push(&mut out, '/');
                string_push_str(&mut out, regex.pattern.as_str());
                out
            },
        }
    }
}

impl RangeDepotWildcard {
    /// The directories of `depot_path` below this wildcard when it matches
    /// the path; `None` when it does not.
    pub fn match_and_get_diff<'a>(&self, depot_path: &'a DepotPath) -> (res: Option<&'a [String]>)
        ensures
            match res {
                Some(d) => range_match(self@, depot_path@) == Some(texts(d@)),
                None => range_match(self@, depot_path@).is_none(),
            },
    {
        let common_prefix_end = common_prefix_end_index(self.dirs.as_slice(), depot_path.dirs.as_slice());
        proof { lemma_prefix_by_common(texts(self.dirs@), texts(depot_path.dirs@), common_prefix_end as int); }
        if common_prefix_end != self.dirs.len() {
            return None;
        }
        if !self.recursive && common_prefix_end != depot_path.dirs.len() {
            return None;
        }
        if !self.wildcard.check_match(depot_path.file.as_str()) {
            return None;
        }
        let d = &depot_path.dirs.as_slice()[common_prefix_end..depot_path.dirs.len()];
        assert(texts(d@) =~= texts(depot_path.dirs@).skip(self.dirs@.len() as int));
        Some(d)
    }
}

/// An absolute local directory, normalized: each directory name, the drive
/// letter first on Windows.
#[derive(Debug, Clone, PartialEq, Eq)]
pub struct LocalDir(pub Vec<String>);

impl View for LocalDir {
    type V = Seq<Seq<char>>;

    open spec fn view(&self) -> Seq<Seq<char>> {
        texts(self.0@)
    }
}

impl LocalDir {
    /// The directory written with `/` separators: `/a/b/`.
    pub fn to_unix_path_string(&self) -> (res: String)
        ensures
            res@ == seq!['/'] + dirs_text(self@),
    {
        let mut out = String::new();
        string_push(&mut out, '/');
        push_dirs_text(&mut out, self.0.as_slice());
        out
    }

    /// The directory in the local style of a Unix platform: `/` alone, or
    /// `/a/b/`.
    pub fn to_local_path_string(&self) -> (res: String)
        ensures
            res@ == seq!['/'] + dirs_text(self@),
    {
        self.to_unix_path_string()
    }

    /// The directory in the local style of Windows, its first name the
    /// drive: `C:\`, or `C:\Users\me\`.  A directory with no name has no
    /// Windows form.
    pub fn to_windows_path_string(&self) -> (res: String)
        requires
            self@.len() >= 1,
        ensures
            res@ == windows_dir_text(self@),
    {
        let mut out = String::new();
        push_windows_dir(&mut out, self.0.as_slice());
        out
    }

    /// What is left of `other` below this directory, when `other` lies
    /// under it; `None` otherwise.
    pub fn match_and_get_diff<'a>(&self, other: &'a LocalDir) -> (res: Option<&'a [String]>)
        ensures
            match res {
                Some(d) => diff_after(self@, other@) == Some(texts(d@)),
                None => diff_after(self@, other@).is_none(),
            },
    {
        let common_prefix_end = common_prefix_end_index(self.0.as_slice(), other.0.as_slice());
        proof { lemma_prefix_by_common(texts(self.0@), texts(other.0@), common_prefix_end as int); }
        if common_prefix_end != self.0.len() {
            return None;
        }
        let d = &other.0.as_slice()[common_prefix_end..other.0.len()];
        assert(texts(d@) =~= texts(other.0@).skip(self.0@.len() as int));
        Some(d)
    }

    /// A copy of this directory.
    pub fn copy(&self) -> (res: LocalDir)
        ensures
            res@ == self@,
    {
        LocalDir(copy_strings(&self.0))
    }
}

/// An absolute local file path, normalized.
#[derive(Debug, Clone, PartialEq, Eq)]
pub struct LocalPath {
    pub dirs: LocalDir,
    pub file: String,
}

pub struct LocalPathView {
    pub dirs: Seq<Seq<char>>,
    pub file: Seq<char>,
}

impl View for LocalPath {
    type V = LocalPathView;

    open spec fn view(&self) -> LocalPathView {
        LocalPathView { dirs: self.dirs@, file: self.file@ }
    }
}

/// The written form of a local file path with `/` separators.
pub open spec fn local_path_text(p: LocalPathView) -> Seq<char> {
    seq!['/'] + dirs_text(p.dirs) + p.file
}

impl LocalPath {
    /// The path written with `/` separators: `/a/b/file`.
    pub fn to_unix_path_string(&self) -> (res: String)
        ensures
            res@ == local_path_text(self@),
    {
        let mut out = String::new();
        string_push(&mut out, '/');
        push_dirs_text(&mut out, self.dirs.0.as_slice());
        string_push_str(&mut out, self.file.as_str());
        out
    }

    /// The path in the local form of a Unix system: `/a/b/file`.
    pub fn to_local_path_string(&self) -> (res: String)
        ensures
            res@ == local_path_text(self@),
    {
        self.to_unix_path_string()
    }

    /// The path in the local style of Windows, the first directory the
    /// drive: `C:\file.txt`, or `C:\Users\file.txt`.  A path with no
    /// directory has no Windows form.
    pub fn to_windows_path_string(&self) -> (res: String)
        requires
            self@.dirs.len() >= 1,
        ensures
            res@ == windows_dir_text(self@.dirs) + self@.file,
    {
        let mut out = String::new();
        push_windows_dir(&mut out, self.dirs.0.as_slice());
        string_push_str(&mut out, self.file.as_str());
        out
    }

    /// A copy of this path.
    pub fn copy(&self) -> (res: LocalPath)
        ensures
            res@ == self@,
    {
        LocalPath { dirs: self.dirs.copy(), file: copy_string(&self.file) }
    }

    /// Equality by content.
    pub fn same_as(&self, other: &LocalPath) -> (r: bool)
        ensures
            r == (self@ == other@),
    {
        let r = strings_eq(self.dirs.0.as_slice(), other.dirs.0.as_slice()) && string_eq(&self.file, &other.file);
        proof {
            if self@.dirs == other@.dirs && self@.file == other@.file {
                assert(self@ == other@);
            }
        }
        r
    }
}

/// A local wildcard path: directory, recursive marker and filename pattern.
#[derive(Debug, Clone, PartialEq, Eq)]
pub struct LocalPathWildcard {
    /// Directory part.
    pub dirs: LocalDir,
    /// Whether the recursive marker `...` is present.
    pub recursive: bool,
    /// Filename pattern.
    pub wildcard: FilenameWildcard,
}

pub struct LocalPathWildcardView {
    pub dirs: Seq<Seq<char>>,
    pub recursive: bool,
    pub wildcard: FilenameWildcardView,
}

impl View for LocalPathWildcard {
    type V = LocalPathWildcardView;

    open spec fn view(&self) -> LocalPathWildcardView {
        LocalPathWildcardView { dirs: self.dirs@, recursive: self.recursive, wildcard: self.wildcard@ }
    }
}

/// The directories of `path` below a local wildcard, when the wildcard
/// matches the path.
pub open spec fn local_wildcard_match(w: LocalPathWildcardView, path: LocalPathView) -> Option<Seq<Seq<char>>> {
    if is_prefix_of(w.dirs, path.dirs) && (w.recursive || path.dirs.len() == w.dirs.len())
        && wildcard_matches(w.wildcard, path.file) {
        Some(path.dirs.skip(w.dirs.len() as int))
    } else {
        None
    }
}

impl LocalPathWildcard {
    /// The written form `/dirs/...~ext`.
    pub fn to_custom_string(&self) -> (res: String)
        requires
            wildcard_renderable(self.wildcard@),
        ensures
            res@ == seq!['/'] + dirs_text(self.dirs@) + (if self.recursive {
                seq!['.', '.', '.']
            } else {
                Seq::empty()
            }) + wildcard_text(self.wildcard@),
    {
        let mut out = String::new();
        string_push(&mut out, '/');
        push_dirs_text(&mut out, self.dirs.0.as_slice());
        if self.recursive {
            string_push(&mut out, '.');
            string_push(&mut out, '.');
            string_push(&mut out, '.');
        }
        let w = self.wildcard.to_custom_string();
        string_push_str(&mut out, w.as_str());
        out
    }

    /// The directories of `local_path` below this wildcard when it matches
    /// the path; `None` when it does not.
    pub fn match_and_get_diff<'a>(&self, local_path: &'a LocalPath) -> (res: Option<&'a [String]>)
        ensures
            match res {
                Some(d) => local_wildcard_match(self@, local_path@) == Some(texts(d@)),
                None => local_wildcard_match(self@, local_path@).is_none(),
            },
    {
        let local_dir_diff = match self.dirs.match_and_get_diff(&local_path.dirs) {
            Some(d) => d,
            None => return None,
        };
        assert(texts(local_dir_diff@).len() == local_dir_diff@.len());
        if !self.recursive && local_dir_diff.len() != 0 {
            return None;
        }
        if !self.wildcard.check_match(local_path.file.as_str()) {
            return None;
        }
        Some(local_dir_diff)
    }
}

} // verus!
