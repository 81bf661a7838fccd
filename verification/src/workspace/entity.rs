//! Workspace configuration: a root directory and ordered mappings between
//! depot ranges and local paths, with the checks that keep them consistent.
use vstd::prelude::*;
use crate::text::{
    copy_slice, copy_string, copy_strings, copy_strings_range, ends_with, extend_strings, join_lines, join_with_newlines,
    push_decimal, decimal, string_eq, string_push, string_push_str, text_ends_with, texts,
};
use crate::path::basic::{
    common_prefix_end_index, common_prefix_len, depot_path_text, dirs_text, local_path_text,
    DepotPath, DepotPathView, DepotPathWildcard, DepotPathWildcardView, FilenameWildcard,
    FilenameWildcardView, LocalDir, LocalPath, LocalPathView, RangeDepotWildcard,
    RangeDepotWildcardView,
};
use crate::path::grammar::{read_mappings, whole, local_dir_at, mapping_spec, MappingItem, ReadMapping};

verus! {

/// A workspace as stored: its name, times (milliseconds since the Unix
/// epoch), owner, root path and the fingerprint of the device it lives on.
#[derive(Debug, Clone)]
pub struct WorkspaceEntity {
    pub name: String,
    pub created_at: i64,
    pub updated_at: i64,
    pub owner: String,
    pub path: String,
    pub device_finger_print: String,
}

/// Errors of workspace configuration.
#[derive(Debug, Clone, PartialEq, Eq)]
pub enum WorkspaceError {
    /// The root directory or the mappings do not read.
    SyntaxError(String),
    /// Two mappings send different depot files to one local file.
    MappingConflictError(String),
    /// A mapping's local side lies outside the workspace root.
    MappingNotUnderRoot(String),
}

pub type WorkspaceResult<T> = Result<T, WorkspaceError>;

/// A workspace mapping, applied in order (later ones take precedence).
#[derive(Debug, Clone)]
pub enum WorkspaceMapping {
    Include(IncludeMapping),
    Exclude(ExcludeMapping),
}

/// A mapping that brings depot files into the workspace.
#[derive(Debug, Clone)]
pub enum IncludeMapping {
    File(FileMapping),
    Folder(FolderMapping),
}

/// A mapping that keeps depot files out of the workspace.
#[derive(Debug, Clone)]
pub struct ExcludeMapping(pub DepotPathWildcard);

/// One depot file to one local file.
#[derive(Debug, Clone)]
pub struct FileMapping {
    pub depot_file: DepotPath,
    pub local_file: LocalPath,
}

/// A depot range to a local folder.
#[derive(Debug, Clone)]
pub struct FolderMapping {
    pub depot_folder: RangeDepotWildcard,
    pub local_folder: LocalDir,
}

/// A workspace: its root and its mappings.
#[derive(Debug, Clone)]
pub struct WorkspaceConfig {
    /// Root directory.
    pub root_dir: LocalDir,
    /// Mappings, in order; later ones take precedence.
    pub mappings: Vec<WorkspaceMapping>,
}

/// Abstract include mapping.
pub enum IncludeView {
    File { depot: DepotPathView, local: LocalPathView },
    Folder { depot: RangeDepotWildcardView, local: Seq<Seq<char>> },
}

impl View for IncludeMapping {
    type V = IncludeView;

    open spec fn view(&self) -> IncludeView {
        match self {
            IncludeMapping::File(f) => IncludeView::File { depot: f.depot_file@, local: f.local_file@ },
            IncludeMapping::Folder(f) => IncludeView::Folder { depot: f.depot_folder@, local: f.local_folder@ },
        }
    }
}

/// Abstract mapping.
pub enum MappingView {
    Include(IncludeView),
    Exclude(DepotPathWildcardView),
}

impl View for WorkspaceMapping {
    type V = MappingView;

    open spec fn view(&self) -> MappingView {
        match self {
            WorkspaceMapping::Include(m) => MappingView::Include(m@),
            WorkspaceMapping::Exclude(ExcludeMapping(w)) => MappingView::Exclude(w@),
        }
    }
}

/// Abstract workspace configuration.
pub struct WorkspaceConfigView {
    pub root_dir: Seq<Seq<char>>,
    pub mappings: Seq<MappingView>,
}

impl View for WorkspaceConfig {
    type V = WorkspaceConfigView;

    open spec fn view(&self) -> WorkspaceConfigView {
        WorkspaceConfigView {
            root_dir: self.root_dir@,
            mappings: self.mappings@.map_values(|m: WorkspaceMapping| m@),
        }
    }
}

/// The workspace that a root text and a mapping text describe, when both read.
pub open spec fn config_from_text(root: Seq<char>, mappings: Seq<char>) -> Option<WorkspaceConfigView> {
    match (whole(local_dir_at(root, 0), root), mapping_spec(mappings)) {
        (Some(r), Some(items)) => Some(WorkspaceConfigView {
            root_dir: r,
            mappings: items.map_values(|m: MappingItem| item_mapping(m)),
        }),
        _ => None,
    }
}

/// The mapping a read mapping line stands for.
pub open spec fn item_mapping(m: MappingItem) -> MappingView {
    match m {
        MappingItem::Exclude(w) => MappingView::Exclude(w),
        MappingItem::File(d, l) => MappingView::Include(IncludeView::File { depot: d, local: l }),
        MappingItem::Folder(d, l) => MappingView::Include(IncludeView::Folder { depot: d, local: l }),
    }
}

// ---------------------------------------------------------------------------
// Local sides under the root.

/// The local directory of an include mapping.
pub open spec fn include_local_dir(m: IncludeView) -> Seq<Seq<char>> {
    match m {
        IncludeView::File { local, .. } => local.dirs,
        IncludeView::Folder { local, .. } => local,
    }
}

/// The message for a mapping whose local side is not under the root.
pub open spec fn not_under_root_message(m: IncludeView, root: Seq<Seq<char>>) -> Seq<char> {
    match m {
        IncludeView::File { local, .. } => "local file "@ + local_path_text(local) + " not under root dir "@
            + seq!['/'] + dirs_text(root),
        IncludeView::Folder { local, .. } => "local dir "@ + seq!['/'] + dirs_text(local)
            + " not under root dir "@ + seq!['/'] + dirs_text(root),
    }
}

/// The messages for the first `n` mappings whose local side is not under the root.
pub open spec fn root_errors(c: WorkspaceConfigView, n: int) -> Seq<Seq<char>>
    decreases n,
{
    if n <= 0 {
        Seq::empty()
    } else {
        let prev = root_errors(c, n - 1);
        match c.mappings[n - 1] {
            MappingView::Include(m) => if common_prefix_len(include_local_dir(m), c.root_dir)
                == c.root_dir.len() {
                prev
            } else {
                prev.push(not_under_root_message(m, c.root_dir))
            },
            MappingView::Exclude(_) => prev,
        }
    }
}

// ---------------------------------------------------------------------------
// Conflicts between two mappings.

/// The pair of include mappings `(primary, secondary)` for indices `i` and
/// `j`: the later one first.
pub open spec fn race_pair(c: WorkspaceConfigView, i: int, j: int) -> Option<(IncludeView, IncludeView)> {
    if i == j {
        None
    } else {
        let p = if i > j { i } else { j };
        let s = if i > j { j } else { i };
        match (c.mappings[p], c.mappings[s]) {
            (MappingView::Include(a), MappingView::Include(b)) => Some((a, b)),
            _ => None,
        }
    }
}

/// A filename matched by the pattern of a file mapping's counterpart.
pub open spec fn file_against_pattern(file: Seq<char>, w: FilenameWildcardView) -> Option<Seq<char>> {
    match w {
        FilenameWildcardView::Exact(f) => if file == f { Some(file) } else { None },
        FilenameWildcardView::Extension(x) => if ends_with(file, x) { Some(file) } else { None },
        FilenameWildcardView::All => Some(file),
    }
}

/// A filename that both patterns of two folder mappings match, if the
/// patterns can share one.
pub open spec fn patterns_shared_file(a: FilenameWildcardView, b: FilenameWildcardView) -> Option<Seq<char>> {
    match (a, b) {
        (FilenameWildcardView::Exact(x), FilenameWildcardView::Exact(y)) => if x == y { Some(x) } else { None },
        (FilenameWildcardView::Exact(f), FilenameWildcardView::Extension(x)) => if ends_with(f, x) { Some(f) } else { None },
        (FilenameWildcardView::Exact(f), FilenameWildcardView::All) => Some(f),
        (FilenameWildcardView::Extension(x), FilenameWildcardView::Exact(f)) => if ends_with(f, x) { Some(f) } else { None },
        (FilenameWildcardView::Extension(x), FilenameWildcardView::Extension(y)) => if ends_with(x, y) {
            Some("your_file"@ + x)
        } else if ends_with(y, x) {
            Some("your_file"@ + y)
        } else {
            None
        },
        (FilenameWildcardView::Extension(x), FilenameWildcardView::All) => Some("your_file"@ + x),
        (FilenameWildcardView::All, FilenameWildcardView::Exact(f)) => Some(f),
        (FilenameWildcardView::All, FilenameWildcardView::Extension(x)) => Some("your_file"@ + x),
        (FilenameWildcardView::All, FilenameWildcardView::All) => Some("your_file.txt"@),
    }
}

/// Considering filenames only: a local filename that the two mappings `i`
/// and `j` could both produce.
pub open spec fn conflict_file(c: WorkspaceConfigView, i: int, j: int) -> Option<Seq<char>> {
    match race_pair(c, i, j) {
        None => None,
        Some((p, s)) => match (p, s) {
            (IncludeView::File { local: pl, .. }, IncludeView::File { local: sl, .. }) => if pl.file == sl.file {
                Some(pl.file)
            } else {
                None
            },
            (IncludeView::File { local: pl, .. }, IncludeView::Folder { depot: sd, .. }) => file_against_pattern(pl.file, sd.wildcard),
            (IncludeView::Folder { depot: pd, .. }, IncludeView::File { local: sl, .. }) => file_against_pattern(sl.file, pd.wildcard),
            (IncludeView::Folder { depot: pd, .. }, IncludeView::Folder { depot: sd, .. }) => patterns_shared_file(pd.wildcard, sd.wildcard),
        },
    }
}

/// Two depot files and the local file they would both be mapped to.
pub struct ConflictWitness {
    pub first: DepotPathView,
    pub second: DepotPathView,
    pub local: LocalPathView,
}

pub open spec fn witness(d1: Seq<Seq<char>>, f1: Seq<char>, d2: Seq<Seq<char>>, f2: Seq<char>, l: Seq<Seq<char>>, lf: Seq<char>) -> Option<ConflictWitness> {
    Some(ConflictWitness {
        first: DepotPathView { dirs: d1, file: f1 },
        second: DepotPathView { dirs: d2, file: f2 },
        local: LocalPathView { dirs: l, file: lf },
    })
}

/// File mapping `p` (later) against folder mapping `s` (earlier).
pub open spec fn file_over_folder(pd: DepotPathView, pl: LocalPathView, sd: RangeDepotWildcardView, sl: Seq<Seq<char>>, ex: Seq<char>) -> Option<ConflictWitness> {
    let lc = common_prefix_len(pl.dirs, sl);
    let dc = common_prefix_len(pd.dirs, sd.dirs);
    let local_contain = lc == sl.len();
    let depot_contain = dc == sd.dirs.len();
    let local_diff = pl.dirs.skip(lc);
    if local_contain && !depot_contain {
        if !sd.recursive && local_diff.len() != 0 {
            None
        } else {
            witness(sd.dirs + local_diff, ex, pd.dirs, pd.file, pl.dirs, ex)
        }
    } else if local_contain && depot_contain {
        let depot_diff = pd.dirs.skip(dc);
        if local_diff == depot_diff && pl.file == pd.file {
            None
        } else if !sd.recursive && local_diff.len() != 0 {
            None
        } else {
            witness(sd.dirs + local_diff, ex, pd.dirs, pd.file, pl.dirs, ex)
        }
    } else {
        None
    }
}

/// Folder mapping `p` (later) against file mapping `s` (earlier).
pub open spec fn folder_over_file(pd: RangeDepotWildcardView, pl: Seq<Seq<char>>, sd: DepotPathView, sl: LocalPathView, ex: Seq<char>) -> Option<ConflictWitness> {
    let lc = common_prefix_len(pl, sl.dirs);
    let dc = common_prefix_len(pd.dirs, sd.dirs);
    if lc == pl.len() && dc != pd.dirs.len() {
        let local_diff = sl.dirs.skip(lc);
        if !pd.recursive && local_diff.len() != 0 {
            None
        } else {
            witness(pd.dirs + local_diff, ex, sd.dirs, sd.file, sl.dirs, ex)
        }
    } else {
        None
    }
}

/// Folder mapping `p` (later) against folder mapping `s` (earlier).
pub open spec fn folder_over_folder(pd: RangeDepotWildcardView, pl: Seq<Seq<char>>, sd: RangeDepotWildcardView, sl: Seq<Seq<char>>, ex: Seq<char>) -> Option<ConflictWitness> {
    let lc = common_prefix_len(pl, sl);
    let dc = common_prefix_len(pd.dirs, sd.dirs);
    let lmin = if pl.len() < sl.len() { pl.len() } else { sl.len() };
    let dmin = if pd.dirs.len() < sd.dirs.len() { pd.dirs.len() } else { sd.dirs.len() };
    if lc != lmin {
        None
    } else if pl.len() > sl.len() {
        let local_diff = pl.skip(lc);
        if dc == dmin {
            if pd.dirs.len() > sd.dirs.len() {
                let depot_diff = pd.dirs.skip(dc);
                let dd = common_prefix_len(local_diff, depot_diff);
                if depot_diff.len() <= local_diff.len() && dd == depot_diff.len() {
                    None
                } else if !sd.recursive {
                    None
                } else {
                    witness(pd.dirs.take(dc + dd) + local_diff.skip(dd), ex, pd.dirs, ex, pl, ex)
                }
            } else {
                None
            }
        } else if !sd.recursive {
            None
        } else {
            witness(sd.dirs + local_diff, ex, pd.dirs, ex, pl, ex)
        }
    } else if pl.len() < sl.len() {
        let local_diff = sl.skip(lc);
        if dc == dmin {
            if pd.dirs.len() > sd.dirs.len() {
                if !pd.recursive {
                    None
                } else {
                    witness(sd.dirs + local_diff, ex, pd.dirs + local_diff, ex, sl, ex)
                }
            } else {
                None
            }
        } else if !pd.recursive {
            None
        } else {
            witness(pd.dirs + local_diff, ex, sd.dirs, ex, sl, ex)
        }
    } else if dc == pd.dirs.len() {
        None
    } else {
        witness(pd.dirs, ex, sd.dirs, ex, sl, ex)
    }
}

/// The conflict between mappings `i` and `j`, if any: two depot files that
/// the pair would map to one local file.
pub open spec fn pair_conflict(c: WorkspaceConfigView, i: int, j: int) -> Option<ConflictWitness> {
    match (race_pair(c, i, j), conflict_file(c, i, j)) {
        (Some((p, s)), Some(ex)) => match (p, s) {
            (IncludeView::File { depot: pd, local: pl }, IncludeView::File { depot: sd, local: sl }) => if pl == sl && pd != sd {
                Some(ConflictWitness { first: pd, second: sd, local: pl })
            } else {
                None
            },
            (IncludeView::File { depot: pd, local: pl }, IncludeView::Folder { depot: sd, local: sl }) => file_over_folder(pd, pl, sd, sl, ex),
            (IncludeView::Folder { depot: pd, local: pl }, IncludeView::File { depot: sd, local: sl }) => folder_over_file(pd, pl, sd, sl, ex),
            (IncludeView::Folder { depot: pd, local: pl }, IncludeView::Folder { depot: sd, local: sl }) => folder_over_folder(pd, pl, sd, sl, ex),
        },
        _ => None,
    }
}

/// The text that reports a conflict.
pub open spec fn conflict_text(w: ConflictWitness) -> Seq<char> {
    depot_path_text(w.first) + " and "@ + depot_path_text(w.second) + " will both be mapped to the local path "@
        + local_path_text(w.local)
}

/// The report of mappings `i < j` in conflict.
pub open spec fn pair_error(c: WorkspaceConfigView, i: int, j: int) -> Seq<Seq<char>> {
    match pair_conflict(c, i, j) {
        Some(w) => seq!["Mapping rules "@ + decimal(i as nat) + " and "@ + decimal(j as nat) + " conflict: "@ + conflict_text(w)],
        None => Seq::empty(),
    }
}

/// Reports of mapping `i` against mappings `i + 1 .. j`.
pub open spec fn row_errors(c: WorkspaceConfigView, i: int, j: int) -> Seq<Seq<char>>
    decreases j - i,
{
    if j <= i + 1 {
        Seq::empty()
    } else {
        row_errors(c, i, j - 1) + pair_error(c, i, j - 1)
    }
}

/// Reports of every conflicting pair whose first index is below `n`.
pub open spec fn conflict_errors(c: WorkspaceConfigView, n: int) -> Seq<Seq<char>>
    decreases n,
{
    if n <= 0 {
        Seq::empty()
    } else {
        conflict_errors(c, n - 1) + row_errors(c, n - 1, c.mappings.len() as int)
    }
}

// ---------------------------------------------------------------------------

impl WorkspaceConfig {
    /// Builds a workspace from the text of its root directory and the text
    /// of its mappings, one per line:
    /// `//depot/file /local/file`, `//depot/dir/...~ext /local/dir`,
    /// `-//depot/range` or `-r://regex`.  The root must read as a local
    /// directory, the mappings must read, every local side must lie under
    /// the root, and no two mappings may conflict.
    pub fn from_specification(root_dir: &str, mappings: &str) -> (res: WorkspaceResult<Self>)
        ensures
            match res {
                Ok(c) => {
                    &&& config_from_text(root_dir@, mappings@) == Some(c@)
                    &&& root_errors(c@, c@.mappings.len() as int).len() == 0
                    &&& conflict_errors(c@, c@.mappings.len() as int).len() == 0
                },
                Err(WorkspaceError::SyntaxError(_)) => config_from_text(root_dir@, mappings@).is_none(),
                Err(WorkspaceError::MappingNotUnderRoot(msg)) => {
                    &&& config_from_text(root_dir@, mappings@) matches Some(c)
                    &&& root_errors(c, c.mappings.len() as int).len() > 0
                    &&& msg@ == join_lines(root_errors(c, c.mappings.len() as int))
                },
                Err(WorkspaceError::MappingConflictError(msg)) => {
                    &&& config_from_text(root_dir@, mappings@) matches Some(c)
                    &&& root_errors(c, c.mappings.len() as int).len() == 0
                    &&& conflict_errors(c, c.mappings.len() as int).len() > 0
                    &&& msg@ == join_lines(conflict_errors(c, c.mappings.len() as int))
                },
            },
    {
        let root = match LocalDir::parse(root_dir) {
            Ok(r) => r,
            Err(_) => return Err(WorkspaceError::SyntaxError(String::from_str("invalid root dir"))),
        };
        let read = match read_mappings(mappings) {
            Some(v) => v,
            None => return Err(WorkspaceError::SyntaxError(String::from_str("invalid workspace mappings"))),
        };
        let workspace_config = WorkspaceConfig { root_dir: root, mappings: to_mappings(&read) };
        assert(config_from_text(root_dir@, mappings@) == Some(workspace_config@));
        match workspace_config.verify_mapping_under_root() {
            Ok(()) => {},
            Err(errors) => return Err(WorkspaceError::MappingNotUnderRoot(join_with_newlines(&errors))),
        }
        match workspace_config.verify_conflict_free() {
            Ok(()) => {},
            Err(errors) => return Err(WorkspaceError::MappingConflictError(join_with_newlines(&errors))),
        }
        Ok(workspace_config)
    }

    /// Checks that the local side of every include mapping lies under the
    /// root; the messages of those that do not, in order.
    pub fn verify_mapping_under_root(&self) -> (res: Result<(), Vec<String>>)
        ensures
            match res {
                Ok(()) => root_errors(self@, self@.mappings.len() as int).len() == 0,
                Err(v) => texts(v@) == root_errors(self@, self@.mappings.len() as int) && v@.len() > 0,
            },
    {
        let mut errors: Vec<String> = Vec::new();
        let mut i: usize = 0;
        while i < self.mappings.len()
            invariant
                i <= self.mappings@.len(),
                texts(errors@) == root_errors(self@, i as int),
            decreases self.mappings@.len() - i,
        {
            assert(self@.mappings[i as int] == self.mappings@[i as int]@);
            let ghost e_prev = texts(errors@);
            match &self.mappings[i] {
                WorkspaceMapping::Include(include_mapping) => {
                    match include_mapping {
                        IncludeMapping::File(file_mapping) => {
                            if common_prefix_end_index(file_mapping.local_file.dirs.0.as_slice(), self.root_dir.0.as_slice()) != self.root_dir.0.len() {
                                let mut msg = String::new();
                                string_push_str(&mut msg, "local file ");
                                let a = file_mapping.local_file.to_unix_path_string();
                                string_push_str(&mut msg, a.as_str());
                                string_push_str(&mut msg, " not under root dir ");
                                let b = self.root_dir.to_unix_path_string();
                                string_push_str(&mut msg, b.as_str());
                                assert(msg@ =~= not_under_root_message(include_mapping@, self@.root_dir));
                                let ghost e0 = errors@;
                                errors.push(msg);
                                assert(texts(errors@) =~= texts(e0).push(msg@));
                            }
                        },
                        IncludeMapping::Folder(folder_mapping) => {
                            if common_prefix_end_index(folder_mapping.local_folder.0.as_slice(), self.root_dir.0.as_slice()) != self.root_dir.0.len() {
                                let mut msg = String::new();
                                string_push_str(&mut msg, "local dir ");
                                let a = folder_mapping.local_folder.to_unix_path_string();
                                string_push_str(&mut msg, a.as_str());
                                string_push_str(&mut msg, " not under root dir ");
                                let b = self.root_dir.to_unix_path_string();
                                string_push_str(&mut msg, b.as_str());
                                assert(msg@ =~= not_under_root_message(include_mapping@, self@.root_dir));
                                let ghost e0 = errors@;
                                errors.push(msg);
                                assert(texts(errors@) =~= texts(e0).push(msg@));
                            }
                        },
                    }
                },
                WorkspaceMapping::Exclude(_) => {},
            }
            proof {
                let c = self@;
                match c.mappings[i as int] {
                    MappingView::Include(m) => {
                        if common_prefix_len(include_local_dir(m), c.root_dir) == c.root_dir.len() {
                            assert(texts(errors@) == e_prev);
                        }
                    },
                    MappingView::Exclude(_) => {},
                }
                assert(root_errors(c, i + 1) == (match c.mappings[i as int] {
                    MappingView::Include(m) => if common_prefix_len(include_local_dir(m), c.root_dir) == c.root_dir.len() {
                        root_errors(c, i as int)
                    } else {
                        root_errors(c, i as int).push(not_under_root_message(m, c.root_dir))
                    },
                    MappingView::Exclude(_) => root_errors(c, i as int),
                }));
            }
            i = i + 1;
        }
        if errors.len() == 0 {
            Ok(())
        } else {
            Err(errors)
        }
    }
}

/// The workspace mappings that read mapping lines stand for.
fn to_mappings(read: &Vec<ReadMapping>) -> (list: Vec<WorkspaceMapping>)
    ensures
        list@.map_values(|m: WorkspaceMapping| m@) == read@.map_values(|m: ReadMapping| m@).map_values(|m: MappingItem| item_mapping(m)),
{
    let mut list: Vec<WorkspaceMapping> = Vec::new();
    let mut i: usize = 0;
    while i < read.len()
        invariant
            i <= read@.len(),
            list@.len() == i,
            forall|k: int| 0 <= k < i ==> #[trigger] list@[k]@ == item_mapping(read@[k]@),
        decreases read@.len() - i,
    {
        let m = match &read[i] {
            ReadMapping::Exclude(w) => WorkspaceMapping::Exclude(ExcludeMapping(copy_depot_wildcard(w))),
            ReadMapping::File(d, l) => WorkspaceMapping::Include(IncludeMapping::File(FileMapping { depot_file: d.copy(), local_file: l.copy() })),
            ReadMapping::Folder(d, l) => WorkspaceMapping::Include(IncludeMapping::Folder(FolderMapping { depot_folder: copy_range(d), local_folder: l.copy() })),
        };
        list.push(m);
        i = i + 1;
    }
    assert(list@.map_values(|m: WorkspaceMapping| m@) =~= read@.map_values(|m: ReadMapping| m@).map_values(|m: MappingItem| item_mapping(m)));
    list
}

/// A copy of a range wildcard.
pub fn copy_range(r: &RangeDepotWildcard) -> (res: RangeDepotWildcard)
    ensures
        res@ == r@,
{
    RangeDepotWildcard { dirs: copy_strings(&r.dirs), recursive: r.recursive, wildcard: copy_wildcard(&r.wildcard) }
}

/// A copy of a depot wildcard.
pub fn copy_depot_wildcard(w: &DepotPathWildcard) -> (res: DepotPathWildcard)
    ensures
        res@ == w@,
{
    match w {
        DepotPathWildcard::Range(r) => DepotPathWildcard::Range(copy_range(r)),
        DepotPathWildcard::Regex(r) => DepotPathWildcard::Regex(crate::path::basic::RegexDepotWildcard { pattern: copy_string(&r.pattern) }),
    }
}

/// A copy of a filename pattern.
pub fn copy_wildcard(w: &FilenameWildcard) -> (res: FilenameWildcard)
    ensures
        res@ == w@,
{
    match w {
        FilenameWildcard::Exact(s) => FilenameWildcard::Exact(copy_string(s)),
        FilenameWildcard::Extension(s) => FilenameWildcard::Extension(copy_string(s)),
        FilenameWildcard::All => FilenameWildcard::All,
    }
}


/// The filename of a file mapping checked against a folder mapping's pattern.
fn file_against_pattern_exec(file: &String, w: &FilenameWildcard) -> (r: Option<String>)
    ensures
        match r {
            Some(f) => file_against_pattern(file@, w@) == Some(f@),
            None => file_against_pattern(file@, w@).is_none(),
        },
{
    match w {
        FilenameWildcard::Exact(f) => if string_eq(file, f) { Some(copy_string(file)) } else { None },
        FilenameWildcard::Extension(x) => if text_ends_with(file, x) { Some(copy_string(file)) } else { None },
        FilenameWildcard::All => Some(copy_string(file)),
    }
}

fn your_file(suffix: &String) -> (r: String)
    ensures
        r@ == "your_file"@ + suffix@,
{
    let mut r = String::new();
    string_push_str(&mut r, "your_file");
    string_push_str(&mut r, suffix.as_str());
    r
}

/// A filename two folder patterns can share.
fn patterns_shared_file_exec(a: &FilenameWildcard, b: &FilenameWildcard) -> (r: Option<String>)
    ensures
        match r {
            Some(f) => patterns_shared_file(a@, b@) == Some(f@),
            None => patterns_shared_file(a@, b@).is_none(),
        },
{
    match (a, b) {
        (FilenameWildcard::Exact(x), FilenameWildcard::Exact(y)) => if string_eq(x, y) { Some(copy_string(x)) } else { None },
        (FilenameWildcard::Exact(f), FilenameWildcard::Extension(x)) => if text_ends_with(f, x) { Some(copy_string(f)) } else { None },
        (FilenameWildcard::Exact(f), FilenameWildcard::All) => Some(copy_string(f)),
        (FilenameWildcard::Extension(x), FilenameWildcard::Exact(f)) => if text_ends_with(f, x) { Some(copy_string(f)) } else { None },
        (FilenameWildcard::Extension(x), FilenameWildcard::Extension(y)) => if text_ends_with(x, y) {
            Some(your_file(x))
        } else if text_ends_with(y, x) {
            Some(your_file(y))
        } else {
            None
        },
        (FilenameWildcard::Extension(x), FilenameWildcard::All) => Some(your_file(x)),
        (FilenameWildcard::All, FilenameWildcard::Exact(f)) => Some(copy_string(f)),
        (FilenameWildcard::All, FilenameWildcard::Extension(x)) => Some(your_file(x)),
        (FilenameWildcard::All, FilenameWildcard::All) => Some(String::from_str("your_file.txt")),
    }
}

/// `a + b` as a new list of names.
fn concat_dirs(a: &[String], b: &[String]) -> (r: Vec<String>)
    ensures
        texts(r@) == texts(a@) + texts(b@),
{
    let mut r = copy_strings_range(a, 0, a.len());
    assert(texts(a@).subrange(0, a@.len() as int) =~= texts(a@));
    extend_strings(&mut r, b);
    r
}

/// The exec counterpart of a conflict witness.
pub struct Conflict {
    pub first: DepotPath,
    pub second: DepotPath,
    pub local: LocalPath,
}

pub open spec fn conflict_view(c: Conflict) -> ConflictWitness {
    ConflictWitness { first: c.first@, second: c.second@, local: c.local@ }
}

fn make_conflict(d1: Vec<String>, f1: &String, d2: Vec<String>, f2: &String, l: Vec<String>, lf: &String) -> (r: Conflict)
    ensures
        conflict_view(r) == witness(texts(d1@), f1@, texts(d2@), f2@, texts(l@), lf@).unwrap(),
{
    Conflict {
        first: DepotPath { dirs: d1, file: copy_string(f1) },
        second: DepotPath { dirs: d2, file: copy_string(f2) },
        local: LocalPath { dirs: LocalDir(l), file: copy_string(lf) },
    }
}

proof fn lemma_skip_texts(v: Seq<String>, n: int)
    requires
        0 <= n <= v.len(),
    ensures
        texts(v).skip(n) == texts(v.subrange(n, v.len() as int)),
{
    assert(texts(v).skip(n) =~= texts(v.subrange(n, v.len() as int)));
}

fn file_over_folder_exec(pm: &FileMapping, sm: &FolderMapping, ex: &String) -> (r: Option<Conflict>)
    ensures
        match r {
            Some(c) => file_over_folder(pm.depot_file@, pm.local_file@, sm.depot_folder@, sm.local_folder@, ex@) == Some(conflict_view(c)),
            None => file_over_folder(pm.depot_file@, pm.local_file@, sm.depot_folder@, sm.local_folder@, ex@).is_none(),
        },
{
    let pl = pm.local_file.dirs.0.as_slice();
    let sl = sm.local_folder.0.as_slice();
    let pd = pm.depot_file.dirs.as_slice();
    let sd = sm.depot_folder.dirs.as_slice();
    let lc = common_prefix_end_index(pl, sl);
    let dc = common_prefix_end_index(pd, sd);
    let local_contain = lc == sl.len();
    let depot_contain = dc == sd.len();
    let local_diff = &pl[lc..pl.len()];
    proof { lemma_skip_texts(pl@, lc as int); }
    assert(texts(local_diff@).len() == local_diff@.len());
    if local_contain && !depot_contain {
        if !sm.depot_folder.recursive && local_diff.len() != 0 {
            None
        } else {
            Some(make_conflict(concat_dirs(sd, local_diff), ex, copy_slice(pd), &pm.depot_file.file, copy_slice(pl), ex))
        }
    } else if local_contain && depot_contain {
        let depot_diff = &pd[dc..pd.len()];
        proof { lemma_skip_texts(pd@, dc as int); }
        if crate::text::strings_eq(local_diff, depot_diff) && string_eq(&pm.local_file.file, &pm.depot_file.file) {
            None
        } else if !sm.depot_folder.recursive && local_diff.len() != 0 {
            None
        } else {
            Some(make_conflict(concat_dirs(sd, local_diff), ex, copy_slice(pd), &pm.depot_file.file, copy_slice(pl), ex))
        }
    } else {
        None
    }
}

fn folder_over_file_exec(pm: &FolderMapping, sm: &FileMapping, ex: &String) -> (r: Option<Conflict>)
    ensures
        match r {
            Some(c) => folder_over_file(pm.depot_folder@, pm.local_folder@, sm.depot_file@, sm.local_file@, ex@) == Some(conflict_view(c)),
            None => folder_over_file(pm.depot_folder@, pm.local_folder@, sm.depot_file@, sm.local_file@, ex@).is_none(),
        },
{
    let pl = pm.local_folder.0.as_slice();
    let sl = sm.local_file.dirs.0.as_slice();
    let pd = pm.depot_folder.dirs.as_slice();
    let sd = sm.depot_file.dirs.as_slice();
    let lc = common_prefix_end_index(pl, sl);
    let dc = common_prefix_end_index(pd, sd);
    if lc == pl.len() && dc != pd.len() {
        let local_diff = &sl[lc..sl.len()];
        proof { lemma_skip_texts(sl@, lc as int); }
        assert(texts(local_diff@).len() == local_diff@.len());
        if !pm.depot_folder.recursive && local_diff.len() != 0 {
            None
        } else {
            Some(make_conflict(concat_dirs(pd, local_diff), ex, copy_slice(sd), &sm.depot_file.file, copy_slice(sl), ex))
        }
    } else {
        None
    }
}

fn min_usize(a: usize, b: usize) -> (r: usize)
    ensures
        r == (if a < b { a } else { b }),
{
    if a < b { a } else { b }
}

fn folder_over_folder_exec(pm: &FolderMapping, sm: &FolderMapping, ex: &String) -> (r: Option<Conflict>)
    ensures
        match r {
            Some(c) => folder_over_folder(pm.depot_folder@, pm.local_folder@, sm.depot_folder@, sm.local_folder@, ex@) == Some(conflict_view(c)),
            None => folder_over_folder(pm.depot_folder@, pm.local_folder@, sm.depot_folder@, sm.local_folder@, ex@).is_none(),
        },
{
    let pl = pm.local_folder.0.as_slice();
    let sl = sm.local_folder.0.as_slice();
    let pd = pm.depot_folder.dirs.as_slice();
    let sd = sm.depot_folder.dirs.as_slice();
    let lc = common_prefix_end_index(pl, sl);
    let dc = common_prefix_end_index(pd, sd);
    if lc != min_usize(pl.len(), sl.len()) {
        return None;
    }
    if pl.len() > sl.len() {
        let local_diff = &pl[lc..pl.len()];
        proof { lemma_skip_texts(pl@, lc as int); }
        if dc == min_usize(pd.len(), sd.len()) {
            if pd.len() > sd.len() {
                let depot_diff = &pd[dc..pd.len()];
                proof { lemma_skip_texts(pd@, dc as int); }
                let dd = common_prefix_end_index(local_diff, depot_diff);
                if depot_diff.len() <= local_diff.len() && dd == depot_diff.len() {
                    None
                } else if !sm.depot_folder.recursive {
                    None
                } else {
                    let head = copy_strings_range(pd, 0, dc + dd);
                    assert(texts(pd@).subrange(0, dc + dd) =~= texts(pd@).take(dc + dd));
                    let tail = &local_diff[dd..local_diff.len()];
                    proof { lemma_skip_texts(local_diff@, dd as int); }
                    Some(make_conflict(concat_dirs(head.as_slice(), tail), ex, copy_slice(pd), ex, copy_slice(pl), ex))
                }
            } else {
                None
            }
        } else if !sm.depot_folder.recursive {
            None
        } else {
            Some(make_conflict(concat_dirs(sd, local_diff), ex, copy_slice(pd), ex, copy_slice(pl), ex))
        }
    } else if pl.len() < sl.len() {
        let local_diff = &sl[lc..sl.len()];
        proof { lemma_skip_texts(sl@, lc as int); }
        if dc == min_usize(pd.len(), sd.len()) {
            if pd.len() > sd.len() {
                if !pm.depot_folder.recursive {
                    None
                } else {
                    Some(make_conflict(concat_dirs(sd, local_diff), ex, concat_dirs(pd, local_diff), ex, copy_slice(sl), ex))
                }
            } else {
                None
            }
        } else if !pm.depot_folder.recursive {
            None
        } else {
            Some(make_conflict(concat_dirs(pd, local_diff), ex, copy_slice(sd), ex, copy_slice(sl), ex))
        }
    } else if dc == pd.len() {
        None
    } else {
        Some(make_conflict(copy_slice(pd), ex, copy_slice(sd), ex, copy_slice(sl), ex))
    }
}

impl WorkspaceConfig {
    /// The two mappings `index_1` and `index_2` as `(primary, secondary)`,
    /// the later one first, when both are include mappings and distinct.
    pub fn try_race_mapping_pair<'a>(&'a self, index_1: usize, index_2: usize) -> (r: Option<(&'a IncludeMapping, &'a IncludeMapping)>)
        requires
            index_1 < self.mappings@.len(),
            index_2 < self.mappings@.len(),
        ensures
            match r {
                Some((p, s)) => race_pair(self@, index_1 as int, index_2 as int) == Some((p@, s@)),
                None => race_pair(self@, index_1 as int, index_2 as int).is_none(),
            },
    {
        if index_1 == index_2 {
            return None;
        }
        let primary = if index_1 > index_2 { index_1 } else { index_2 };
        let secondary = if index_1 > index_2 { index_2 } else { index_1 };
        assert(self@.mappings[primary as int] == self.mappings@[primary as int]@);
        assert(self@.mappings[secondary as int] == self.mappings@[secondary as int]@);
        let p = match &self.mappings[primary] {
            WorkspaceMapping::Include(m) => m,
            WorkspaceMapping::Exclude(_) => return None,
        };
        let s = match &self.mappings[secondary] {
            WorkspaceMapping::Include(m) => m,
            WorkspaceMapping::Exclude(_) => return None,
        };
        Some((p, s))
    }

    /// Considering filenames only: a local filename that the mappings
    /// `index_1` and `index_2` could both produce, if any.
    pub fn possible_conflict_file(&self, index_1: usize, index_2: usize) -> (r: Option<String>)
        requires
            index_1 < self.mappings@.len(),
            index_2 < self.mappings@.len(),
        ensures
            match r {
                Some(f) => conflict_file(self@, index_1 as int, index_2 as int) == Some(f@),
                None => conflict_file(self@, index_1 as int, index_2 as int).is_none(),
            },
    {
        let (primary, secondary) = match self.try_race_mapping_pair(index_1, index_2) {
            Some(pair) => pair,
            None => return None,
        };
        match (primary, secondary) {
            (IncludeMapping::File(p), IncludeMapping::File(s)) => if string_eq(&p.local_file.file, &s.local_file.file) {
                Some(copy_string(&p.local_file.file))
            } else {
                None
            },
            (IncludeMapping::File(p), IncludeMapping::Folder(s)) => file_against_pattern_exec(&p.local_file.file, &s.depot_folder.wildcard),
            (IncludeMapping::Folder(p), IncludeMapping::File(s)) => file_against_pattern_exec(&s.local_file.file, &p.depot_folder.wildcard),
            (IncludeMapping::Folder(p), IncludeMapping::Folder(s)) => patterns_shared_file_exec(&p.depot_folder.wildcard, &s.depot_folder.wildcard),
        }
    }

    /// The text reporting that two depot files map to one local file.
    pub fn conflict_message(depot_path_1: &DepotPath, depot_path_2: &DepotPath, local_path: &LocalPath) -> (r: String)
        ensures
            r@ == conflict_text(ConflictWitness { first: depot_path_1@, second: depot_path_2@, local: local_path@ }),
    {
        let mut out = depot_path_1.to_custom_string();
        string_push_str(&mut out, " and ");
        let b = depot_path_2.to_custom_string();
        string_push_str(&mut out, b.as_str());
        string_push_str(&mut out, " will both be mapped to the local path ");
        let c = local_path.to_unix_path_string();
        string_push_str(&mut out, c.as_str());
        out
    }

    /// Whether mappings `index_1` and `index_2` conflict; the report when
    /// they do.
    pub fn verify_mapping_pair(&self, index_1: usize, index_2: usize) -> (r: Result<(), String>)
        requires
            index_1 < self.mappings@.len(),
            index_2 < self.mappings@.len(),
        ensures
            match r {
                Ok(()) => pair_conflict(self@, index_1 as int, index_2 as int).is_none(),
                Err(m) => pair_conflict(self@, index_1 as int, index_2 as int) matches Some(w) && m@ == conflict_text(w),
            },
    {
        let (primary, secondary) = match self.try_race_mapping_pair(index_1, index_2) {
            Some(pair) => pair,
            None => return Ok(()),
        };
        let ex = match self.possible_conflict_file(index_1, index_2) {
            Some(f) => f,
            None => return Ok(()),
        };
        let found = match (primary, secondary) {
            (IncludeMapping::File(p), IncludeMapping::File(s)) => {
                if p.local_file.same_as(&s.local_file) && !p.depot_file.same_as(&s.depot_file) {
                    Some(Conflict { first: p.depot_file.copy(), second: s.depot_file.copy(), local: p.local_file.copy() })
                } else {
                    None
                }
            },
            (IncludeMapping::File(p), IncludeMapping::Folder(s)) => file_over_folder_exec(p, s, &ex),
            (IncludeMapping::Folder(p), IncludeMapping::File(s)) => folder_over_file_exec(p, s, &ex),
            (IncludeMapping::Folder(p), IncludeMapping::Folder(s)) => folder_over_folder_exec(p, s, &ex),
        };
        match found {
            Some(c) => Err(Self::conflict_message(&c.first, &c.second, &c.local)),
            None => Ok(()),
        }
    }

    /// The end of the common prefix of two lists of names.
    pub fn common_prefix_end_index(slice_a: &[String], slice_b: &[String]) -> (n: usize)
        ensures
            n == common_prefix_len(texts(slice_a@), texts(slice_b@)),
            n <= slice_a@.len(),
            n <= slice_b@.len(),
    {
        common_prefix_end_index(slice_a, slice_b)
    }

    /// Checks every pair of mappings for conflicts; the reports of those
    /// that conflict, in order of their indices.
    pub fn verify_conflict_free(&self) -> (res: Result<(), Vec<String>>)
        ensures
            match res {
                Ok(()) => conflict_errors(self@, self@.mappings.len() as int).len() == 0,
                Err(v) => texts(v@) == conflict_errors(self@, self@.mappings.len() as int) && v@.len() > 0,
            },
    {
        let n = self.mappings.len();
        assert(self@.mappings.len() == n);
        let mut errors: Vec<String> = Vec::new();
        let mut i: usize = 0;
        while i < n
            invariant
                n == self.mappings@.len(),
                n == self@.mappings.len(),
                i <= n,
                texts(errors@) == conflict_errors(self@, i as int),
            decreases n - i,
        {
            let ghost before_row = texts(errors@);
            let mut j: usize = i + 1;
            while j < n
                invariant
                    n == self.mappings@.len(),
                    n == self@.mappings.len(),
                    i < n,
                    i + 1 <= j <= n,
                    texts(errors@) == before_row + row_errors(self@, i as int, j as int),
                decreases n - j,
            {
                let ghost e0 = errors@;
                match self.verify_mapping_pair(i, j) {
                    Err(error_message) => {
                        let mut msg = String::new();
                        string_push_str(&mut msg, "Mapping rules ");
                        push_decimal(&mut msg, i);
                        string_push_str(&mut msg, " and ");
                        push_decimal(&mut msg, j);
                        string_push_str(&mut msg, " conflict: ");
                        string_push_str(&mut msg, error_message.as_str());
                        errors.push(msg);
                        assert(texts(errors@) =~= texts(e0).push(msg@));
                        assert(pair_error(self@, i as int, j as int) =~= seq![msg@]);
                    },
                    Ok(()) => {},
                }
                assert(row_errors(self@, i as int, j + 1) == row_errors(self@, i as int, j as int) + pair_error(self@, i as int, j as int));
                assert(texts(errors@) =~= before_row + row_errors(self@, i as int, j + 1));
                j = j + 1;
            }
            assert(conflict_errors(self@, i + 1) == conflict_errors(self@, i as int) + row_errors(self@, i as int, n as int));
            i = i + 1;
        }
        if errors.len() == 0 {
            Ok(())
        } else {
            Err(errors)
        }
    }
}

} // verus!
