//! Mapping between depot paths and local paths through a workspace's
//! mappings; later mappings take precedence.
use vstd::prelude::*;
use crate::text::texts;
use crate::path::basic::{
    depot_path_text, diff_after, is_prefix_of, range_match, wildcard_matches, DepotPath, DepotPathView,
    DepotPathWildcard, LocalDir, LocalPath, LocalPathView,
};
use crate::path::pattern::{regex_compiles, regex_is_match, regex_matches};
use crate::workspace::entity::{
    ExcludeMapping, IncludeMapping, IncludeView, MappingView, WorkspaceConfig, WorkspaceConfigView,
    WorkspaceMapping,
};
use crate::path::basic::DepotPathWildcardView;

verus! {

/// The local file that depot file `d` maps to, looking at mappings
/// `n - 1` down to `0`: the first mapping that decides wins; an exclusion
/// that matches decides "not mapped".
pub open spec fn depot_to_local(ms: Seq<MappingView>, d: DepotPathView, n: int) -> Option<LocalPathView>
    decreases n,
{
    if n <= 0 {
        None
    } else {
        match ms[n - 1] {
            MappingView::Include(IncludeView::File { depot, local }) => if d == depot {
                Some(local)
            } else {
                depot_to_local(ms, d, n - 1)
            },
            MappingView::Include(IncludeView::Folder { depot, local }) => match range_match(depot, d) {
                Some(diff) => Some(LocalPathView { dirs: local + diff, file: d.file }),
                None => depot_to_local(ms, d, n - 1),
            },
            MappingView::Exclude(DepotPathWildcardView::Range(r)) => if range_match(r, d) is Some {
                None
            } else {
                depot_to_local(ms, d, n - 1)
            },
            MappingView::Exclude(DepotPathWildcardView::Regex(p)) => if regex_compiles(p) && regex_matches(p, depot_path_text(d)) {
                None
            } else {
                depot_to_local(ms, d, n - 1)
            },
        }
    }
}

/// The depot file that local file `l` stands for, looking at mappings
/// `n - 1` down to `0`: the first include mapping that covers `l` proposes a
/// depot file, which is the answer only when it maps back to `l`.
pub open spec fn local_to_depot(ms: Seq<MappingView>, l: LocalPathView, n: int) -> Option<DepotPathView>
    decreases n,
{
    if n <= 0 {
        None
    } else {
        match ms[n - 1] {
            MappingView::Include(IncludeView::File { depot, local }) => if local == l {
                if depot_to_local(ms, depot, ms.len() as int) == Some(l) {
                    Some(depot)
                } else {
                    None
                }
            } else {
                local_to_depot(ms, l, n - 1)
            },
            MappingView::Include(IncludeView::Folder { depot, local }) => if !wildcard_matches(depot.wildcard, l.file) {
                local_to_depot(ms, l, n - 1)
            } else {
                match diff_after(local, l.dirs) {
                    None => local_to_depot(ms, l, n - 1),
                    Some(diff) => {
                        let cand = DepotPathView { dirs: depot.dirs + diff, file: l.file };
                        if depot_to_local(ms, cand, ms.len() as int) == Some(l) {
                            Some(cand)
                        } else {
                            None
                        }
                    },
                }
            },
            MappingView::Exclude(_) => local_to_depot(ms, l, n - 1),
        }
    }
}

/// The path mapping engine of one workspace.
pub struct PathEngine {
    workspace: WorkspaceConfig,
}

impl View for PathEngine {
    type V = WorkspaceConfigView;

    closed spec fn view(&self) -> WorkspaceConfigView {
        self.workspace@
    }
}

impl PathEngine {
    /// An engine for the given workspace.
    pub fn new(workspace: WorkspaceConfig) -> (r: Self)
        ensures
            r@ == workspace@,
    {
        Self { workspace }
    }

    /// The depot file that a local file stands for, if the workspace maps
    /// it and it is not excluded.
    pub fn mapping_local_path(&self, local_path: &LocalPath) -> (r: Option<DepotPath>)
        ensures
            match r {
                Some(d) => local_to_depot(self@.mappings, local_path@, self@.mappings.len() as int) == Some(d@),
                None => local_to_depot(self@.mappings, local_path@, self@.mappings.len() as int).is_none(),
            },
    {
        let ms = &self.workspace.mappings;
        let n = ms.len();
        let ghost mv = self@.mappings;
        let mut k = n;
        while k > 0
            invariant
                n == ms@.len(),
                mv == ms@.map_values(|m: WorkspaceMapping| m@),
                mv == self@.mappings,
                k <= n,
                local_to_depot(mv, local_path@, n as int) == local_to_depot(mv, local_path@, k as int),
            decreases k,
        {
            assert(mv[k - 1] == ms@[k - 1]@);
            match &ms[k - 1] {
                WorkspaceMapping::Include(IncludeMapping::File(file_mapping)) => {
                    if file_mapping.local_file.same_as(local_path) {
                        let back = self.mapping_depot_path(&file_mapping.depot_file);
                        match back {
                            Some(b) => if b.same_as(local_path) {
                                return Some(file_mapping.depot_file.copy());
                            } else {
                                return None;
                            },
                            None => return None,
                        }
                    }
                },
                WorkspaceMapping::Include(IncludeMapping::Folder(folder_mapping)) => {
                    if folder_mapping.depot_folder.wildcard.check_match(local_path.file.as_str()) {
                        match folder_mapping.local_folder.match_and_get_diff(&local_path.dirs) {
                            Some(diff) => {
                                let mut dirs = crate::text::copy_strings(&folder_mapping.depot_folder.dirs);
                                crate::text::extend_strings(&mut dirs, diff);
                                let candidate = DepotPath { dirs, file: crate::text::copy_string(&local_path.file) };
                                let back = self.mapping_depot_path(&candidate);
                                match back {
                                    Some(b) => if b.same_as(local_path) {
                                        return Some(candidate);
                                    } else {
                                        return None;
                                    },
                                    None => return None,
                                }
                            },
                            None => {},
                        }
                    }
                },
                WorkspaceMapping::Exclude(_) => {},
            }
            k = k - 1;
        }
        None
    }

    /// The local file that a depot file maps to, if the workspace maps it
    /// and does not exclude it.
    pub fn mapping_depot_path(&self, depot_path: &DepotPath) -> (r: Option<LocalPath>)
        ensures
            match r {
                Some(l) => depot_to_local(self@.mappings, depot_path@, self@.mappings.len() as int) == Some(l@),
                None => depot_to_local(self@.mappings, depot_path@, self@.mappings.len() as int).is_none(),
            },
    {
        let ms = &self.workspace.mappings;
        let n = ms.len();
        let ghost mv = self@.mappings;
        let mut k = n;
        while k > 0
            invariant
                n == ms@.len(),
                mv == ms@.map_values(|m: WorkspaceMapping| m@),
                mv == self@.mappings,
                k <= n,
                depot_to_local(mv, depot_path@, n as int) == depot_to_local(mv, depot_path@, k as int),
            decreases k,
        {
            assert(mv[k - 1] == ms@[k - 1]@);
            match &ms[k - 1] {
                WorkspaceMapping::Include(IncludeMapping::File(file_mapping)) => {
                    if depot_path.same_as(&file_mapping.depot_file) {
                        return Some(file_mapping.local_file.copy());
                    }
                },
                WorkspaceMapping::Include(IncludeMapping::Folder(folder_mapping)) => {
                    match folder_mapping.depot_folder.match_and_get_diff(depot_path) {
                        Some(diff) => {
                            let mut local_dir = crate::text::copy_strings(&folder_mapping.local_folder.0);
                            crate::text::extend_strings(&mut local_dir, diff);
                            return Some(LocalPath { dirs: LocalDir(local_dir), file: crate::text::copy_string(&depot_path.file) });
                        },
                        None => {},
                    }
                },
                WorkspaceMapping::Exclude(ExcludeMapping(excluded)) => {
                    match excluded {
                        DepotPathWildcard::Range(range) => {
                            if range.match_and_get_diff(depot_path).is_some() {
                                return None;
                            }
                        },
                        DepotPathWildcard::Regex(regex) => {
                            let text = depot_path.to_custom_string();
                            match regex_is_match(regex.pattern.as_str(), text.as_str()) {
                                Some(true) => return None,
                                _ => {},
                            }
                        },
                    }
                },
            }
            k = k - 1;
        }
        None
    }
}

/// The depot file that include mapping `m` offers for local file `l`: a
/// file mapping offers its depot file for its own local file; a folder
/// mapping offers, for a file below its local folder that its pattern
/// admits, the file at the same place below its depot folder.
pub open spec fn offered_depot(m: IncludeView, l: LocalPathView) -> Option<DepotPathView> {
    match m {
        IncludeView::File { depot, local } => if local == l { Some(depot) } else { None },
        IncludeView::Folder { depot, local } => if wildcard_matches(depot.wildcard, l.file) && is_prefix_of(local, l.dirs) {
            Some(DepotPathView { dirs: depot.dirs + l.dirs.skip(local.len() as int), file: l.file })
        } else {
            None
        },
    }
}

/// No include mapping among the first `n` offers, for `l`, a depot file
/// that the workspace does not map to `l`.
pub open spec fn offers_map_back(ms: Seq<MappingView>, l: LocalPathView, n: int) -> bool {
    forall|k: int|
        0 <= k < n ==> match #[trigger] ms[k] {
            MappingView::Include(m) => match offered_depot(m, l) {
                Some(c) => depot_to_local(ms, c, ms.len() as int) == Some(l),
                None => true,
            },
            MappingView::Exclude(_) => true,
        }
}

/// Some include mapping among the first `n` offers a depot file for `l`.
pub open spec fn some_offer(ms: Seq<MappingView>, l: LocalPathView, n: int) -> bool {
    exists|k: int| 0 <= k < n && (#[trigger] ms[k] matches MappingView::Include(m) && offered_depot(m, l) is Some)
}

/// A depot file that mappings `0 .. n` send to `l` is offered back for `l`
/// by one of them.
proof fn lemma_mapped_is_offered(ms: Seq<MappingView>, d: DepotPathView, l: LocalPathView, n: int)
    requires
        0 <= n <= ms.len(),
        depot_to_local(ms, d, n) == Some(l),
    ensures
        some_offer(ms, l, n),
    decreases n,
{
    match ms[n - 1] {
        MappingView::Include(IncludeView::File { depot, local }) => {
            if d == depot {
                assert(ms[n - 1] matches MappingView::Include(m) && offered_depot(m, l) is Some);
            } else {
                lemma_mapped_is_offered(ms, d, l, n - 1);
            }
        },
        MappingView::Include(IncludeView::Folder { depot, local }) => {
            match range_match(depot, d) {
                Some(diff) => {
                    assert((local + diff).take(local.len() as int) =~= local);
                    assert(ms[n - 1] matches MappingView::Include(m) && offered_depot(m, l) is Some);
                },
                None => {
                    lemma_mapped_is_offered(ms, d, l, n - 1);
                },
            }
        },
        MappingView::Exclude(DepotPathWildcardView::Range(r)) => {
            lemma_mapped_is_offered(ms, d, l, n - 1);
        },
        MappingView::Exclude(DepotPathWildcardView::Regex(p)) => {
            lemma_mapped_is_offered(ms, d, l, n - 1);
        },
    }
}

/// When mappings `0 .. n` offer something for `l` and every offer maps
/// back, the search from mapping `n - 1` down finds a depot file mapped to
/// `l`.
proof fn lemma_offer_found(ms: Seq<MappingView>, l: LocalPathView, n: int)
    requires
        0 <= n <= ms.len(),
        some_offer(ms, l, n),
        offers_map_back(ms, l, ms.len() as int),
    ensures
        local_to_depot(ms, l, n) matches Some(d2) && depot_to_local(ms, d2, ms.len() as int) == Some(l),
    decreases n,
{
    let k = choose|k: int| 0 <= k < n && (#[trigger] ms[k] matches MappingView::Include(m) && offered_depot(m, l) is Some);
    if k == n - 1 {
        match ms[n - 1] {
            MappingView::Include(m) => {
                let c = offered_depot(m, l)->Some_0;
                assert(depot_to_local(ms, c, ms.len() as int) == Some(l));
                match m {
                    IncludeView::File { depot, local } => {},
                    IncludeView::Folder { depot, local } => {
                        assert(diff_after(local, l.dirs) == Some(l.dirs.skip(local.len() as int)));
                    },
                }
            },
            MappingView::Exclude(_) => {},
        }
    } else {
        assert(some_offer(ms, l, n - 1));
        lemma_offer_found(ms, l, n - 1);
        match ms[n - 1] {
            MappingView::Include(m) => {
                match offered_depot(m, l) {
                    Some(c) => {
                        assert(depot_to_local(ms, c, ms.len() as int) == Some(l));
                        match m {
                            IncludeView::File { depot, local } => {},
                            IncludeView::Folder { depot, local } => {
                                assert(diff_after(local, l.dirs) == Some(l.dirs.skip(local.len() as int)));
                            },
                        }
                    },
                    None => {
                        match m {
                            IncludeView::File { depot, local } => {},
                            IncludeView::Folder { depot, local } => {
                                if wildcard_matches(depot.wildcard, l.file) {
                                    assert(diff_after(local, l.dirs) is None);
                                }
                            },
                        }
                    },
                }
            },
            MappingView::Exclude(_) => {},
        }
    }
}

/// Local-to-depot undoes depot-to-local: when depot file `d` is mapped to
/// local file `l`, and no include mapping offers for `l` a depot file that
/// is mapped elsewhere (or not at all), `mapping_local_path` finds a depot
/// file mapped to `l`.  Mappings whose local side does not hold `l` play no
/// part.
pub proof fn lemma_local_to_depot_inverts(ms: Seq<MappingView>, d: DepotPathView, l: LocalPathView)
    requires
        depot_to_local(ms, d, ms.len() as int) == Some(l),
        offers_map_back(ms, l, ms.len() as int),
    ensures
        local_to_depot(ms, l, ms.len() as int) matches Some(d2) && depot_to_local(ms, d2, ms.len() as int) == Some(l),
{
    lemma_mapped_is_offered(ms, d, l, ms.len() as int);
    lemma_offer_found(ms, l, ms.len() as int);
}

/// What `mapping_local_path` finds is always mapped back to the local file
/// it was asked for.
pub proof fn lemma_local_to_depot_maps_back(ms: Seq<MappingView>, l: LocalPathView, n: int)
    requires
        0 <= n <= ms.len(),
        local_to_depot(ms, l, n) is Some,
    ensures
        depot_to_local(ms, local_to_depot(ms, l, n)->Some_0, ms.len() as int) == Some(l),
    decreases n,
{
    if n > 0 {
        match ms[n - 1] {
            MappingView::Include(IncludeView::File { depot, local }) => {
                if local != l {
                    lemma_local_to_depot_maps_back(ms, l, n - 1);
                }
            },
            MappingView::Include(IncludeView::Folder { depot, local }) => {
                if !wildcard_matches(depot.wildcard, l.file) || diff_after(local, l.dirs) is None {
                    lemma_local_to_depot_maps_back(ms, l, n - 1);
                }
            },
            MappingView::Exclude(_) => {
                lemma_local_to_depot_maps_back(ms, l, n - 1);
            },
        }
    }
}

/// Mapping `m` has a say on depot file `d`: an include that takes it, or an
/// exclusion that matches it.
pub open spec fn decides(m: MappingView, d: DepotPathView) -> bool {
    match m {
        MappingView::Include(IncludeView::File { depot, .. }) => d == depot,
        MappingView::Include(IncludeView::Folder { depot, .. }) => range_match(depot, d) is Some,
        MappingView::Exclude(DepotPathWildcardView::Range(r)) => range_match(r, d) is Some,
        MappingView::Exclude(DepotPathWildcardView::Regex(p)) => regex_compiles(p) && regex_matches(p, depot_path_text(d)),
    }
}

/// Adding a mapping after the first `n` changes nothing they decide.
proof fn lemma_depot_to_local_prefix(ms: Seq<MappingView>, m: MappingView, d: DepotPathView, n: int)
    requires
        0 <= n <= ms.len(),
    ensures
        depot_to_local(ms.push(m), d, n) == depot_to_local(ms, d, n),
    decreases n,
{
    if n > 0 {
        assert(ms.push(m)[n - 1] == ms[n - 1]);
        lemma_depot_to_local_prefix(ms, m, d, n - 1);
    }
}

/// Later mappings take precedence: a mapping added after all the others
/// decides every depot file it has a say on (an include sends it to the
/// place it names, an exclusion leaves it unmapped), and every other depot
/// file is mapped as before.
pub proof fn lemma_last_mapping_decides(ms: Seq<MappingView>, m: MappingView, d: DepotPathView)
    ensures
        decides(m, d) ==> depot_to_local(ms.push(m), d, ms.len() + 1int) == match m {
            MappingView::Include(IncludeView::File { local, .. }) => Some(local),
            MappingView::Include(IncludeView::Folder { depot, local }) => Some(
                LocalPathView { dirs: local + range_match(depot, d)->Some_0, file: d.file },
            ),
            MappingView::Exclude(_) => None,
        },
        !decides(m, d) ==> depot_to_local(ms.push(m), d, ms.len() + 1int) == depot_to_local(ms, d, ms.len() as int),
{
    assert(ms.push(m)[ms.len() as int] == m);
    lemma_depot_to_local_prefix(ms, m, d, ms.len() as int);
}

} // verus!
