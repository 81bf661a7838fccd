//! In-memory depot state per branch: file counts, file locks and cached trees.
use vstd::prelude::*;
use crate::assoc::{
    lemma_remove_no_dup, assoc_map, has_key, keys_distinct, lemma_assoc_empty, lemma_assoc_index, lemma_assoc_push,
    lemma_assoc_remove, lemma_assoc_update,
};
use crate::metadata::{BranchDoc, ChangelistDoc, FileDoc, FileRevisionDoc};
use crate::text::{copy_string, string_eq, texts};
use super::{
    construct_tree_from_changelist, tree_outcome, FileTree, FileTreeError, FileTreeResult,
    NodeModel,
};
use crate::path::basic::DepotPathWildcardView;
use crate::path::grammar::{depot_wildcard_at, whole};

verus! {

/// A cached tree with its key.
#[derive(Debug)]
struct CachedTree {
    changelist_id: i64,
    depot_wildcard: String,
    tree: FileTree,
}

/// The key/value model of a tree cache.
spec fn cache_model(v: Seq<CachedTree>) -> Seq<((i64, Seq<char>), Seq<NodeModel>)> {
    v.map_values(|c: CachedTree| ((c.changelist_id, c.depot_wildcard@), c.tree@))
}

/// The state of one branch: its file count and its cached trees, keyed by
/// changelist and depot wildcard.
#[derive(Debug)]
pub struct BranchDepotState {
    /// Cached number of files of the branch.
    pub file_count: usize,
    file_tree_cache: Vec<CachedTree>,
}

/// Abstract branch state.
pub struct BranchView {
    pub file_count: usize,
    pub trees: Map<(i64, Seq<char>), Seq<NodeModel>>,
}

impl View for BranchDepotState {
    type V = BranchView;

    closed spec fn view(&self) -> BranchView {
        BranchView { file_count: self.file_count, trees: assoc_map(cache_model(self.file_tree_cache@)) }
    }
}

impl BranchDepotState {
    /// Well-formedness: no cache key occurs twice.
    pub closed spec fn wf(&self) -> bool {
        keys_distinct(cache_model(self.file_tree_cache@))
    }

    /// An empty state with the given file count.
    fn with_count(count: usize) -> (r: Self)
        ensures
            r.wf(),
            r@.file_count == count,
            r@.trees == Map::<(i64, Seq<char>), Seq<NodeModel>>::empty(),
    {
        let r = BranchDepotState { file_count: count, file_tree_cache: Vec::new() };
        proof {
            lemma_assoc_empty::<(i64, Seq<char>), Seq<NodeModel>>();
            assert(cache_model(r.file_tree_cache@) =~= Seq::empty());
        }
        r
    }

    /// The position of the cache entry with this key, if any.
    fn cache_index(&self, changelist_id: i64, depot_wildcard: &String) -> (r: Option<usize>)
        requires
            self.wf(),
        ensures
            r is None <==> !self@.trees.contains_key((changelist_id, depot_wildcard@)),
            r matches Some(j) ==> j < self.file_tree_cache@.len() && cache_model(self.file_tree_cache@)[j as int].0
                == (changelist_id, depot_wildcard@),
    {
        let ghost m = cache_model(self.file_tree_cache@);
        let mut j: usize = 0;
        while j < self.file_tree_cache.len()
            invariant
                j <= self.file_tree_cache@.len(),
                m == cache_model(self.file_tree_cache@),
                forall|i: int| 0 <= i < j ==> (#[trigger] m[i]).0 != (changelist_id, depot_wildcard@),
            decreases self.file_tree_cache@.len() - j,
        {
            let c = &self.file_tree_cache[j];
            if c.changelist_id == changelist_id && string_eq(&c.depot_wildcard, depot_wildcard) {
                assert(m[j as int].0 == (changelist_id, depot_wildcard@));
                assert(has_key(m, (changelist_id, depot_wildcard@)));
                return Some(j);
            }
            j = j + 1;
        }
        assert(!has_key(m, (changelist_id, depot_wildcard@)));
        None
    }

    /// Caches `tree` under the changelist and depot wildcard, replacing what
    /// was cached there.
    pub fn cache_file_tree(&mut self, changelist_id: i64, depot_wildcard: &str, tree: FileTree)
        requires
            old(self).wf(),
        ensures
            final(self).wf(),
            final(self)@.file_count == old(self)@.file_count,
            final(self)@.trees == old(self)@.trees.insert((changelist_id, depot_wildcard@), tree@),
    {
        let w = String::from_str(depot_wildcard);
        let ghost m = cache_model(self.file_tree_cache@);
        let entry = CachedTree { changelist_id, depot_wildcard: w, tree };
        match self.cache_index(changelist_id, &entry.depot_wildcard) {
            Some(j) => {
                self.file_tree_cache.set(j, entry);
                proof {
                    lemma_assoc_update(m, j as int, tree@);
                    assert(cache_model(self.file_tree_cache@) =~= m.update(j as int, (m[j as int].0, tree@)));
                }
            },
            None => {
                self.file_tree_cache.push(entry);
                proof {
                    lemma_assoc_push(m, (changelist_id, depot_wildcard@), tree@);
                    assert(cache_model(self.file_tree_cache@) =~= m.push(((changelist_id, depot_wildcard@), tree@)));
                }
            },
        }
    }

    /// The tree cached under the changelist and depot wildcard.
    pub fn get_cached_file_tree(&self, changelist_id: i64, depot_wildcard: &str) -> (r: Option<&FileTree>)
        requires
            self.wf(),
        ensures
            r is Some <==> self@.trees.contains_key((changelist_id, depot_wildcard@)),
            r matches Some(t) ==> t@ == self@.trees[(changelist_id, depot_wildcard@)],
    {
        let w = String::from_str(depot_wildcard);
        match self.cache_index(changelist_id, &w) {
            Some(j) => {
                proof {
                    lemma_assoc_index(cache_model(self.file_tree_cache@), j as int);
                }
                Some(&self.file_tree_cache[j].tree)
            },
            None => None,
        }
    }

    /// Drops every tree cached for the changelist.
    pub fn clear_file_tree_cache_for_changelist(&mut self, changelist_id: i64)
        requires
            old(self).wf(),
        ensures
            final(self).wf(),
            final(self)@.file_count == old(self)@.file_count,
            final(self)@.trees == old(self)@.trees.remove_keys(
                Set::new(|k: (i64, Seq<char>)| k.0 == changelist_id),
            ),
    {
        let ghost old_map = self@.trees;
        let ghost fc = self.file_count;
        let mut i: usize = 0;
        while i < self.file_tree_cache.len()
            invariant
                self.file_count == fc,
                i <= self.file_tree_cache@.len(),
                keys_distinct(cache_model(self.file_tree_cache@)),
                forall|p: int| 0 <= p < i ==> (#[trigger] cache_model(self.file_tree_cache@)[p]).0.0 != changelist_id,
                forall|k: (i64, Seq<char>)|
                    #[trigger] assoc_map(cache_model(self.file_tree_cache@)).contains_key(k) ==> old_map.contains_key(k)
                        && assoc_map(cache_model(self.file_tree_cache@))[k] == old_map[k],
                forall|k: (i64, Seq<char>)|
                    #[trigger] old_map.contains_key(k) && k.0 != changelist_id ==> assoc_map(
                        cache_model(self.file_tree_cache@),
                    ).contains_key(k),
            decreases self.file_tree_cache@.len() - i,
        {
            if self.file_tree_cache[i].changelist_id == changelist_id {
                let ghost m = cache_model(self.file_tree_cache@);
                let _ = self.file_tree_cache.remove(i);
                proof {
                    lemma_assoc_remove(m, i as int);
                    assert(cache_model(self.file_tree_cache@) =~= m.remove(i as int));
                }
            } else {
                i = i + 1;
            }
        }
        proof {
            let cur = assoc_map(cache_model(self.file_tree_cache@));
            let want = old_map.remove_keys(Set::new(|k: (i64, Seq<char>)| k.0 == changelist_id));
            assert forall|k: (i64, Seq<char>)| #[trigger] cur.contains_key(k) implies k.0 != changelist_id by {
                let p = choose|p: int|
                    0 <= p < cache_model(self.file_tree_cache@).len() && (#[trigger] cache_model(
                        self.file_tree_cache@,
                    )[p]).0 == k;
            }
            assert(cur =~= want);
        }
    }

    /// Drops every cached tree.
    pub fn clear_all_file_tree_cache(&mut self)
        requires
            old(self).wf(),
        ensures
            final(self).wf(),
            final(self)@.file_count == old(self)@.file_count,
            final(self)@.trees == Map::<(i64, Seq<char>), Seq<NodeModel>>::empty(),
    {
        self.file_tree_cache.clear();
        proof {
            lemma_assoc_empty::<(i64, Seq<char>), Seq<NodeModel>>();
            assert(cache_model(self.file_tree_cache@) =~= Seq::empty());
        }
    }
}

impl Default for BranchDepotState {
    fn default() -> (r: Self)
        ensures
            r.wf(),
            r@.file_count == 0,
            r@.trees == Map::<(i64, Seq<char>), Seq<NodeModel>>::empty(),
    {
        BranchDepotState::with_count(0)
    }
}

/// A branch and its state.
#[derive(Debug)]
struct BranchEntry {
    id: String,
    state: BranchDepotState,
}

/// The key/value model of the branch list.
spec fn branches_model(v: Seq<BranchEntry>) -> Seq<(Seq<char>, BranchView)> {
    v.map_values(|e: BranchEntry| (e.id@, e.state@))
}

/// The pairs of a lock list.
spec fn locks_model(v: Seq<(String, String)>) -> Seq<(Seq<char>, Seq<char>)> {
    v.map_values(|p: (String, String)| (p.0@, p.1@))
}

/// The depot state of every branch, with the set of locked files, each
/// a (branch id, file id) pair.
#[derive(Debug)]
pub struct DepotTree {
    branches: Vec<BranchEntry>,
    locked_files: Vec<(String, String)>,
}

/// Abstract depot state.
pub struct DepotTreeView {
    pub branches: Map<Seq<char>, BranchView>,
    pub locks: Set<(Seq<char>, Seq<char>)>,
}

impl View for DepotTree {
    type V = DepotTreeView;

    closed spec fn view(&self) -> DepotTreeView {
        DepotTreeView {
            branches: assoc_map(branches_model(self.branches@)),
            locks: locks_model(self.locked_files@).to_set(),
        }
    }
}

/// The texts of a list of string slices.
pub open spec fn str_texts(s: Seq<&str>) -> Seq<Seq<char>> {
    s.map_values(|x: &str| x@)
}

/// The distinct texts of `s`, in order of first occurrence.
pub open spec fn dedup(s: Seq<Seq<char>>) -> Seq<Seq<char>>
    decreases s.len(),
{
    if s.len() == 0 {
        Seq::empty()
    } else {
        let d = dedup(s.drop_last());
        if d.contains(s.last()) {
            d
        } else {
            d.push(s.last())
        }
    }
}

/// The files among `u` locked on `branch`, in order.
pub open spec fn locked_among(locks: Set<(Seq<char>, Seq<char>)>, branch: Seq<char>, u: Seq<Seq<char>>) -> Seq<Seq<char>>
    decreases u.len(),
{
    if u.len() == 0 {
        Seq::empty()
    } else {
        let d = locked_among(locks, branch, u.drop_last());
        if locks.contains((branch, u.last())) {
            d.push(u.last())
        } else {
            d
        }
    }
}

/// The state of a branch, or the empty state for an absent branch.
pub open spec fn branch_or_empty(branches: Map<Seq<char>, BranchView>, b: Seq<char>) -> BranchView {
    if branches.contains_key(b) {
        branches[b]
    } else {
        BranchView { file_count: 0, trees: Map::empty() }
    }
}

/// The branches after caching tree `t` for branch `b` under changelist `cl`
/// and wildcard `w`.
pub open spec fn cached_into(branches: Map<Seq<char>, BranchView>, b: Seq<char>, cl: i64, w: Seq<char>, t: Seq<NodeModel>) -> Map<Seq<char>, BranchView> {
    branches.insert(
        b,
        BranchView {
            file_count: branch_or_empty(branches, b).file_count,
            trees: branch_or_empty(branches, b).trees.insert((cl, w), t),
        },
    )
}

/// The lock pairs of `files` on `branch`.
pub open spec fn lock_pairs(branch: Seq<char>, files: Seq<Seq<char>>) -> Set<(Seq<char>, Seq<char>)> {
    Set::new(|p: (Seq<char>, Seq<char>)| p.0 == branch && files.contains(p.1))
}

impl DepotTree {
    /// Well-formedness: branch ids distinct, each branch state well formed,
    /// no lock pair listed twice.
    pub closed spec fn wf(&self) -> bool {
        &&& keys_distinct(branches_model(self.branches@))
        &&& forall|i: int| 0 <= i < self.branches@.len() ==> (#[trigger] self.branches@[i]).state.wf()
        &&& locks_model(self.locked_files@).no_duplicates()
    }

    /// An empty depot state.
    pub fn new() -> (r: Self)
        ensures
            r.wf(),
            r@.branches == Map::<Seq<char>, BranchView>::empty(),
            r@.locks == Set::<(Seq<char>, Seq<char>)>::empty(),
    {
        let r = DepotTree { branches: Vec::new(), locked_files: Vec::new() };
        proof {
            lemma_assoc_empty::<Seq<char>, BranchView>();
            assert(branches_model(r.branches@) =~= Seq::empty());
            assert(locks_model(r.locked_files@) =~= Seq::empty());
            assert(locks_model(r.locked_files@).to_set() =~= Set::empty());
        }
        r
    }

    /// The position of a branch, if present.
    fn branch_index(&self, branch_id: &String) -> (r: Option<usize>)
        requires
            self.wf(),
        ensures
            r is None <==> !self@.branches.contains_key(branch_id@),
            r matches Some(j) ==> j < self.branches@.len() && self.branches@[j as int].id@ == branch_id@
                && self@.branches[branch_id@] == self.branches@[j as int].state@,
    {
        let ghost m = branches_model(self.branches@);
        let mut j: usize = 0;
        while j < self.branches.len()
            invariant
                j <= self.branches@.len(),
                m == branches_model(self.branches@),
                keys_distinct(m),
                forall|i: int| 0 <= i < j ==> (#[trigger] m[i]).0 != branch_id@,
            decreases self.branches@.len() - j,
        {
            if string_eq(&self.branches[j].id, branch_id) {
                assert(m[j as int].0 == branch_id@);
                proof {
                    lemma_assoc_index(m, j as int);
                }
                return Some(j);
            }
            j = j + 1;
        }
        assert(!has_key(m, branch_id@));
        None
    }

    /// The position of a branch, adding it with an empty state if absent.
    fn ensure_branch(&mut self, branch_id: &String) -> (j: usize)
        requires
            old(self).wf(),
        ensures
            final(self).wf(),
            j < final(self).branches@.len(),
            final(self).branches@[j as int].id@ == branch_id@,
            final(self)@.locks == old(self)@.locks,
            final(self)@.branches == old(self)@.branches.insert(
                branch_id@,
                if old(self)@.branches.contains_key(branch_id@) {
                    old(self)@.branches[branch_id@]
                } else {
                    BranchView { file_count: 0, trees: Map::empty() }
                },
            ),
            final(self)@.branches[branch_id@] == final(self).branches@[j as int].state@,
    {
        match self.branch_index(branch_id) {
            Some(j) => {
                proof {
                    assert(self@.branches.insert(branch_id@, self@.branches[branch_id@]) =~= self@.branches);
                }
                j
            },
            None => {
                let ghost m = branches_model(self.branches@);
                let st = BranchDepotState::with_count(0);
                self.branches.push(BranchEntry { id: copy_string(branch_id), state: st });
                proof {
                    lemma_assoc_push(m, branch_id@, st@);
                    assert(branches_model(self.branches@) =~= m.push((branch_id@, st@)));
                    lemma_assoc_index(branches_model(self.branches@), m.len() as int);
                }
                self.branches.len() - 1
            },
        }
    }

    /// The state of a branch, if it is present.
    pub fn branch(&self, branch_id: &str) -> (r: Option<&BranchDepotState>)
        requires
            self.wf(),
        ensures
            r is Some <==> self@.branches.contains_key(branch_id@),
            r matches Some(b) ==> b@ == self@.branches[branch_id@] && b.wf(),
    {
        let id = String::from_str(branch_id);
        match self.branch_index(&id) {
            Some(j) => Some(&self.branches[j].state),
            None => None,
        }
    }

    /// Sets the cached file count of a branch, adding the branch if absent.
    pub fn set_file_count(&mut self, branch_id: &str, count: usize)
        requires
            old(self).wf(),
        ensures
            final(self).wf(),
            final(self)@.locks == old(self)@.locks,
            final(self)@.branches == old(self)@.branches.insert(
                branch_id@,
                BranchView {
                    file_count: count,
                    trees: if old(self)@.branches.contains_key(branch_id@) {
                        old(self)@.branches[branch_id@].trees
                    } else {
                        Map::empty()
                    },
                },
            ),
    {
        let id = String::from_str(branch_id);
        let j = self.ensure_branch(&id);
        let ghost m = branches_model(self.branches@);
        let mut e = self.branches.remove(j);
        e.state.file_count = count;
        self.branches.insert(j, e);
        proof {
            assert(branches_model(self.branches@) =~= m.update(j as int, (m[j as int].0, e.state@)));
            lemma_assoc_update(m, j as int, e.state@);
        }
    }

    /// The cached file count of a branch; 0 for an absent branch.
    pub fn get_file_count(&self, branch_id: &str) -> (r: usize)
        requires
            self.wf(),
        ensures
            r == if self@.branches.contains_key(branch_id@) {
                self@.branches[branch_id@].file_count
            } else {
                0
            },
    {
        match self.branch(branch_id) {
            Some(b) => b.file_count,
            None => 0,
        }
    }

    /// Whether the file is locked on the branch.
    pub fn is_locked(&self, branch_id: &str, file_id: &str) -> (r: bool)
        requires
            self.wf(),
        ensures
            r == self@.locks.contains((branch_id@, file_id@)),
    {
        let b = String::from_str(branch_id);
        let f = String::from_str(file_id);
        self.lock_index(&b, &f).is_some()
    }

    /// The position of a lock pair, if present.
    fn lock_index(&self, b: &String, f: &String) -> (r: Option<usize>)
        ensures
            r is None <==> !self@.locks.contains((b@, f@)),
            r matches Some(j) ==> j < self.locked_files@.len() && locks_model(self.locked_files@)[j as int] == (b@, f@),
    {
        let ghost m = locks_model(self.locked_files@);
        let mut j: usize = 0;
        while j < self.locked_files.len()
            invariant
                j <= self.locked_files@.len(),
                m == locks_model(self.locked_files@),
                forall|i: int| 0 <= i < j ==> (#[trigger] m[i]) != (b@, f@),
            decreases self.locked_files@.len() - j,
        {
            if string_eq(&self.locked_files[j].0, b) && string_eq(&self.locked_files[j].1, f) {
                assert(m[j as int] == (b@, f@));
                assert(m.to_set().contains((b@, f@)));
                return Some(j);
            }
            j = j + 1;
        }
        assert(!m.to_set().contains((b@, f@)));
        None
    }

    /// Tries to lock a set of files of a branch, all or nothing.  The ids are
    /// taken once each, in order of first occurrence.  When some of them are
    /// locked already, nothing changes and those are returned second;
    /// otherwise all are locked and returned first.
    pub fn try_lock_files(&mut self, branch_id: &str, file_ids: &[&str]) -> (r: (Vec<String>, Vec<String>))
        requires
            old(self).wf(),
        ensures
            final(self).wf(),
            final(self)@.branches == old(self)@.branches,
            texts(r.1@) == locked_among(old(self)@.locks, branch_id@, dedup(str_texts(file_ids@))),
            r.1@.len() > 0 ==> r.0@.len() == 0 && final(self)@.locks == old(self)@.locks,
            r.1@.len() == 0 ==> texts(r.0@) == dedup(str_texts(file_ids@)) && final(self)@.locks
                == old(self)@.locks.union(lock_pairs(branch_id@, dedup(str_texts(file_ids@)))),
    {
        let b = String::from_str(branch_id);
        let ghost ids = str_texts(file_ids@);
        let mut unique: Vec<String> = Vec::new();
        let mut i: usize = 0;
        while i < file_ids.len()
            invariant
                i <= file_ids@.len(),
                ids == str_texts(file_ids@),
                texts(unique@) == dedup(ids.take(i as int)),
            decreases file_ids@.len() - i,
        {
            let f = String::from_str(file_ids[i]);
            let mut present = false;
            let mut k: usize = 0;
            while k < unique.len()
                invariant
                    k <= unique@.len(),
                    !present ==> forall|q: int| 0 <= q < k ==> (#[trigger] texts(unique@)[q]) != f@,
                    present ==> texts(unique@).contains(f@),
                decreases unique@.len() - k,
            {
                if string_eq(&unique[k], &f) {
                    assert(texts(unique@)[k as int] == f@);
                    present = true;
                }
                k = k + 1;
            }
            assert(ids.take(i + 1).drop_last() =~= ids.take(i as int));
            assert(ids.take(i + 1).last() == f@);
            if !present {
                unique.push(f);
                assert(texts(unique@) =~= dedup(ids.take(i as int)).push(f@));
            }
            i = i + 1;
        }
        assert(ids.take(file_ids@.len() as int) =~= ids);
        let ghost u = texts(unique@);
        let ghost l0 = self@.locks;
        let mut conflicted: Vec<String> = Vec::new();
        let mut k: usize = 0;
        while k < unique.len()
            invariant
                k <= unique@.len(),
                u == texts(unique@),
                b@ == branch_id@,
                self.wf(),
                self@.locks == l0,
                texts(conflicted@) == locked_among(l0, branch_id@, u.take(k as int)),
            decreases unique@.len() - k,
        {
            assert(u.take(k + 1).drop_last() =~= u.take(k as int));
            assert(u.take(k + 1).last() == u[k as int]);
            assert(unique@[k as int]@ == u[k as int]);
            if self.lock_index(&b, &unique[k]).is_some() {
                conflicted.push(copy_string(&unique[k]));
                assert(texts(conflicted@) =~= locked_among(l0, branch_id@, u.take(k as int)).push(u[k as int]));
            }
            k = k + 1;
        }
        assert(u.take(unique@.len() as int) =~= u);
        if conflicted.len() > 0 {
            return (Vec::new(), conflicted);
        }
        let ghost lm0 = locks_model(self.locked_files@);
        let mut k: usize = 0;
        while k < unique.len()
            invariant
                k <= unique@.len(),
                u == texts(unique@),
                b@ == branch_id@,
                self.wf(),
                self@.branches == old(self)@.branches,
                lm0 == locks_model(old(self).locked_files@),
                l0 == old(self)@.locks,
                locked_among(l0, branch_id@, u).len() == 0,
                u == dedup(ids),
                self@.locks == l0.union(lock_pairs(branch_id@, u.take(k as int))),
            decreases unique@.len() - k,
        {
            proof {
                lemma_dedup_distinct(ids);
                lemma_locked_among_empty(l0, branch_id@, u, k as int);
                assert(!u.take(k as int).contains(u[k as int]));
                assert(!self@.locks.contains((branch_id@, u[k as int])));
            }
            let ghost m = locks_model(self.locked_files@);
            assert(unique@[k as int]@ == u[k as int]);
            self.locked_files.push((copy_string(&b), copy_string(&unique[k])));
            proof {
                assert(locks_model(self.locked_files@) =~= m.push((branch_id@, u[k as int])));
                assert forall|a: int, c: int| 0 <= a < m.len() + 1 && 0 <= c < m.len() + 1 && a != c implies
                    locks_model(self.locked_files@)[a] != locks_model(self.locked_files@)[c] by {
                    if a == m.len() {
                        assert(m.to_set().contains(m[c]));
                    } else if c == m.len() {
                        assert(m.to_set().contains(m[a]));
                    }
                }
                assert(!m.contains((branch_id@, u[k as int])));
                m.lemma_push_to_set_commute((branch_id@, u[k as int]));
                assert(locks_model(self.locked_files@).to_set() =~= m.to_set().insert((branch_id@, u[k as int])));
                assert(u.take(k + 1) =~= u.take(k as int).push(u[k as int]));
                let t1 = u.take(k + 1);
                let t0 = u.take(k as int);
                assert forall|x: Seq<char>| t1.contains(x) <==> (t0.contains(x) || x == u[k as int]) by {
                    if t1.contains(x) && x != u[k as int] {
                        let i = choose|i: int| 0 <= i < t1.len() && #[trigger] t1[i] == x;
                        assert(t0[i] == x);
                    }
                    if t0.contains(x) {
                        let i = choose|i: int| 0 <= i < t0.len() && #[trigger] t0[i] == x;
                        assert(t1[i] == x);
                    }
                    if x == u[k as int] {
                        assert(t1[k as int] == x);
                    }
                }
                assert(self@.locks =~= l0.union(lock_pairs(branch_id@, u.take(k + 1))));
            }
            k = k + 1;
        }
        assert(u.take(unique@.len() as int) =~= u);
        (unique, Vec::new())
    }

    /// Unlocks the files of a branch; ids not locked are ignored.
    pub fn unlock_files(&mut self, branch_id: &str, file_ids: &[&str])
        requires
            old(self).wf(),
        ensures
            final(self).wf(),
            final(self)@.branches == old(self)@.branches,
            final(self)@.locks == old(self)@.locks.difference(lock_pairs(branch_id@, str_texts(file_ids@))),
    {
        let b = String::from_str(branch_id);
        let ghost ids = str_texts(file_ids@);
        let ghost l0 = self@.locks;
        let mut i: usize = 0;
        while i < file_ids.len()
            invariant
                i <= file_ids@.len(),
                ids == str_texts(file_ids@),
                b@ == branch_id@,
                self.wf(),
                self@.branches == old(self)@.branches,
                l0 == old(self)@.locks,
                self@.locks == l0.difference(lock_pairs(branch_id@, ids.take(i as int))),
            decreases file_ids@.len() - i,
        {
            let f = String::from_str(file_ids[i]);
            let ghost before = self@.locks;
            match self.lock_index(&b, &f) {
                Some(j) => {
                    let ghost m = locks_model(self.locked_files@);
                    let _ = self.locked_files.remove(j);
                    proof {
                        assert(locks_model(self.locked_files@) =~= m.remove(j as int));
                        lemma_remove_no_dup(m, j as int);
                    }
                },
                None => {},
            }
            proof {
                assert(ids.take(i + 1) =~= ids.take(i as int).push(f@));
                assert(!before.contains((branch_id@, f@)) ==> before.remove((branch_id@, f@)) =~= before);
                assert(self@.locks =~= before.remove((branch_id@, f@)));
                let t1 = ids.take(i + 1);
                let t0 = ids.take(i as int);
                assert forall|x: Seq<char>| t1.contains(x) <==> (t0.contains(x) || x == f@) by {
                    if t1.contains(x) && x != f@ {
                        let q = choose|q: int| 0 <= q < t1.len() && #[trigger] t1[q] == x;
                        assert(t0[q] == x);
                    }
                    if t0.contains(x) {
                        let q = choose|q: int| 0 <= q < t0.len() && #[trigger] t0[q] == x;
                        assert(t1[q] == x);
                    }
                    if x == f@ {
                        assert(t1[i as int] == x);
                    }
                }
                assert(self@.locks =~= l0.difference(lock_pairs(branch_id@, ids.take(i + 1))));
            }
            i = i + 1;
        }
        assert(ids.take(file_ids@.len() as int) =~= ids);
    }

    /// Caches `tree` for the branch (adding the branch if absent) under the
    /// changelist and depot wildcard.
    pub fn cache_file_tree(&mut self, branch_id: &str, changelist_id: i64, depot_wildcard: &str, tree: FileTree)
        requires
            old(self).wf(),
        ensures
            final(self).wf(),
            final(self)@.locks == old(self)@.locks,
            final(self)@.branches == cached_into(old(self)@.branches, branch_id@, changelist_id, depot_wildcard@, tree@),
    {
        let id = String::from_str(branch_id);
        let j = self.ensure_branch(&id);
        let ghost m = branches_model(self.branches@);
        let mut e = self.branches.remove(j);
        e.state.cache_file_tree(changelist_id, depot_wildcard, tree);
        self.branches.insert(j, e);
        proof {
            assert(branches_model(self.branches@) =~= m.update(j as int, (m[j as int].0, e.state@)));
            lemma_assoc_update(m, j as int, e.state@);
        }
    }

    /// The tree cached for the branch under the changelist and depot wildcard.
    pub fn get_cached_file_tree(&self, branch_id: &str, changelist_id: i64, depot_wildcard: &str) -> (r: Option<&FileTree>)
        requires
            self.wf(),
        ensures
            r is Some <==> self@.branches.contains_key(branch_id@) && self@.branches[branch_id@].trees.contains_key(
                (changelist_id, depot_wildcard@),
            ),
            r matches Some(t) ==> t@ == self@.branches[branch_id@].trees[(changelist_id, depot_wildcard@)],
    {
        match self.branch(branch_id) {
            Some(s) => s.get_cached_file_tree(changelist_id, depot_wildcard),
            None => None,
        }
    }

    /// Drops the trees cached for the branch at the changelist; an absent
    /// branch stays absent.
    pub fn clear_file_tree_cache_for_changelist(&mut self, branch_id: &str, changelist_id: i64)
        requires
            old(self).wf(),
        ensures
            final(self).wf(),
            final(self)@.locks == old(self)@.locks,
            final(self)@.branches == if old(self)@.branches.contains_key(branch_id@) {
                old(self)@.branches.insert(
                    branch_id@,
                    BranchView {
                        file_count: old(self)@.branches[branch_id@].file_count,
                        trees: old(self)@.branches[branch_id@].trees.remove_keys(
                            Set::new(|k: (i64, Seq<char>)| k.0 == changelist_id),
                        ),
                    },
                )
            } else {
                old(self)@.branches
            },
    {
        let id = String::from_str(branch_id);
        if let Some(j) = self.branch_index(&id) {
            let ghost m = branches_model(self.branches@);
            let mut e = self.branches.remove(j);
            e.state.clear_file_tree_cache_for_changelist(changelist_id);
            self.branches.insert(j, e);
            proof {
                assert(branches_model(self.branches@) =~= m.update(j as int, (m[j as int].0, e.state@)));
                lemma_assoc_update(m, j as int, e.state@);
            }
        }
    }

    /// Drops every tree cached for the branch; an absent branch stays absent.
    pub fn clear_all_file_tree_cache(&mut self, branch_id: &str)
        requires
            old(self).wf(),
        ensures
            final(self).wf(),
            final(self)@.locks == old(self)@.locks,
            final(self)@.branches == if old(self)@.branches.contains_key(branch_id@) {
                old(self)@.branches.insert(
                    branch_id@,
                    BranchView { file_count: old(self)@.branches[branch_id@].file_count, trees: Map::empty() },
                )
            } else {
                old(self)@.branches
            },
    {
        let id = String::from_str(branch_id);
        if let Some(j) = self.branch_index(&id) {
            let ghost m = branches_model(self.branches@);
            let mut e = self.branches.remove(j);
            e.state.clear_all_file_tree_cache();
            self.branches.insert(j, e);
            proof {
                assert(branches_model(self.branches@) =~= m.update(j as int, (m[j as int].0, e.state@)));
                lemma_assoc_update(m, j as int, e.state@);
            }
        }
    }
}

/// When no file of `u` is locked on `branch`, `locked_among` finds none, and
/// the other way round.
pub proof fn lemma_locked_among_none(locks: Set<(Seq<char>, Seq<char>)>, branch: Seq<char>, u: Seq<Seq<char>>)
    ensures
        locked_among(locks, branch, u).len() == 0 <==> forall|x: Seq<char>| #[trigger] u.contains(x) ==> !locks.contains((branch, x)),
    decreases u.len(),
{
    if u.len() > 0 {
        let p = u.drop_last();
        lemma_locked_among_none(locks, branch, p);
        assert forall|x: Seq<char>| #[trigger] u.contains(x) <==> (p.contains(x) || x == u.last()) by {
            if u.contains(x) && x != u.last() {
                let i = choose|i: int| 0 <= i < u.len() && u[i] == x;
                assert(p[i] == x);
            }
            if p.contains(x) {
                let i = choose|i: int| 0 <= i < p.len() && p[i] == x;
                assert(u[i] == x);
            }
            if x == u.last() {
                assert(u[u.len() - 1] == x);
            }
        }
        if locked_among(locks, branch, u).len() == 0 {
            assert forall|x: Seq<char>| #[trigger] u.contains(x) implies !locks.contains((branch, x)) by {
                if x != u.last() {
                    assert(p.contains(x));
                }
            }
        } else {
            if locks.contains((branch, u.last())) {
                assert(u.contains(u.last()));
            } else {
                let x = choose|x: Seq<char>| #[trigger] p.contains(x) && locks.contains((branch, x));
                assert(u.contains(x));
            }
        }
    }
}

/// Locking a set of files that no one holds on a branch (`try_lock_files`
/// returning no locked file) and then unlocking the same files
/// (`unlock_files`) leaves the lock set as it was.
pub proof fn lemma_lock_then_unlock_restores(locks: Set<(Seq<char>, Seq<char>)>, branch: Seq<char>, ids: Seq<Seq<char>>)
    requires
        locked_among(locks, branch, dedup(ids)).len() == 0,
    ensures
        locks.union(lock_pairs(branch, dedup(ids))).difference(lock_pairs(branch, ids)) == locks,
{
    lemma_dedup_distinct(ids);
    lemma_locked_among_none(locks, branch, dedup(ids));
    let after = locks.union(lock_pairs(branch, dedup(ids))).difference(lock_pairs(branch, ids));
    assert forall|q: (Seq<char>, Seq<char>)| #[trigger] after.contains(q) <==> locks.contains(q) by {
        if locks.contains(q) && q.0 == branch && ids.contains(q.1) {
            assert(dedup(ids).contains(q.1));
        }
        if lock_pairs(branch, dedup(ids)).contains(q) {
            assert(ids.contains(q.1));
        }
    }
    assert(after =~= locks);
}

/// The result of `dedup` has no repeated text and holds the same texts.
pub proof fn lemma_dedup_distinct(s: Seq<Seq<char>>)
    ensures
        dedup(s).no_duplicates(),
        forall|x: Seq<char>| dedup(s).contains(x) <==> s.contains(x),
    decreases s.len(),
{
    if s.len() > 0 {
        let p = s.drop_last();
        let a = s.last();
        lemma_dedup_distinct(p);
        let d = dedup(p);
        assert forall|x: Seq<char>| s.contains(x) <==> (p.contains(x) || x == a) by {
            if s.contains(x) && x != a {
                let i = choose|i: int| 0 <= i < s.len() && s[i] == x;
                assert(p[i] == x);
            }
            if p.contains(x) {
                let i = choose|i: int| 0 <= i < p.len() && p[i] == x;
                assert(s[i] == x);
            }
            if x == a {
                assert(s[s.len() - 1] == x);
            }
        }
        if !d.contains(a) {
            let e = d.push(a);
            assert forall|x: Seq<char>| e.contains(x) <==> (d.contains(x) || x == a) by {
                if e.contains(x) && x != a {
                    let i = choose|i: int| 0 <= i < e.len() && e[i] == x;
                    assert(d[i] == x);
                }
                if d.contains(x) {
                    let i = choose|i: int| 0 <= i < d.len() && d[i] == x;
                    assert(e[i] == x);
                }
                if x == a {
                    assert(e[d.len() as int] == x);
                }
            }
            assert forall|i: int, j: int| 0 <= i < e.len() && 0 <= j < e.len() && i != j implies e[i] != e[j] by {
                if i == d.len() {
                    assert(d[j] == e[j]);
                } else if j == d.len() {
                    assert(d[i] == e[i]);
                } else {
                    assert(d[i] == e[i] && d[j] == e[j]);
                }
            }
        }
    }
}

/// When no file of `u` is locked, no prefix of `u` has a locked file either.
proof fn lemma_locked_among_empty(locks: Set<(Seq<char>, Seq<char>)>, b: Seq<char>, u: Seq<Seq<char>>, k: int)
    requires
        locked_among(locks, b, u).len() == 0,
        0 <= k < u.len(),
    ensures
        !locks.contains((b, u[k])),
    decreases u.len(),
{
    if k == u.len() - 1 {
    } else {
        assert(locked_among(locks, b, u.drop_last()).len() == 0);
        lemma_locked_among_empty(locks, b, u.drop_last(), k);
    }
}


impl DepotTree {
    /// The tree of the branch at the changelist under the depot wildcard:
    /// the cached one when there is one (the state is then unchanged);
    /// otherwise the tree that `construct_tree_from_changelist` builds from
    /// the four store functions, which is then cached (nothing changes when
    /// it fails).
    pub fn get_or_construct_file_tree<GB, GC, GF, GR>(
        &mut self,
        branch_id: &str,
        depot_wildcard: &str,
        changelist_id: i64,
        get_branch: GB,
        get_changelist: GC,
        get_file: GF,
        get_file_revision: GR,
    ) -> (r: FileTreeResult<FileTree>) where
        GB: Fn(&str) -> Result<Option<BranchDoc>, String>,
        GC: Fn(i64) -> Result<Option<ChangelistDoc>, String>,
        GF: Fn(&str) -> Result<Option<FileDoc>, String>,
        GR: Fn(&str) -> Result<Option<FileRevisionDoc>, String>,

        requires
            old(self).wf(),
            forall|s: &str| get_branch.requires((s,)),
            forall|id: i64| get_changelist.requires((id,)),
            forall|s: &str| get_file.requires((s,)),
            forall|s: &str| get_file_revision.requires((s,)),
        ensures
            final(self).wf(),
            final(self)@.locks == old(self)@.locks,
            branch_or_empty(old(self)@.branches, branch_id@).trees.contains_key((changelist_id, depot_wildcard@))
                ==> final(self)@.branches == old(self)@.branches && (r matches Ok(t) && t@ == branch_or_empty(
                old(self)@.branches,
                branch_id@,
            ).trees[(changelist_id, depot_wildcard@)]),
            !branch_or_empty(old(self)@.branches, branch_id@).trees.contains_key((changelist_id, depot_wildcard@))
                ==> tree_outcome(get_branch, get_changelist, get_file, get_file_revision, branch_id, depot_wildcard, changelist_id, r),
            !branch_or_empty(old(self)@.branches, branch_id@).trees.contains_key((changelist_id, depot_wildcard@))
                ==> match r {
                Ok(t) => final(self)@.branches == cached_into(
                    old(self)@.branches,
                    branch_id@,
                    changelist_id,
                    depot_wildcard@,
                    t@,
                ),
                Err(_) => final(self)@.branches == old(self)@.branches,
            },
            !(whole(depot_wildcard_at(depot_wildcard@, 0), depot_wildcard@) matches Some(DepotPathWildcardView::Range(_)))
                && !branch_or_empty(old(self)@.branches, branch_id@).trees.contains_key((changelist_id, depot_wildcard@))
                ==> r is Err,
    {
        if let Some(t) = self.get_cached_file_tree(branch_id, changelist_id, depot_wildcard) {
            return Ok(t.copy());
        }
        let tree = match construct_tree_from_changelist(
            branch_id,
            depot_wildcard,
            changelist_id,
            get_branch,
            get_changelist,
            get_file,
            get_file_revision,
        ) {
            Ok(t) => t,
            Err(e) => { return Err(e); },
        };
        let result = tree.copy();
        self.cache_file_tree(branch_id, changelist_id, depot_wildcard, tree);
        Ok(result)
    }
}

/// A text is among `locked_among(locks, b, u)` exactly when it is in `u` and
/// locked on `b`.
pub proof fn lemma_locked_among_contains(locks: Set<(Seq<char>, Seq<char>)>, b: Seq<char>, u: Seq<Seq<char>>, f: Seq<char>)
    ensures
        locked_among(locks, b, u).contains(f) <==> u.contains(f) && locks.contains((b, f)),
    decreases u.len(),
{
    if u.len() > 0 {
        let p = u.drop_last();
        lemma_locked_among_contains(locks, b, p, f);
        let d = locked_among(locks, b, p);
        if u.contains(f) && f != u.last() {
            let i = choose|i: int| 0 <= i < u.len() && u[i] == f;
            assert(p[i] == f);
        }
        if p.contains(f) {
            let i = choose|i: int| 0 <= i < p.len() && p[i] == f;
            assert(u[i] == f);
        }
        if locks.contains((b, u.last())) {
            let e = d.push(u.last());
            if e.contains(f) && f != u.last() {
                let i = choose|i: int| 0 <= i < e.len() && e[i] == f;
                assert(d[i] == f);
            }
            if d.contains(f) {
                let i = choose|i: int| 0 <= i < d.len() && d[i] == f;
                assert(e[i] == f);
            }
            assert(e[d.len() as int] == u.last());
            assert(u[u.len() - 1] == u.last());
        } else if f == u.last() && u.contains(f) && locks.contains((b, f)) {
            assert(false);
        }
    }
}

/// Unlocking the files that a successful lock took gives back the locks
/// held before it.
pub proof fn lemma_unlock_undoes_lock(locks: Set<(Seq<char>, Seq<char>)>, b: Seq<char>, ids: Seq<Seq<char>>)
    requires
        locked_among(locks, b, dedup(ids)).len() == 0,
    ensures
        locks.union(lock_pairs(b, dedup(ids))).difference(lock_pairs(b, ids)) == locks,
{
    lemma_dedup_distinct(ids);
    assert forall|p: (Seq<char>, Seq<char>)| locks.contains(p) implies !lock_pairs(b, ids).contains(p) by {
        if lock_pairs(b, ids).contains(p) {
            lemma_locked_among_contains(locks, b, dedup(ids), p.1);
            assert(locked_among(locks, b, dedup(ids)).contains(p.1));
        }
    }
    assert(locks.union(lock_pairs(b, dedup(ids))).difference(lock_pairs(b, ids)) =~= locks);
}

/// Once files are locked, a later attempt on any of them conflicts.
pub proof fn lemma_locked_files_conflict(locks: Set<(Seq<char>, Seq<char>)>, b: Seq<char>, ids: Seq<Seq<char>>, again: Seq<Seq<char>>, f: Seq<char>)
    requires
        ids.contains(f),
        again.contains(f),
    ensures
        locked_among(locks.union(lock_pairs(b, dedup(ids))), b, dedup(again)).len() > 0,
{
    lemma_dedup_distinct(ids);
    lemma_dedup_distinct(again);
    lemma_locked_among_contains(locks.union(lock_pairs(b, dedup(ids))), b, dedup(again), f);
    assert(locked_among(locks.union(lock_pairs(b, dedup(ids))), b, dedup(again)).contains(f));
}

/// Locks of one branch leave the locks of every other branch alone.
pub proof fn lemma_branch_locks_isolated(locks: Set<(Seq<char>, Seq<char>)>, b: Seq<char>, ids: Seq<Seq<char>>, other: Seq<char>, f: Seq<char>)
    requires
        other != b,
    ensures
        locks.union(lock_pairs(b, ids)).contains((other, f)) == locks.contains((other, f)),
        locks.difference(lock_pairs(b, ids)).contains((other, f)) == locks.contains((other, f)),
{
}

/// A tree cached for a branch is what is read back for that branch,
/// changelist and wildcard; other keys read as before.
pub proof fn lemma_cache_read_back(branches: Map<Seq<char>, BranchView>, b: Seq<char>, cl: i64, w: Seq<char>, t: Seq<NodeModel>, b2: Seq<char>, cl2: i64, w2: Seq<char>)
    ensures
        branch_or_empty(cached_into(branches, b, cl, w, t), b).trees[(cl, w)] == t,
        (b2, cl2, w2) != (b, cl, w) ==> (branch_or_empty(cached_into(branches, b, cl, w, t), b2).trees.contains_key((cl2, w2))
            == branch_or_empty(branches, b2).trees.contains_key((cl2, w2))),
{
}

} // verus!
