//! A changelist being built: the files it changes, each with its revision,
//! and whether it has been submitted.
use vstd::prelude::*;
use super::file_revision::{utc_now_millis, MetaFileRevision, RevisionView};
use crate::assoc::{
    assoc_map, has_key, keys_distinct, lemma_assoc_empty, lemma_assoc_index, lemma_assoc_push,
    lemma_assoc_remove, lemma_assoc_update,
};
use crate::text::{copy_string, string_eq, texts};

verus! {

broadcast use vstd::string::group_string_axioms;

/// A changelist.
#[derive(Debug)]
pub struct Changelist {
    /// Its id; 0 is the default changelist.
    pub id: u64,
    pub description: String,
    /// When it was created, in milliseconds since the Unix epoch.
    pub created_at: i64,
    /// When it was submitted, if it was.
    pub submitted_at: Option<i64>,
    pub owner: String,
    pub workspace_name: String,
    /// Its files by depot path, in order of first addition.
    pub files: Vec<(String, MetaFileRevision)>,
}

/// The (path, revision) pairs of a file list.
pub open spec fn files_model(v: Seq<(String, MetaFileRevision)>) -> Seq<(Seq<char>, RevisionView)> {
    v.map_values(|p: (String, MetaFileRevision)| (p.0@, p.1@))
}

/// `after` keeps the description, owner, workspace and creation time of
/// `before`.
pub open spec fn keeps_header(before: Changelist, after: Changelist) -> bool {
    &&& after.description@ == before.description@
    &&& after.owner@ == before.owner@
    &&& after.workspace_name@ == before.workspace_name@
    &&& after.created_at == before.created_at
}

impl Changelist {
    /// Its files: revision by depot path.
    pub closed spec fn files_view(&self) -> Map<Seq<char>, RevisionView> {
        assoc_map(files_model(self.files@))
    }

    /// No depot path is listed twice.
    pub closed spec fn wf(&self) -> bool {
        keys_distinct(files_model(self.files@))
    }

    /// A new changelist with no files, created now.
    pub fn new(id: u64, owner: String, workspace_name: String, description: String) -> (r: Self)
        ensures
            r.wf(),
            r.id == id,
            r.owner@ == owner@,
            r.workspace_name@ == workspace_name@,
            r.description@ == description@,
            r.submitted_at is None,
            r.files_view() == Map::<Seq<char>, RevisionView>::empty(),
    {
        let r = Changelist {
            id,
            description,
            created_at: utc_now_millis(),
            submitted_at: None,
            owner,
            workspace_name,
            files: Vec::new(),
        };
        proof {
            lemma_assoc_empty::<Seq<char>, RevisionView>();
            assert(files_model(r.files@) =~= Seq::empty());
        }
        r
    }

    /// The default changelist (id 0) of a user's workspace.
    pub fn new_default(owner: String, workspace_name: String) -> (r: Self)
        ensures
            r.wf(),
            r.id == 0,
            r.owner@ == owner@,
            r.workspace_name@ == workspace_name@,
            r.description@ == "Default changelist"@,
            r.submitted_at is None,
            r.files_view() == Map::<Seq<char>, RevisionView>::empty(),
    {
        Self::new(0, owner, workspace_name, String::from_str("Default changelist"))
    }

    /// The position of a depot path among the files, if present.
    fn file_index(&self, depot_path: &str) -> (r: Option<usize>)
        requires
            self.wf(),
        ensures
            r is None <==> !self.files_view().contains_key(depot_path@),
            r matches Some(j) ==> j < self.files@.len() && self.files@[j as int].0@ == depot_path@,
    {
        let ghost m = files_model(self.files@);
        let key = String::from_str(depot_path);
        let mut j: usize = 0;
        while j < self.files.len()
            invariant
                j <= self.files@.len(),
                m == files_model(self.files@),
                keys_distinct(m),
                key@ == depot_path@,
                forall|i: int| 0 <= i < j ==> (#[trigger] m[i]).0 != depot_path@,
            decreases self.files@.len() - j,
        {
            if string_eq(&self.files[j].0, &key) {
                assert(m[j as int].0 == depot_path@);
                proof {
                    lemma_assoc_index(m, j as int);
                }
                return Some(j);
            }
            j = j + 1;
        }
        assert(!has_key(m, depot_path@));
        None
    }

    /// Adds a file, or replaces the revision of a file already there.
    pub fn add_file(&mut self, depot_path: String, revision: MetaFileRevision)
        requires
            old(self).wf(),
        ensures
            final(self).wf(),
            final(self).files_view() == old(self).files_view().insert(depot_path@, revision@),
            keeps_header(*old(self), *final(self)),
            final(self).id == old(self).id,
            final(self).submitted_at == old(self).submitted_at,
    {
        let ghost m = files_model(self.files@);
        let ghost rv = revision@;
        match self.file_index(depot_path.as_str()) {
            Some(j) => {
                let (p, _old) = self.files.remove(j);
                self.files.insert(j, (p, revision));
                proof {
                    assert(files_model(self.files@) =~= m.update(j as int, (m[j as int].0, rv)));
                    lemma_assoc_update(m, j as int, rv);
                }
            },
            None => {
                let ghost key = depot_path@;
                self.files.push((depot_path, revision));
                proof {
                    lemma_assoc_push(m, key, rv);
                    assert(files_model(self.files@) =~= m.push((key, rv)));
                }
            },
        }
    }

    /// Adds files in order; a later pair for the same path wins.
    pub fn add_files(&mut self, files: Vec<(String, MetaFileRevision)>)
        requires
            old(self).wf(),
        ensures
            final(self).wf(),
            final(self).files_view() == old(self).files_view().union_prefer_right(assoc_map_last(files_model(files@))),
            keeps_header(*old(self), *final(self)),
            final(self).id == old(self).id,
            final(self).submitted_at == old(self).submitted_at,
    {
        let ghost fm = files_model(files@);
        let mut files = files;
        let mut rest: Vec<(String, MetaFileRevision)> = Vec::new();
        // Take the pairs off the end, then add them in their order.
        while files.len() > 0
            invariant
                files_model(files@) + files_model(rest@).reverse() == fm,
            decreases files@.len(),
        {
            let ghost before = files_model(files@);
            let ghost rb = files_model(rest@);
            let p = files.pop().unwrap();
            rest.push(p);
            assert(files_model(rest@) =~= rb.push(before.last()));
            assert(files_model(files@) =~= before.drop_last());
            assert(files_model(files@) + files_model(rest@).reverse() =~= before.drop_last() + rb.push(before.last()).reverse());
            assert(before.drop_last() + rb.push(before.last()).reverse() =~= before.drop_last().push(before.last()) + rb.reverse());
            assert(before.drop_last().push(before.last()) =~= before);
        }
        assert(files_model(rest@).reverse() =~= fm);
        let ghost start = self.files_view();
        let ghost n: int = rest@.len() as int;
        while rest.len() > 0
            invariant
                self.wf(),
                files_model(rest@).reverse() == fm.skip(n - rest@.len()),
                n == fm.len(),
                rest@.len() <= n,
                self.files_view() == start.union_prefer_right(assoc_map_last(fm.take(n - rest@.len()))),
                keeps_header(*old(self), *self),
                self.id == old(self).id,
                self.submitted_at == old(self).submitted_at,
            decreases rest@.len(),
        {
            let ghost k = n - rest@.len();
            let ghost rb = files_model(rest@);
            let (path, rev) = rest.pop().unwrap();
            assert(rb.last() == fm[k]) by {
                assert(rb.reverse()[0] == rb.last());
                assert(fm.skip(k)[0] == fm[k]);
            }
            assert(files_model(rest@) =~= rb.drop_last());
            assert(files_model(rest@).reverse() =~= fm.skip(k + 1)) by {
                assert(rb.drop_last().reverse() =~= rb.reverse().drop_first());
                assert(fm.skip(k).drop_first() =~= fm.skip(k + 1));
            }
            assert(fm.take(k + 1) =~= fm.take(k).push(fm[k]));
            proof {
                lemma_assoc_last_push(fm.take(k), fm[k]);
            }
            self.add_file(path, rev);
            assert(self.files_view() =~= start.union_prefer_right(assoc_map_last(fm.take(k + 1))));
        }
        assert(fm.take(n as int) =~= fm);
    }

    /// Removes a file; its revision if it was there.
    pub fn remove_file(&mut self, depot_path: &str) -> (r: Option<MetaFileRevision>)
        requires
            old(self).wf(),
        ensures
            final(self).wf(),
            final(self).files_view() == old(self).files_view().remove(depot_path@),
            r is Some <==> old(self).files_view().contains_key(depot_path@),
            r matches Some(v) ==> v@ == old(self).files_view()[depot_path@],
            keeps_header(*old(self), *final(self)),
            final(self).id == old(self).id,
            final(self).submitted_at == old(self).submitted_at,
    {
        let ghost m = files_model(self.files@);
        match self.file_index(depot_path) {
            Some(j) => {
                let (_p, rev) = self.files.remove(j);
                proof {
                    lemma_assoc_index(m, j as int);
                    assert(files_model(self.files@) =~= m.remove(j as int));
                    lemma_assoc_remove(m, j as int);
                }
                Some(rev)
            },
            None => {
                assert(self.files_view().remove(depot_path@) =~= self.files_view());
                None
            },
        }
    }

    /// Removes files; the paths that were there, in the order given (a path
    /// given twice is removed once).
    pub fn remove_files(&mut self, depot_paths: &[String]) -> (r: Vec<String>)
        requires
            old(self).wf(),
        ensures
            final(self).wf(),
            final(self).files_view() == old(self).files_view().remove_keys(texts(depot_paths@).to_set()),
            texts(r@) == removed_paths(old(self).files_view().dom(), texts(depot_paths@)),
            keeps_header(*old(self), *final(self)),
            final(self).id == old(self).id,
            final(self).submitted_at == old(self).submitted_at,
    {
        let ghost start = self.files_view();
        let ghost ps = texts(depot_paths@);
        let mut removed: Vec<String> = Vec::new();
        let mut i: usize = 0;
        while i < depot_paths.len()
            invariant
                i <= depot_paths@.len(),
                ps == texts(depot_paths@),
                self.wf(),
                self.files_view() == start.remove_keys(ps.take(i as int).to_set()),
                texts(removed@) == removed_paths(start.dom(), ps.take(i as int)),
                keeps_header(*old(self), *self),
                self.id == old(self).id,
                self.submitted_at == old(self).submitted_at,
            decreases depot_paths@.len() - i,
        {
            let path = &depot_paths[i];
            let ghost before = self.files_view();
            assert(ps.take(i + 1) =~= ps.take(i as int).push(path@));
            assert(ps.take(i + 1).drop_last() =~= ps.take(i as int));
            proof {
                lemma_removed_seen(start.dom(), ps.take(i as int), path@);
            }
            if self.remove_file(path.as_str()).is_some() {
                removed.push(copy_string(path));
                assert(texts(removed@) =~= removed_paths(start.dom(), ps.take(i as int)).push(path@));
            }
            assert(self.files_view() =~= start.remove_keys(ps.take(i + 1).to_set()));
            i = i + 1;
        }
        assert(ps.take(i as int) =~= ps);
        removed
    }

    /// Removes all files.
    pub fn clear_files(&mut self)
        requires
            old(self).wf(),
        ensures
            final(self).wf(),
            final(self).files_view() == Map::<Seq<char>, RevisionView>::empty(),
            keeps_header(*old(self), *final(self)),
            final(self).id == old(self).id,
            final(self).submitted_at == old(self).submitted_at,
    {
        self.files = Vec::new();
        proof {
            lemma_assoc_empty::<Seq<char>, RevisionView>();
            assert(files_model(self.files@) =~= Seq::empty());
        }
    }

    /// Whether the file is in the changelist.
    pub fn contains_file(&self, depot_path: &str) -> (r: bool)
        requires
            self.wf(),
        ensures
            r == self.files_view().contains_key(depot_path@),
    {
        self.file_index(depot_path).is_some()
    }

    /// The number of files.
    pub fn file_count(&self) -> (r: usize)
        requires
            self.wf(),
        ensures
            r == self.files_view().len(),
    {
        proof {
            lemma_assoc_len(files_model(self.files@));
        }
        self.files.len()
    }

    /// Whether the changelist has no files.
    pub fn is_empty(&self) -> (r: bool)
        requires
            self.wf(),
        ensures
            r == (self.files_view().len() == 0),
    {
        self.file_count() == 0
    }

    /// Whether the changelist has been submitted.
    pub fn is_submitted(&self) -> (r: bool)
        ensures
            r == self.submitted_at is Some,
    {
        self.submitted_at.is_some()
    }

    /// Whether this is the default changelist.
    pub fn is_default(&self) -> (r: bool)
        ensures
            r == (self.id == 0),
    {
        self.id == 0
    }

    /// Marks the changelist submitted, now.
    pub fn mark_submitted(&mut self)
        ensures
            final(self).submitted_at is Some,
            keeps_header(*old(self), *final(self)),
            final(self).id == old(self).id,
            final(self).files_view() == old(self).files_view(),
            final(self).wf() == old(self).wf(),
    {
        self.submitted_at = Some(utc_now_millis());
    }

    /// The depot paths of the files.
    pub fn file_paths(&self) -> (r: Vec<&String>)
        requires
            self.wf(),
        ensures
            r@.len() == self.files_view().len(),
            forall|k: int| 0 <= k < r@.len() ==> self.files_view().contains_key(#[trigger] r@[k]@),
            forall|p: Seq<char>| #[trigger] self.files_view().contains_key(p) ==> exists|k: int| 0 <= k < r@.len() && r@[k]@ == p,
    {
        let ghost m = files_model(self.files@);
        let mut out: Vec<&String> = Vec::new();
        let mut k: usize = 0;
        while k < self.files.len()
            invariant
                k <= self.files@.len(),
                m == files_model(self.files@),
                keys_distinct(m),
                out@.len() == k,
                forall|j: int| 0 <= j < k ==> (#[trigger] out@[j])@ == m[j].0,
            decreases self.files@.len() - k,
        {
            out.push(&self.files[k].0);
            k = k + 1;
        }
        proof {
            lemma_assoc_len(m);
            assert forall|j: int| 0 <= j < out@.len() implies self.files_view().contains_key(#[trigger] out@[j]@) by {
                lemma_assoc_index(m, j);
            }
            assert forall|p: Seq<char>| #[trigger] self.files_view().contains_key(p) implies exists|j: int| 0 <= j < out@.len() && out@[j]@ == p by {
                let j = choose|j: int| 0 <= j < m.len() && (#[trigger] m[j]).0 == p;
                assert(out@[j]@ == p);
            }
        }
        out
    }

    /// The revision of a file, if it is there.
    pub fn get_file_revision(&self, depot_path: &str) -> (r: Option<&MetaFileRevision>)
        requires
            self.wf(),
        ensures
            r is Some <==> self.files_view().contains_key(depot_path@),
            r matches Some(v) ==> v@ == self.files_view()[depot_path@],
    {
        match self.file_index(depot_path) {
            Some(j) => {
                proof {
                    lemma_assoc_index(files_model(self.files@), j as int);
                }
                Some(&self.files[j].1)
            },
            None => None,
        }
    }
}

/// The map of a list of pairs where a later pair for a key wins.
pub open spec fn assoc_map_last<K, V>(s: Seq<(K, V)>) -> Map<K, V>
    decreases s.len(),
{
    if s.len() == 0 {
        Map::empty()
    } else {
        assoc_map_last(s.drop_last()).insert(s.last().0, s.last().1)
    }
}

proof fn lemma_assoc_last_push<K, V>(s: Seq<(K, V)>, p: (K, V))
    ensures
        assoc_map_last(s.push(p)) == assoc_map_last(s).insert(p.0, p.1),
{
    assert(s.push(p).drop_last() =~= s);
}

/// The paths of `ps` present in `dom` when reached, each once, in order.
pub open spec fn removed_paths(dom: Set<Seq<char>>, ps: Seq<Seq<char>>) -> Seq<Seq<char>>
    decreases ps.len(),
{
    if ps.len() == 0 {
        Seq::empty()
    } else {
        let before = removed_paths(dom, ps.drop_last());
        if dom.contains(ps.last()) && !ps.drop_last().contains(ps.last()) {
            before.push(ps.last())
        } else {
            before
        }
    }
}

proof fn lemma_removed_seen(dom: Set<Seq<char>>, seen: Seq<Seq<char>>, p: Seq<char>)
    ensures
        removed_paths(dom, seen.push(p)) == if dom.contains(p) && !seen.contains(p) {
            removed_paths(dom, seen).push(p)
        } else {
            removed_paths(dom, seen)
        },
{
    assert(seen.push(p).drop_last() =~= seen);
}

proof fn lemma_assoc_len<K, V>(s: Seq<(K, V)>)
    requires
        keys_distinct(s),
    ensures
        assoc_map(s).len() == s.len(),
        assoc_map(s).dom().finite(),
    decreases s.len(),
{
    if s.len() == 0 {
        lemma_assoc_empty::<K, V>();
        assert(assoc_map(s).dom() =~= Set::<K>::empty());
    } else {
        let init = s.drop_last();
        assert(keys_distinct(init));
        lemma_assoc_len(init);
        assert(!has_key(init, s.last().0)) by {
            if has_key(init, s.last().0) {
                let i = choose|i: int| 0 <= i < init.len() && (#[trigger] init[i]).0 == s.last().0;
                assert(s[i] == init[i]);
            }
        }
        lemma_assoc_push(init, s.last().0, s.last().1);
        assert(init.push((s.last().0, s.last().1)) =~= s);
        assert(!assoc_map(init).dom().contains(s.last().0));
        assert(assoc_map(s).dom() =~= assoc_map(init).dom().insert(s.last().0));
    }
}

/// Adding a file the changelist did not have and removing it again leaves
/// the files as they were; adding it again replaces its revision.
pub proof fn lemma_add_remove_file(files: Map<Seq<char>, RevisionView>, path: Seq<char>, r1: RevisionView, r2: RevisionView)
    requires
        !files.contains_key(path),
    ensures
        files.insert(path, r1).remove(path) == files,
        files.insert(path, r1).insert(path, r2) == files.insert(path, r2),
{
    assert(files.insert(path, r1).remove(path) =~= files);
    assert(files.insert(path, r1).insert(path, r2) =~= files.insert(path, r2));
}

} // verus!
