//! File trees: the files of a branch visible at a changelist, under a depot
//! range, arranged by directory.
use vstd::prelude::*;
use crate::text::{
    copy_string, copy_strings, insert_sorted_text, string_eq, string_push_str, strictly_sorted,
    text_less, text_lt, texts, lemma_text_lt_asymmetric, lemma_text_lt_irreflexive,
};
use crate::metadata::{
    binary_ids, change_views, BranchDoc, ChangeView, ChangelistAction, ChangelistChange,
    ChangelistDoc, FileDoc, FileRevisionDoc,
};
use crate::path::basic::{
    range_match, DepotPath, DepotPathView, DepotPathWildcard, DepotPathWildcardView, PathError,
    RangeDepotWildcard, RangeDepotWildcardView,
};
use crate::path::grammar::{depot_path_at, depot_wildcard_at, whole};

pub mod depot_tree;

verus! {

/// The tree of files under a root: its top-level nodes.
#[derive(Debug)]
pub struct FileTree {
    pub nodes: Vec<FileTreeNode>,
}

/// A node of a file tree: a directory or a file.
#[derive(Debug)]
pub enum FileTreeNode {
    /// A directory.
    Directory {
        /// Its name, without the parent path.
        name: String,
        /// Its children.
        children: Vec<FileTreeNode>,
    },
    /// A file.
    File {
        /// Its name, without the parent path.
        name: String,
        /// The file id.
        file_id: String,
        /// The id of the visible revision.
        reivision_id: String,
        /// The changelist the visible revision belongs to.
        changelist_id: i64,
        /// The blobs of the visible revision.
        binary_id: Vec<String>,
        /// Size in bytes.
        size: i64,
        /// Creation time of the visible revision.
        revision_created_at: i64,
    },
}

/// Errors of file-tree construction.
#[derive(Debug, Clone)]
pub enum FileTreeError {
    BranchNotFound(String),
    ChangelistNotFound(i64),
    BranchMismatch { branch_id: String, changelist_id: i64, actual_branch_id: String },
    InvalidDepotPathWildcard(String),
    Backend(String),
}

pub type FileTreeResult<T> = Result<T, FileTreeError>;

/// Abstract file of a tree.
pub struct LeafModel {
    pub name: Seq<char>,
    pub file_id: Seq<char>,
    pub revision_id: Seq<char>,
    pub changelist_id: i64,
    pub binary_id: Seq<Seq<char>>,
    pub size: i64,
    pub created_at: i64,
}

/// Abstract node of a tree.
pub enum NodeModel {
    Dir { name: Seq<char>, children: Seq<NodeModel> },
    Leaf(LeafModel),
}

/// The model of a node.
pub open spec fn node_model(n: FileTreeNode) -> NodeModel
    decreases n,
{
    match n {
        FileTreeNode::Directory { name, children } => NodeModel::Dir {
            name: name@,
            children: nodes_model(children@),
        },
        FileTreeNode::File {
            name,
            file_id,
            reivision_id,
            changelist_id,
            binary_id,
            size,
            revision_created_at,
        } => NodeModel::Leaf(
            LeafModel {
                name: name@,
                file_id: file_id@,
                revision_id: reivision_id@,
                changelist_id,
                binary_id: texts(binary_id@),
                size,
                created_at: revision_created_at,
            },
        ),
    }
}

/// The models of a sequence of nodes.
pub open spec fn nodes_model(s: Seq<FileTreeNode>) -> Seq<NodeModel>
    decreases s,
{
    if s.len() == 0 {
        Seq::empty()
    } else {
        nodes_model(s.drop_last()).push(node_model(s.last()))
    }
}

impl View for FileTreeNode {
    type V = NodeModel;

    open spec fn view(&self) -> NodeModel {
        node_model(*self)
    }
}

impl View for FileTree {
    type V = Seq<NodeModel>;

    open spec fn view(&self) -> Seq<NodeModel> {
        nodes_model(self.nodes@)
    }
}

/// The models of a sequence are the models of its elements.
pub proof fn lemma_nodes_model(s: Seq<FileTreeNode>)
    ensures
        nodes_model(s).len() == s.len(),
        forall|i: int| 0 <= i < s.len() ==> #[trigger] nodes_model(s)[i] == node_model(s[i]),
    decreases s.len(),
{
    if s.len() > 0 {
        lemma_nodes_model(s.drop_last());
    }
}

/// The models of a sequence with one more node.
pub proof fn lemma_nodes_model_push(s: Seq<FileTreeNode>, n: FileTreeNode)
    ensures
        nodes_model(s.push(n)) == nodes_model(s).push(node_model(n)),
{
    assert(s.push(n).drop_last() =~= s);
}

/// The name of a node.
pub open spec fn model_name(m: NodeModel) -> Seq<char> {
    match m {
        NodeModel::Dir { name, .. } => name,
        NodeModel::Leaf(l) => l.name,
    }
}

impl FileTreeNode {
    /// A copy of the node.
    pub fn copy(&self) -> (r: FileTreeNode)
        ensures
            r@ == self@,
        decreases self,
    {
        match self {
            FileTreeNode::Directory { name, children } => {
                let c = copy_nodes(children);
                FileTreeNode::Directory { name: copy_string(name), children: c }
            },
            FileTreeNode::File {
                name,
                file_id,
                reivision_id,
                changelist_id,
                binary_id,
                size,
                revision_created_at,
            } => FileTreeNode::File {
                name: copy_string(name),
                file_id: copy_string(file_id),
                reivision_id: copy_string(reivision_id),
                changelist_id: *changelist_id,
                binary_id: copy_strings(binary_id),
                size: *size,
                revision_created_at: *revision_created_at,
            },
        }
    }
}

/// A copy of a list of nodes.
pub fn copy_nodes(v: &Vec<FileTreeNode>) -> (r: Vec<FileTreeNode>)
    ensures
        nodes_model(r@) == nodes_model(v@),
    decreases v,
{
    let mut r: Vec<FileTreeNode> = Vec::new();
    let mut i: usize = 0;
    while i < v.len()
        invariant
            i <= v@.len(),
            nodes_model(r@) == nodes_model(v@.take(i as int)),
        decreases v@.len() - i,
    {
        assert(decreases_to!(v => v@[i as int]));
        let n = v[i].copy();
        proof {
            lemma_nodes_model_push(r@, n);
            lemma_nodes_model_push(v@.take(i as int), v@[i as int]);
            assert(v@.take(i + 1) =~= v@.take(i as int).push(v@[i as int]));
        }
        r.push(n);
        i = i + 1;
    }
    assert(v@.take(v@.len() as int) =~= v@);
    r
}

impl Clone for FileTreeNode {
    fn clone(&self) -> (r: Self)
        ensures
            r@ == self@,
    {
        self.copy()
    }
}

impl Clone for FileTree {
    fn clone(&self) -> (r: Self)
        ensures
            r@ == self@,
    {
        self.copy()
    }
}

impl FileTree {
    /// A copy of the tree.
    pub fn copy(&self) -> (r: FileTree)
        ensures
            r@ == self@,
    {
        FileTree { nodes: copy_nodes(&self.nodes) }
    }
}

/// A visible file, placed under its directories relative to the tree's root.
#[derive(Debug)]
pub struct TreeEntry {
    /// The directories between the root and the file.
    pub dirs: Vec<String>,
    pub name: String,
    pub file_id: String,
    pub revision_id: String,
    pub changelist_id: i64,
    pub binary_id: Vec<String>,
    pub size: i64,
    pub created_at: i64,
}

/// Abstract entry.
pub struct EntryModel {
    pub dirs: Seq<Seq<char>>,
    pub leaf: LeafModel,
}

impl View for TreeEntry {
    type V = EntryModel;

    open spec fn view(&self) -> EntryModel {
        EntryModel {
            dirs: texts(self.dirs@),
            leaf: LeafModel {
                name: self.name@,
                file_id: self.file_id@,
                revision_id: self.revision_id@,
                changelist_id: self.changelist_id,
                binary_id: texts(self.binary_id@),
                size: self.size,
                created_at: self.created_at,
            },
        }
    }
}

/// The models of a sequence of entries.
pub open spec fn entry_models(s: Seq<TreeEntry>) -> Seq<EntryModel> {
    s.map_values(|e: TreeEntry| e@)
}

/// `prefix` is a leading part of `dirs`.
pub open spec fn under(dirs: Seq<Seq<char>>, prefix: Seq<Seq<char>>) -> bool {
    prefix.len() <= dirs.len() && dirs.take(prefix.len() as int) == prefix
}

/// Some entry lies inside the directory `prefix/n`.
pub open spec fn has_dir(es: Seq<EntryModel>, prefix: Seq<Seq<char>>, n: Seq<char>) -> bool {
    exists|i: int| 0 <= i < es.len() && #[trigger] under(es[i].dirs, prefix.push(n))
}

/// The entry is the file `prefix/n`.
pub open spec fn file_in(e: EntryModel, prefix: Seq<Seq<char>>, n: Seq<char>) -> bool {
    e.dirs == prefix && e.leaf.name == n
}

/// Some entry is the file `prefix/n`.
pub open spec fn has_file(es: Seq<EntryModel>, prefix: Seq<Seq<char>>, n: Seq<char>) -> bool {
    exists|i: int| 0 <= i < es.len() && #[trigger] file_in(es[i], prefix, n)
}

/// Entry `i` is the last entry that is the file `prefix/n`.
pub open spec fn last_file(es: Seq<EntryModel>, prefix: Seq<Seq<char>>, n: Seq<char>, i: int) -> bool {
    &&& 0 <= i < es.len()
    &&& file_in(es[i], prefix, n)
    &&& forall|j: int| i < j < es.len() ==> !#[trigger] file_in(es[j], prefix, n)
}

/// `nodes` is the content of directory `prefix` of the tree of `es`:
/// first the directories, then the files, each group in strictly increasing
/// order of name; a directory for each name under which some entry lies,
/// holding the content of that directory; a file for each name that some
/// entry directly in `prefix` has, taken from the last such entry.
pub open spec fn level_ok(nodes: Seq<NodeModel>, es: Seq<EntryModel>, prefix: Seq<Seq<char>>) -> bool
    decreases nodes,
{
    &&& forall|i: int, j: int|
        #![trigger nodes[i], nodes[j]]
        0 <= i < j < nodes.len() && nodes[j] is Dir ==> nodes[i] is Dir
    &&& forall|i: int, j: int|
        #![trigger nodes[i], nodes[j]]
        0 <= i < j < nodes.len() && (nodes[i] is Dir <==> nodes[j] is Dir) ==> text_lt(
            model_name(nodes[i]),
            model_name(nodes[j]),
        )
    &&& forall|j: int|
        0 <= j < nodes.len() && #[trigger] nodes[j] is Dir ==> has_dir(es, prefix, model_name(nodes[j]))
            && level_ok(nodes[j]->children, es, prefix.push(model_name(nodes[j])))
    &&& forall|n: Seq<char>|
        #[trigger] has_dir(es, prefix, n) ==> exists|j: int|
            0 <= j < nodes.len() && #[trigger] nodes[j] is Dir && model_name(nodes[j]) == n
    &&& forall|j: int|
        0 <= j < nodes.len() && #[trigger] nodes[j] is Leaf ==> exists|i: int|
            #[trigger] last_file(es, prefix, model_name(nodes[j]), i) && nodes[j]->Leaf_0 == es[i].leaf
    &&& forall|n: Seq<char>|
        #[trigger] has_file(es, prefix, n) ==> exists|j: int|
            0 <= j < nodes.len() && #[trigger] nodes[j] is Leaf && model_name(nodes[j]) == n
}

/// `members` lists, in increasing order, exactly the entries under `prefix`.
pub open spec fn members_of(members: Seq<usize>, es: Seq<EntryModel>, prefix: Seq<Seq<char>>) -> bool {
    &&& forall|a: int, b: int| 0 <= a < b < members.len() ==> members[a] < members[b]
    &&& forall|a: int|
        0 <= a < members.len() ==> members[a] < es.len() && under(
            es[members[a] as int].dirs,
            prefix,
        )
    &&& forall|i: int|
        0 <= i < es.len() && under(es[i].dirs, prefix) ==> exists|a: int|
            0 <= a < members.len() && members[a] == i
}

/// Being under `prefix/n` is being under `prefix` one level deeper, in `n`.
pub proof fn lemma_under_push(d: Seq<Seq<char>>, prefix: Seq<Seq<char>>, n: Seq<char>)
    ensures
        under(d, prefix.push(n)) <==> (under(d, prefix) && d.len() > prefix.len() && d[prefix.len() as int] == n),
{
    if under(d, prefix.push(n)) {
        assert(d.take(prefix.len() as int) =~= prefix.push(n).take(prefix.len() as int));
        assert(prefix.push(n).take(prefix.len() as int) =~= prefix);
        assert(d[prefix.len() as int] == d.take(prefix.len() as int + 1)[prefix.len() as int]);
    }
    if under(d, prefix) && d.len() > prefix.len() && d[prefix.len() as int] == n {
        assert(d.take(prefix.len() as int + 1) =~= prefix.push(n));
    }
}

/// The sorted names of the directories directly inside `prefix`.
fn dir_names_at(es: &Vec<TreeEntry>, members: &Vec<usize>, depth: usize, Ghost(prefix): Ghost<Seq<Seq<char>>>) -> (names: Vec<String>)
    requires
        prefix.len() == depth,
        members_of(members@, entry_models(es@), prefix),
    ensures
        strictly_sorted(texts(names@)),
        forall|n: Seq<char>| texts(names@).contains(n) <==> has_dir(entry_models(es@), prefix, n),
{
    let ghost ms = entry_models(es@);
    let mut names: Vec<String> = Vec::new();
    let mut a: usize = 0;
    while a < members.len()
        invariant
            a <= members@.len(),
            prefix.len() == depth,
            members_of(members@, ms, prefix),
            ms == entry_models(es@),
            strictly_sorted(texts(names@)),
            forall|n: Seq<char>|
                texts(names@).to_set().contains(n) <==> exists|b: int|
                    0 <= b < a && #[trigger] ms[members@[b] as int].dirs.len() > depth
                        && ms[members@[b] as int].dirs[depth as int] == n,
        decreases members@.len() - a,
    {
        let e = &es[members[a]];
        if e.dirs.len() > depth {
            let ghost before = texts(names@).to_set();
            insert_sorted_text(&mut names, &e.dirs[depth]);
            assert forall|n: Seq<char>|
                texts(names@).to_set().contains(n) <==> exists|b: int|
                    0 <= b < a + 1 && #[trigger] ms[members@[b] as int].dirs.len() > depth
                        && ms[members@[b] as int].dirs[depth as int] == n by {
                if texts(names@).to_set().contains(n) && n == e.dirs@[depth as int]@ {
                    assert(ms[members@[a as int] as int].dirs[depth as int] == n);
                }
            }
        }
        a = a + 1;
    }
    assert forall|n: Seq<char>| texts(names@).contains(n) <==> has_dir(ms, prefix, n) by {
        assert(texts(names@).contains(n) <==> texts(names@).to_set().contains(n));
        if has_dir(ms, prefix, n) {
            let i = choose|i: int| 0 <= i < ms.len() && #[trigger] under(ms[i].dirs, prefix.push(n));
            lemma_under_push(ms[i].dirs, prefix, n);
            let b = choose|b: int| 0 <= b < members@.len() && members@[b] == i;
            assert(ms[members@[b] as int].dirs.len() > depth);
        }
        if texts(names@).to_set().contains(n) {
            let b = choose|b: int|
                0 <= b < members@.len() && #[trigger] ms[members@[b] as int].dirs.len() > depth
                    && ms[members@[b] as int].dirs[depth as int] == n;
            lemma_under_push(ms[members@[b] as int].dirs, prefix, n);
        }
    }
    names
}

/// The sorted names of the files directly inside `prefix`.
fn file_names_at(es: &Vec<TreeEntry>, members: &Vec<usize>, depth: usize, Ghost(prefix): Ghost<Seq<Seq<char>>>) -> (names: Vec<String>)
    requires
        prefix.len() == depth,
        members_of(members@, entry_models(es@), prefix),
    ensures
        strictly_sorted(texts(names@)),
        forall|n: Seq<char>| texts(names@).contains(n) <==> has_file(entry_models(es@), prefix, n),
{
    let ghost ms = entry_models(es@);
    let mut names: Vec<String> = Vec::new();
    let mut a: usize = 0;
    while a < members.len()
        invariant
            a <= members@.len(),
            prefix.len() == depth,
            members_of(members@, ms, prefix),
            ms == entry_models(es@),
            strictly_sorted(texts(names@)),
            forall|n: Seq<char>|
                texts(names@).to_set().contains(n) <==> exists|b: int|
                    0 <= b < a && #[trigger] file_in(ms[members@[b] as int], prefix, n),
        decreases members@.len() - a,
    {
        let e = &es[members[a]];
        if e.dirs.len() == depth {
            proof {
                let d = ms[members@[a as int] as int].dirs;
                assert(d =~= d.take(prefix.len() as int));
            }
            insert_sorted_text(&mut names, &e.name);
            assert forall|n: Seq<char>|
                texts(names@).to_set().contains(n) <==> exists|b: int|
                    0 <= b < a + 1 && #[trigger] file_in(ms[members@[b] as int], prefix, n) by {
                if texts(names@).to_set().contains(n) && n == e.name@ {
                    assert(file_in(ms[members@[a as int] as int], prefix, n));
                }
            }
        } else {
            assert forall|n: Seq<char>|
                texts(names@).to_set().contains(n) <==> exists|b: int|
                    0 <= b < a + 1 && #[trigger] file_in(ms[members@[b] as int], prefix, n) by {
                if exists|b: int| 0 <= b < a + 1 && #[trigger] file_in(ms[members@[b] as int], prefix, n) {
                    let b = choose|b: int| 0 <= b < a + 1 && #[trigger] file_in(ms[members@[b] as int], prefix, n);
                    if b == a {
                        assert(ms[members@[b] as int].dirs.len() == prefix.len());
                    }
                }
            }
        }
        a = a + 1;
    }
    assert forall|n: Seq<char>| texts(names@).contains(n) <==> has_file(ms, prefix, n) by {
        assert(texts(names@).contains(n) <==> texts(names@).to_set().contains(n));
        if has_file(ms, prefix, n) {
            let i = choose|i: int| 0 <= i < ms.len() && #[trigger] file_in(ms[i], prefix, n);
            assert(ms[i].dirs.take(prefix.len() as int) =~= ms[i].dirs);
            let b = choose|b: int| 0 <= b < members@.len() && members@[b] == i;
            assert(file_in(ms[members@[b] as int], prefix, n));
        }
    }
    names
}

/// The entries among `members` that lie under `prefix/name`.
fn members_under(es: &Vec<TreeEntry>, members: &Vec<usize>, depth: usize, name: &String, Ghost(prefix): Ghost<Seq<Seq<char>>>) -> (sub: Vec<usize>)
    requires
        prefix.len() == depth,
        members_of(members@, entry_models(es@), prefix),
    ensures
        members_of(sub@, entry_models(es@), prefix.push(name@)),
{
    let ghost ms = entry_models(es@);
    let mut sub: Vec<usize> = Vec::new();
    let mut a: usize = 0;
    while a < members.len()
        invariant
            a <= members@.len(),
            prefix.len() == depth,
            members_of(members@, ms, prefix),
            ms == entry_models(es@),
            forall|x: int, y: int| 0 <= x < y < sub@.len() ==> sub@[x] < sub@[y],
            forall|x: int|
                0 <= x < sub@.len() ==> sub@[x] < ms.len() && under(ms[sub@[x] as int].dirs, prefix.push(name@)),
            a == 0 ==> sub@.len() == 0,
            a > 0 ==> forall|x: int| 0 <= x < sub@.len() ==> sub@[x] <= members@[a - 1],
            forall|b: int|
                0 <= b < a && #[trigger] under(ms[members@[b] as int].dirs, prefix.push(name@)) ==> exists|x: int|
                    0 <= x < sub@.len() && sub@[x] == members@[b],
        decreases members@.len() - a,
    {
        let i = members[a];
        let e = &es[i];
        proof {
            lemma_under_push(ms[i as int].dirs, prefix, name@);
        }
        let ghost old_sub = sub@;
        if e.dirs.len() > depth && string_eq(&e.dirs[depth], name) {
            proof {
                if a > 0 {
                    assert(members@[a - 1] < members@[a as int]);
                }
            }
            sub.push(i);
            proof {
                assert(sub@[sub@.len() - 1] == members@[a as int]);
            }
        }
        proof {
            if a > 0 {
                assert(members@[a - 1] < members@[a as int]);
            }
            assert forall|b: int|
                0 <= b < a + 1 && #[trigger] under(ms[members@[b] as int].dirs, prefix.push(name@)) implies exists|x: int|
                    0 <= x < sub@.len() && sub@[x] == members@[b] by {
                if b < a {
                    let x = choose|x: int| 0 <= x < old_sub.len() && old_sub[x] == members@[b];
                    assert(sub@[x] == old_sub[x]);
                } else {
                    assert(sub@[sub@.len() - 1] == members@[b]);
                }
            }
        }
        a = a + 1;
    }
    proof {
        assert forall|i: int| 0 <= i < ms.len() && under(ms[i].dirs, prefix.push(name@)) implies exists|x: int|
            0 <= x < sub@.len() && sub@[x] == i by {
            lemma_under_push(ms[i].dirs, prefix, name@);
            let b = choose|b: int| 0 <= b < members@.len() && members@[b] == i;
            assert(under(ms[members@[b] as int].dirs, prefix.push(name@)));
        }
    }
    sub
}

/// The last entry among `members` that is the file `prefix/name`.
fn last_member_named(es: &Vec<TreeEntry>, members: &Vec<usize>, depth: usize, name: &String, Ghost(prefix): Ghost<Seq<Seq<char>>>) -> (r: usize)
    requires
        prefix.len() == depth,
        members_of(members@, entry_models(es@), prefix),
        has_file(entry_models(es@), prefix, name@),
    ensures
        last_file(entry_models(es@), prefix, name@, r as int),
{
    let ghost ms = entry_models(es@);
    let mut found: Option<usize> = None;
    let mut fa: usize = 0;
    let mut a: usize = 0;
    while a < members.len()
        invariant
            a <= members@.len(),
            prefix.len() == depth,
            members_of(members@, ms, prefix),
            ms == entry_models(es@),
            found matches Some(i) ==> fa < a && members@[fa as int] == i && file_in(ms[i as int], prefix, name@),
            forall|b: int|
                0 <= b < a && #[trigger] file_in(ms[members@[b] as int], prefix, name@) ==> (found matches Some(i) && members@[b] <= i),
        decreases members@.len() - a,
    {
        let i = members[a];
        let e = &es[i];
        if e.dirs.len() == depth && string_eq(&e.name, name) {
            proof {
                let d = ms[i as int].dirs;
                assert(d =~= d.take(prefix.len() as int));
            }
            found = Some(i);
            fa = a;
        }
        a = a + 1;
    }
    proof {
        let j = choose|j: int| 0 <= j < ms.len() && #[trigger] file_in(ms[j], prefix, name@);
        assert(ms[j].dirs.take(prefix.len() as int) =~= ms[j].dirs);
        let b = choose|b: int| 0 <= b < members@.len() && members@[b] == j;
        assert(file_in(ms[members@[b] as int], prefix, name@));
    }
    let r = found.unwrap();
    proof {
        assert forall|j: int| r < j < ms.len() implies !#[trigger] file_in(ms[j], prefix, name@) by {
            if file_in(ms[j], prefix, name@) {
                assert(ms[j].dirs.take(prefix.len() as int) =~= ms[j].dirs);
                let b = choose|b: int| 0 <= b < members@.len() && members@[b] == j;
                assert(file_in(ms[members@[b] as int], prefix, name@));
            }
        }
    }
    r
}

/// The file node of an entry.
fn leaf_node(e: &TreeEntry) -> (n: FileTreeNode)
    ensures
        n@ == NodeModel::Leaf(e@.leaf),
{
    FileTreeNode::File {
        name: copy_string(&e.name),
        file_id: copy_string(&e.file_id),
        reivision_id: copy_string(&e.revision_id),
        changelist_id: e.changelist_id,
        binary_id: copy_strings(&e.binary_id),
        size: e.size,
        revision_created_at: e.created_at,
    }
}

/// The content of directory `prefix` of the tree of `es`, from the entries
/// `members` that lie under it.
fn build_level(es: &Vec<TreeEntry>, members: &Vec<usize>, depth: usize, max_depth: usize, Ghost(prefix): Ghost<Seq<Seq<char>>>) -> (r: Vec<FileTreeNode>)
    requires
        prefix.len() == depth,
        depth <= max_depth,
        forall|i: int| 0 <= i < es@.len() ==> (#[trigger] es@[i]).dirs@.len() <= max_depth,
        members_of(members@, entry_models(es@), prefix),
    ensures
        level_ok(nodes_model(r@), entry_models(es@), prefix),
    decreases max_depth - depth,
{
    let ghost ms = entry_models(es@);
    let dnames = dir_names_at(es, members, depth, Ghost(prefix));
    let mut r: Vec<FileTreeNode> = Vec::new();
    let mut k: usize = 0;
    while k < dnames.len()
        invariant
            prefix.len() == depth,
            depth <= max_depth,
            forall|i: int| 0 <= i < es@.len() ==> (#[trigger] es@[i]).dirs@.len() <= max_depth,
            members_of(members@, ms, prefix),
            ms == entry_models(es@),
            forall|n: Seq<char>| texts(dnames@).contains(n) <==> has_dir(ms, prefix, n),
            k <= dnames@.len(),
            r@.len() == k,
            forall|j: int|
                0 <= j < k ==> (#[trigger] r@[j])@ is Dir && model_name(r@[j]@) == dnames@[j]@
                    && level_ok(r@[j]@->children, ms, prefix.push(dnames@[j]@)),
        decreases dnames@.len() - k,
    {
        let name = &dnames[k];
        proof {
            assert(texts(dnames@)[k as int] == name@);
            assert(has_dir(ms, prefix, name@));
            let i = choose|i: int| 0 <= i < ms.len() && #[trigger] under(ms[i].dirs, prefix.push(name@));
            assert(ms[i].dirs.len() == es@[i].dirs@.len());
        }
        let sub = members_under(es, members, depth, name, Ghost(prefix));
        let children = build_level(es, &sub, depth + 1, max_depth, Ghost(prefix.push(name@)));
        r.push(FileTreeNode::Directory { name: copy_string(name), children });
        k = k + 1;
    }
    let kd = r.len();
    let fnames = file_names_at(es, members, depth, Ghost(prefix));
    let mut f: usize = 0;
    while f < fnames.len()
        invariant
            prefix.len() == depth,
            members_of(members@, ms, prefix),
            ms == entry_models(es@),
            forall|n: Seq<char>| texts(fnames@).contains(n) <==> has_file(ms, prefix, n),
            kd == dnames@.len(),
            f <= fnames@.len(),
            r@.len() == kd + f,
            forall|j: int|
                0 <= j < kd ==> (#[trigger] r@[j])@ is Dir && model_name(r@[j]@) == dnames@[j]@
                    && level_ok(r@[j]@->children, ms, prefix.push(dnames@[j]@)),
            forall|j: int|
                kd <= j < kd + f ==> (#[trigger] r@[j])@ is Leaf && model_name(r@[j]@) == fnames@[j - kd]@
                    && exists|i: int| last_file(ms, prefix, fnames@[j - kd]@, i) && r@[j]@->Leaf_0 == ms[i].leaf,
        decreases fnames@.len() - f,
    {
        proof {
            assert(texts(fnames@)[f as int] == fnames@[f as int]@);
        }
        let i = last_member_named(es, members, depth, &fnames[f], Ghost(prefix));
        let n = leaf_node(&es[i]);
        r.push(n);
        proof {
            assert(r@[kd + f]@->Leaf_0 == ms[i as int].leaf);
        }
        f = f + 1;
    }
    proof {
        lemma_nodes_model(r@);
        let nm = nodes_model(r@);
        assert forall|j: int| 0 <= j < nm.len() implies nm[j] == r@[j]@ by {}
        assert forall|i: int, j: int|
            #![trigger nm[i], nm[j]]
            0 <= i < j < nm.len() && (nm[i] is Dir <==> nm[j] is Dir) implies text_lt(model_name(nm[i]), model_name(nm[j])) by {
            if j < kd {
                assert(text_lt(texts(dnames@)[i], texts(dnames@)[j]));
            } else {
                assert(text_lt(texts(fnames@)[i - kd], texts(fnames@)[j - kd]));
            }
        }
        assert forall|n: Seq<char>| #[trigger] has_dir(ms, prefix, n) implies exists|j: int|
            0 <= j < nm.len() && #[trigger] nm[j] is Dir && model_name(nm[j]) == n by {
            let j = choose|j: int| 0 <= j < texts(dnames@).len() && texts(dnames@)[j] == n;
            assert(nm[j] is Dir && model_name(nm[j]) == n);
        }
        assert forall|n: Seq<char>| #[trigger] has_file(ms, prefix, n) implies exists|j: int|
            0 <= j < nm.len() && #[trigger] nm[j] is Leaf && model_name(nm[j]) == n by {
            let j = choose|j: int| 0 <= j < texts(fnames@).len() && texts(fnames@)[j] == n;
            assert(nm[kd + j] is Leaf && model_name(nm[kd + j]) == n);
        }
        assert forall|j: int| 0 <= j < nm.len() && #[trigger] nm[j] is Dir implies has_dir(ms, prefix, model_name(nm[j]))
            && level_ok(nm[j]->children, ms, prefix.push(model_name(nm[j]))) by {
            assert(texts(dnames@)[j] == dnames@[j]@);
        }
        assert forall|j: int| 0 <= j < nm.len() && #[trigger] nm[j] is Leaf implies exists|i: int|
            #[trigger] last_file(ms, prefix, model_name(nm[j]), i) && nm[j]->Leaf_0 == ms[i].leaf by {
        }
    }
    r
}

/// `nodes` is the directory tree of some list of files.
pub open spec fn tree_of_some_files(nodes: Seq<NodeModel>) -> bool {
    exists|es: Seq<EntryModel>| level_ok(nodes, es, Seq::empty())
}

/// The directory tree of the entries: `level_ok` at the root.
pub fn build_file_tree(entries: &Vec<TreeEntry>) -> (t: FileTree)
    ensures
        level_ok(t@, entry_models(entries@), Seq::empty()),
{
    let mut max_depth: usize = 0;
    let mut members: Vec<usize> = Vec::new();
    let mut i: usize = 0;
    while i < entries.len()
        invariant
            i <= entries@.len(),
            members@.len() == i,
            forall|a: int| 0 <= a < i ==> members@[a] == a,
            forall|a: int| 0 <= a < i ==> (#[trigger] entries@[a]).dirs@.len() <= max_depth,
        decreases entries@.len() - i,
    {
        if entries[i].dirs.len() > max_depth {
            max_depth = entries[i].dirs.len();
        }
        members.push(i);
        i = i + 1;
    }
    let ghost ms = entry_models(entries@);
    proof {
        assert forall|a: int| 0 <= a < members@.len() implies members@[a] < ms.len() && under(ms[members@[a] as int].dirs, Seq::<Seq<char>>::empty()) by {
            assert(ms[a].dirs.take(0) =~= Seq::<Seq<char>>::empty());
        }
        assert forall|i: int| 0 <= i < ms.len() && under(ms[i].dirs, Seq::<Seq<char>>::empty()) implies exists|a: int|
            0 <= a < members@.len() && members@[a] == i by {
            assert(members@[i] == i);
        }
    }
    let nodes = build_level(entries, &members, 0, max_depth, Ghost(Seq::empty()));
    FileTree { nodes }
}

/// Abstract visibility list: each file id with its visible revision, or
/// `None` where the file is deleted.
pub open spec fn visible_model(v: Seq<(String, Option<String>)>) -> Seq<(Seq<char>, Option<Seq<char>>)> {
    v.map_values(
        |e: (String, Option<String>)|
            (
                e.0@,
                match e.1 {
                    Some(r) => Some(r@),
                    None => None,
                },
            ),
    )
}

/// The file already has an entry.
pub open spec fn seen(vis: Seq<(Seq<char>, Option<Seq<char>>)>, f: Seq<char>) -> bool {
    exists|k: int| 0 <= k < vis.len() && (#[trigger] vis[k]).0 == f
}

/// What a change leaves visible of its file: the new revision, or nothing
/// for a deletion.
pub open spec fn change_effect(c: ChangeView) -> Option<Seq<char>> {
    if c.action == ChangelistAction::Delete {
        None
    } else {
        Some(c.revision)
    }
}

/// The visibility list after reading `cs` in order, walking from the target
/// changelist towards the root: a change only counts for a file that has no
/// entry yet.
pub open spec fn apply_changes(vis: Seq<(Seq<char>, Option<Seq<char>>)>, cs: Seq<ChangeView>) -> Seq<(Seq<char>, Option<Seq<char>>)>
    decreases cs.len(),
{
    if cs.len() == 0 {
        vis
    } else {
        let v = apply_changes(vis, cs.drop_last());
        let c = cs.last();
        if seen(v, c.file) {
            v
        } else {
            v.push((c.file, change_effect(c)))
        }
    }
}

/// Reading one sequence of changes after another is reading them together.
pub proof fn lemma_apply_changes_concat(vis: Seq<(Seq<char>, Option<Seq<char>>)>, a: Seq<ChangeView>, b: Seq<ChangeView>)
    ensures
        apply_changes(apply_changes(vis, a), b) == apply_changes(vis, a + b),
    decreases b.len(),
{
    if b.len() == 0 {
        assert(a + b =~= a);
    } else {
        lemma_apply_changes_concat(vis, a, b.drop_last());
        assert((a + b).drop_last() =~= a + b.drop_last());
        assert((a + b).last() == b.last());
    }
}

/// The first change in `cs` that touches `f`.
pub open spec fn first_touch(cs: Seq<ChangeView>, f: Seq<char>, k: int) -> bool {
    &&& 0 <= k < cs.len()
    &&& cs[k].file == f
    &&& forall|j: int| 0 <= j < k ==> (#[trigger] cs[j]).file != f
}

/// Visibility is decided by the change closest to the target: walking the
/// changelist chain from the target, a file not yet listed gets an entry
/// exactly when some change touches it, and that entry is what the first
/// such change leaves; entries already listed stay as they are.
pub proof fn lemma_first_change_decides(vis: Seq<(Seq<char>, Option<Seq<char>>)>, cs: Seq<ChangeView>, f: Seq<char>)
    ensures
        forall|k: int| 0 <= k < vis.len() ==> apply_changes(vis, cs)[k] == vis[k],
        vis.len() <= apply_changes(vis, cs).len(),
        !seen(vis, f) ==> (seen(apply_changes(vis, cs), f) <==> exists|k: int| 0 <= k < cs.len() && (#[trigger] cs[k]).file == f),
        !seen(vis, f) ==> forall|k: int, i: int|
            #[trigger] first_touch(cs, f, k) && vis.len() <= i < apply_changes(vis, cs).len()
                && (#[trigger] apply_changes(vis, cs)[i]).0 == f ==> apply_changes(vis, cs)[i].1 == change_effect(cs[k]),
    decreases cs.len(),
{
    if cs.len() > 0 {
        let p = cs.drop_last();
        lemma_first_change_decides(vis, p, f);
        let v = apply_changes(vis, p);
        let c = cs.last();
        if !seen(vis, f) {
            let w = apply_changes(vis, cs);
            assert(forall|i: int| 0 <= i < v.len() ==> w[i] == v[i]);
            if seen(w, f) {
                let i = choose|i: int| 0 <= i < w.len() && (#[trigger] w[i]).0 == f;
                if i < v.len() {
                    assert(v[i].0 == f);
                    assert(seen(v, f));
                    let k = choose|k: int| 0 <= k < p.len() && (#[trigger] p[k]).file == f;
                    assert(cs[k] == p[k]);
                } else {
                    assert(cs[cs.len() - 1].file == f);
                }
            }
            if exists|k: int| 0 <= k < cs.len() && (#[trigger] cs[k]).file == f {
                let k = choose|k: int| 0 <= k < cs.len() && (#[trigger] cs[k]).file == f;
                if k < p.len() {
                    assert(p[k] == cs[k]);
                    assert(seen(v, f));
                    let i = choose|i: int| 0 <= i < v.len() && (#[trigger] v[i]).0 == f;
                    assert(w[i].0 == f);
                } else if !seen(v, f) {
                    assert(w[v.len() as int].0 == f);
                } else {
                    let i = choose|i: int| 0 <= i < v.len() && (#[trigger] v[i]).0 == f;
                    assert(w[i].0 == f);
                }
            }
            assert forall|k: int, i: int|
                #[trigger] first_touch(cs, f, k) && vis.len() <= i < apply_changes(vis, cs).len()
                    && (#[trigger] apply_changes(vis, cs)[i]).0 == f implies apply_changes(vis, cs)[i].1 == change_effect(cs[k]) by {
                if i < v.len() {
                    assert(v[i].0 == f);
                    assert(seen(v, f));
                    let k2 = choose|k2: int| 0 <= k2 < p.len() && (#[trigger] p[k2]).file == f;
                    assert(cs[k2].file == f);
                    if k < p.len() {
                        assert forall|j: int| 0 <= j < k implies (#[trigger] p[j]).file != f by {
                            assert(p[j] == cs[j]);
                        }
                        assert(first_touch(p, f, k));
                    }
                } else {
                    assert(c.file == f);
                    assert(!seen(v, f));
                    if k < p.len() {
                        assert(p[k] == cs[k]);
                        assert(seen(v, f));
                    }
                }
            }
        }
    }
}

/// The visibility list after reading one changelist's changes.
pub fn apply_changelist(visible: &mut Vec<(String, Option<String>)>, cl: &ChangelistDoc)
    ensures
        visible_model(final(visible)@) == apply_changes(visible_model(old(visible)@), change_views(cl.changes@)),
{
    let ghost v0 = visible_model(visible@);
    let ghost cs = change_views(cl.changes@);
    let mut i: usize = 0;
    while i < cl.changes.len()
        invariant
            i <= cl.changes@.len(),
            cs == change_views(cl.changes@),
            visible_model(visible@) == apply_changes(v0, cs.take(i as int)),
        decreases cl.changes@.len() - i,
    {
        let change = &cl.changes[i];
        let mut found = false;
        let mut k: usize = 0;
        while k < visible.len()
            invariant
                k <= visible@.len(),
                !found ==> forall|j: int| 0 <= j < k ==> (#[trigger] visible_model(visible@)[j]).0 != change.file@,
                found ==> seen(visible_model(visible@), change.file@),
            decreases visible@.len() - k,
        {
            if string_eq(&visible[k].0, &change.file) {
                assert(visible_model(visible@)[k as int].0 == change.file@);
                found = true;
            }
            k = k + 1;
        }
        assert(cs.take(i + 1).drop_last() =~= cs.take(i as int));
        assert(cs.take(i + 1).last() == change@);
        if !found {
            let eff = match change.action {
                ChangelistAction::Delete => None,
                _ => Some(copy_string(&change.revision)),
            };
            visible.push((copy_string(&change.file), eff));
            assert(visible_model(visible@) =~= apply_changes(v0, cs.take(i + 1)));
        }
        i = i + 1;
    }
    assert(cs.take(cl.changes@.len() as int) =~= cs);
}

/// The range wildcard a tree is built under: the wildcard must read as a
/// range (`//path/...` form); a regex wildcard or an unreadable one is refused.
pub fn range_wildcard_of(depot_wildcard: &str) -> (r: FileTreeResult<RangeDepotWildcard>)
    ensures
        r is Ok <==> whole(depot_wildcard_at(depot_wildcard@, 0), depot_wildcard@) matches Some(DepotPathWildcardView::Range(_)),
        r matches Ok(w) ==> whole(depot_wildcard_at(depot_wildcard@, 0), depot_wildcard@) == Some(DepotPathWildcardView::Range(w@)),
        r matches Err(e) ==> e is InvalidDepotPathWildcard,
{
    match DepotPathWildcard::parse(depot_wildcard) {
        Err(e) => Err(FileTreeError::InvalidDepotPathWildcard(e.message())),
        Ok(DepotPathWildcard::Range(w)) => Ok(w),
        Ok(DepotPathWildcard::Regex(_)) => Err(
            FileTreeError::InvalidDepotPathWildcard(
                String::from_str("构建文件树暂不支持正则通配符，请使用 //path/... 形式的范围通配"),
            ),
        ),
    }
}

/// The tree entry of a visible file: the file's depot path must read (else a
/// backend error with the parse message); a path outside the range gives no
/// entry; otherwise the entry lies under the directories below the range.
pub fn entry_for_file(range: &RangeDepotWildcard, revision: &FileRevisionDoc, file: &FileDoc) -> (r: FileTreeResult<Option<TreeEntry>>)
    ensures
        r is Ok <==> entry_of(range@, *revision, *file) is Some,
        r matches Ok(None) ==> entry_of(range@, *revision, *file) == Some(None::<EntryModel>),
        r matches Ok(Some(e)) ==> entry_of(range@, *revision, *file) == Some(Some(e@)),
        match whole(depot_path_at(file.path@, 0), file.path@) {
            None => r matches Err(FileTreeError::Backend(m)) && exists|e: PathError| e is SyntaxError && m@ == crate::path::basic::path_error_text(e),
            Some(p) => match range_match(range@, p) {
                None => r == Ok::<Option<TreeEntry>, FileTreeError>(None),
                Some(d) => r matches Ok(Some(e)) && e@ == (EntryModel {
                    dirs: d,
                    leaf: LeafModel {
                        name: p.file,
                        file_id: file.id@,
                        revision_id: revision.id@,
                        changelist_id: revision.changelist_id,
                        binary_id: binary_ids(*revision),
                        size: revision.size,
                        created_at: revision.created_at,
                    },
                }),
            },
        },
{
    match DepotPath::parse(file.path.as_str()) {
        Err(e) => Err(FileTreeError::Backend(e.message())),
        Ok(p) => match range.match_and_get_diff(&p) {
            None => Ok(None),
            Some(d) => {
                let dirs = crate::text::copy_slice(d);
                Ok(
                    Some(
                        TreeEntry {
                            dirs,
                            name: copy_string(&p.file),
                            file_id: copy_string(&file.id),
                            revision_id: copy_string(&revision.id),
                            changelist_id: revision.changelist_id,
                            binary_id: copy_strings(&revision.binary_id),
                            size: revision.size,
                            created_at: revision.created_at,
                        },
                    ),
                )
            },
        },
    }
}

/// A backend error naming a missing object: `prefix` then the id.
fn missing_error(prefix: &str, id: &String) -> (e: FileTreeError)
    ensures
        e matches FileTreeError::Backend(m) && m@ == prefix@ + id@,
{
    let mut m = String::from_str(prefix);
    string_push_str(&mut m, id.as_str());
    FileTreeError::Backend(m)
}

/// What a visible file gives the tree: `None` when its depot path does not
/// read, `Some(None)` when it lies outside the range, otherwise its entry.
pub open spec fn entry_of(range: RangeDepotWildcardView, revision: FileRevisionDoc, file: FileDoc) -> Option<Option<EntryModel>> {
    match whole(depot_path_at(file.path@, 0), file.path@) {
        None => None,
        Some(p) => match range_match(range, p) {
            None => Some(None),
            Some(d) => Some(
                Some(
                    EntryModel {
                        dirs: d,
                        leaf: LeafModel {
                            name: p.file,
                            file_id: file.id@,
                            revision_id: revision.id@,
                            changelist_id: revision.changelist_id,
                            binary_id: binary_ids(revision),
                            size: revision.size,
                            created_at: revision.created_at,
                        },
                    },
                ),
            ),
        },
    }
}

/// The range of a range wildcard.
pub open spec fn wildcard_range(w: Seq<char>) -> RangeDepotWildcardView {
    match whole(depot_wildcard_at(w, 0), w) {
        Some(DepotPathWildcardView::Range(r)) => r,
        _ => arbitrary(),
    }
}

/// The id the walk of a changelist chain asks for after `n` changelists.
pub open spec fn chain_id(start: i64, chain: Seq<ChangelistDoc>, n: int) -> i64 {
    if n == 0 { start } else { chain[n - 1].parent_changelist_id }
}

/// The visibility list after the changes of the changelists of `chain`, in
/// order.
pub open spec fn chain_visible(chain: Seq<ChangelistDoc>) -> Seq<(Seq<char>, Option<Seq<char>>)>
    decreases chain.len(),
{
    if chain.len() == 0 {
        Seq::empty()
    } else {
        apply_changes(chain_visible(chain.drop_last()), change_views(chain.last().changes@))
    }
}

/// The walk asks for the changelists of `chain`, which `gc` may give, all on
/// branch `b`.
pub open spec fn chain_answers<GC: Fn(i64) -> Result<Option<ChangelistDoc>, String>>(
    gc: GC,
    b: Seq<char>,
    start: i64,
    chain: Seq<ChangelistDoc>,
) -> bool {
    &&& chain.len() <= 1_000_001
    &&& forall|k: int| 0 <= k < chain.len() ==> chain_id(start, chain, k) > 0
    &&& forall|k: int| 0 <= k < chain.len() ==> call_ensures(gc, (chain_id(start, chain, k),), Ok(Some(#[trigger] chain[k])))
    &&& forall|k: int| 0 <= k < chain.len() ==> (#[trigger] chain[k]).branch_id@ == b
}

/// The walk stops after `chain`: no id is left, the step limit is reached,
/// or the next changelist is missing or on another branch.
pub open spec fn chain_ends<GC: Fn(i64) -> Result<Option<ChangelistDoc>, String>>(
    gc: GC,
    b: Seq<char>,
    start: i64,
    chain: Seq<ChangelistDoc>,
) -> bool {
    ||| chain_id(start, chain, chain.len() as int) <= 0
    ||| chain.len() == 1_000_001
    ||| call_ensures(gc, (chain_id(start, chain, chain.len() as int),), Ok(None))
    ||| exists|c: ChangelistDoc| c.branch_id@ != b && #[trigger] call_ensures(gc, (chain_id(start, chain, chain.len() as int),), Ok(Some(c)))
}

/// What the store gave for one visible file: nothing for a deleted file;
/// otherwise the revision, and the file when the revision is on branch `b`.
pub type FileAnswer = Option<(FileRevisionDoc, Option<FileDoc>)>;

/// `a` is what `gr` and `gf` may give for the visible file `v`, and the file
/// reads when it is asked for.
pub open spec fn answer_ok<
    GF: Fn(&str) -> Result<Option<FileDoc>, String>,
    GR: Fn(&str) -> Result<Option<FileRevisionDoc>, String>,
>(gf: GF, gr: GR, b: Seq<char>, range: RangeDepotWildcardView, v: (Seq<char>, Option<Seq<char>>), a: FileAnswer) -> bool {
    match v.1 {
        None => a is None,
        Some(rev) => match a {
            None => false,
            Some((rv, fo)) => {
                &&& exists|s: &str| s@ == rev && #[trigger] call_ensures(gr, (s,), Ok(Some(rv)))
                &&& if rv.branch_id@ == b {
                    match fo {
                        None => false,
                        Some(fd) => {
                            &&& exists|s: &str| s@ == v.0 && #[trigger] call_ensures(gf, (s,), Ok(Some(fd)))
                            &&& entry_of(range, rv, fd) is Some
                        },
                    }
                } else {
                    fo is None
                }
            },
        },
    }
}

/// The answers for all the visible files.
pub open spec fn answers_ok<
    GF: Fn(&str) -> Result<Option<FileDoc>, String>,
    GR: Fn(&str) -> Result<Option<FileRevisionDoc>, String>,
>(gf: GF, gr: GR, b: Seq<char>, range: RangeDepotWildcardView, vis: Seq<(Seq<char>, Option<Seq<char>>)>, answers: Seq<FileAnswer>) -> bool {
    &&& answers.len() == vis.len()
    &&& forall|k: int| 0 <= k < vis.len() ==> answer_ok(gf, gr, b, range, vis[k], #[trigger] answers[k])
}

/// The entries of the files visible with these answers, in order.
pub open spec fn answered_entries(range: RangeDepotWildcardView, answers: Seq<FileAnswer>) -> Seq<EntryModel>
    decreases answers.len(),
{
    if answers.len() == 0 {
        Seq::empty()
    } else {
        let prev = answered_entries(range, answers.drop_last());
        match answers.last() {
            Some((rv, Some(fd))) => match entry_of(range, rv, fd) {
                Some(Some(e)) => prev.push(e),
                _ => prev,
            },
            _ => prev,
        }
    }
}

/// `t` is a tree `construct_tree_from_changelist` can build: for some chain
/// of changelists the store may give, walked from `start` on branch `b`,
/// and some answers for the files visible after it, `t` arranges their
/// entries under the wildcard's range.
pub open spec fn constructed_tree<
    GC: Fn(i64) -> Result<Option<ChangelistDoc>, String>,
    GF: Fn(&str) -> Result<Option<FileDoc>, String>,
    GR: Fn(&str) -> Result<Option<FileRevisionDoc>, String>,
>(gc: GC, gf: GF, gr: GR, b: Seq<char>, w: Seq<char>, start: i64, t: Seq<NodeModel>) -> bool {
    exists|chain: Seq<ChangelistDoc>, answers: Seq<FileAnswer>|
        #[trigger] chain_answers(gc, b, start, chain) && chain_ends(gc, b, start, chain)
            && #[trigger] answers_ok(gf, gr, b, wildcard_range(w), chain_visible(chain), answers)
            && level_ok(t, answered_entries(wildcard_range(w), answers), Seq::empty())
}

/// Extending a walk by one more changelist the store may give.
proof fn lemma_chain_push<GC: Fn(i64) -> Result<Option<ChangelistDoc>, String>>(
    gc: GC,
    b: Seq<char>,
    start: i64,
    chain: Seq<ChangelistDoc>,
    cl: ChangelistDoc,
)
    requires
        chain_answers(gc, b, start, chain),
        chain.len() < 1_000_001,
        chain_id(start, chain, chain.len() as int) > 0,
        call_ensures(gc, (chain_id(start, chain, chain.len() as int),), Ok(Some(cl))),
        cl.branch_id@ == b,
    ensures
        chain_answers(gc, b, start, chain.push(cl)),
        chain_visible(chain.push(cl)) == apply_changes(chain_visible(chain), change_views(cl.changes@)),
        chain_id(start, chain.push(cl), chain.len() + 1int) == cl.parent_changelist_id,
{
    let c2 = chain.push(cl);
    assert(c2.drop_last() =~= chain);
    assert forall|k: int| 0 <= k < c2.len() implies #[trigger] chain_id(start, c2, k) == chain_id(start, chain, k) by {
        if 0 < k < chain.len() {
            assert(c2[k - 1] == chain[k - 1]);
        }
        if k == chain.len() && k > 0 {
            assert(c2[k - 1] == chain[k - 1]);
        }
    }
    assert forall|k: int| 0 <= k < c2.len() implies call_ensures(gc, (chain_id(start, c2, k),), Ok(Some(#[trigger] c2[k]))) by {
        if k < chain.len() {
            assert(c2[k] == chain[k]);
            assert(chain_id(start, c2, k) == chain_id(start, chain, k));
        } else {
            assert(chain_id(start, c2, k) == chain_id(start, chain, k));
        }
    }
    assert forall|k: int| 0 <= k < c2.len() implies (#[trigger] c2[k]).branch_id@ == b by {
        if k < chain.len() {
            assert(c2[k] == chain[k]);
        }
    }
    assert forall|k: int| 0 <= k < c2.len() implies chain_id(start, c2, k) > 0 by {
        assert(chain_id(start, c2, k) == chain_id(start, chain, k));
    }
}

/// Every answer the store may give for the branch `b` is an error.
pub open spec fn branch_errs<GB: Fn(&str) -> Result<Option<BranchDoc>, String>>(gb: GB, b: &str) -> bool {
    forall|x: Result<Option<BranchDoc>, String>| #[trigger] call_ensures(gb, (b,), x) ==> x is Err
}

/// Every answer the store may give for the branch `b` is "no such branch".
pub open spec fn branch_missing<GB: Fn(&str) -> Result<Option<BranchDoc>, String>>(gb: GB, b: &str) -> bool {
    forall|x: Result<Option<BranchDoc>, String>| #[trigger] call_ensures(gb, (b,), x) ==> x == Ok::<Option<BranchDoc>, String>(None)
}

/// Every answer the store may give for the branch `b` is a branch.
pub open spec fn branch_found<GB: Fn(&str) -> Result<Option<BranchDoc>, String>>(gb: GB, b: &str) -> bool {
    forall|x: Result<Option<BranchDoc>, String>| #[trigger] call_ensures(gb, (b,), x) ==> (x matches Ok(Some(_)))
}

/// Every answer the store may give for the changelist `id` is an error.
pub open spec fn changelist_errs<GC: Fn(i64) -> Result<Option<ChangelistDoc>, String>>(gc: GC, id: i64) -> bool {
    forall|x: Result<Option<ChangelistDoc>, String>| #[trigger] call_ensures(gc, (id,), x) ==> x is Err
}

/// Every answer the store may give for the changelist `id` is "no such
/// changelist".
pub open spec fn changelist_missing<GC: Fn(i64) -> Result<Option<ChangelistDoc>, String>>(gc: GC, id: i64) -> bool {
    forall|x: Result<Option<ChangelistDoc>, String>| #[trigger] call_ensures(gc, (id,), x)
        ==> x == Ok::<Option<ChangelistDoc>, String>(None)
}

/// Every answer the store may give for the changelist `id` is a changelist
/// of branch `b`.
pub open spec fn changelist_on<GC: Fn(i64) -> Result<Option<ChangelistDoc>, String>>(gc: GC, id: i64, b: Seq<char>) -> bool {
    forall|x: Result<Option<ChangelistDoc>, String>| #[trigger] call_ensures(gc, (id,), x)
        ==> (x matches Ok(Some(c)) && c.branch_id@ == b)
}

/// Every answer the store may give for the changelist `id` is a changelist
/// of another branch than `b`.
pub open spec fn changelist_elsewhere<GC: Fn(i64) -> Result<Option<ChangelistDoc>, String>>(gc: GC, id: i64, b: Seq<char>) -> bool {
    forall|x: Result<Option<ChangelistDoc>, String>| #[trigger] call_ensures(gc, (id,), x)
        ==> (x matches Ok(Some(c)) && c.branch_id@ != b)
}

/// The wildcard reads as a range wildcard.
pub open spec fn is_range_wildcard(w: Seq<char>) -> bool {
    whole(depot_wildcard_at(w, 0), w) matches Some(DepotPathWildcardView::Range(_))
}

/// The id the walk asks for after the changelists of `chain`.
pub open spec fn chain_next(start: i64, chain: Seq<ChangelistDoc>) -> i64 {
    chain_id(start, chain, chain.len() as int)
}

/// No changelist the walk from `start` asks for is answered with an error.
pub open spec fn walk_reads<GC: Fn(i64) -> Result<Option<ChangelistDoc>, String>>(gc: GC, b: Seq<char>, start: i64) -> bool {
    forall|chain: Seq<ChangelistDoc>, x: Result<Option<ChangelistDoc>, String>|
        #![trigger chain_answers(gc, b, start, chain), call_ensures(gc, (chain_next(start, chain),), x)]
        chain_answers(gc, b, start, chain) && chain.len() <= 1_000_000 && chain_next(start, chain) > 0
            && call_ensures(gc, (chain_next(start, chain),), x) ==> x is Ok
}

/// The answer `x` for the revision of the visible file `file_id` is a
/// revision, and when it is on branch `b` every answer for the file is a file
/// whose depot path reads.
pub open spec fn revision_read<GF: Fn(&str) -> Result<Option<FileDoc>, String>>(
    gf: GF,
    b: Seq<char>,
    range: RangeDepotWildcardView,
    file_id: Seq<char>,
    x: Result<Option<FileRevisionDoc>, String>,
) -> bool {
    x matches Ok(Some(rv)) && (rv.branch_id@ == b ==> forall|s: &str, y: Result<Option<FileDoc>, String>|
        s@ == file_id && #[trigger] call_ensures(gf, (s,), y) ==> (y matches Ok(Some(fd)) && entry_of(range, rv, fd) is Some))
}

/// Every answer for the revisions of the files of `vis` reads.
pub open spec fn revisions_read<
    GF: Fn(&str) -> Result<Option<FileDoc>, String>,
    GR: Fn(&str) -> Result<Option<FileRevisionDoc>, String>,
>(gf: GF, gr: GR, b: Seq<char>, range: RangeDepotWildcardView, vis: Seq<(Seq<char>, Option<Seq<char>>)>) -> bool {
    forall|k: int, s: &str, x: Result<Option<FileRevisionDoc>, String>|
        #![trigger vis[k], call_ensures(gr, (s,), x)]
        0 <= k < vis.len() && vis[k].1 == Some(s@) && call_ensures(gr, (s,), x) ==> revision_read(gf, b, range, vis[k].0, x)
}

/// Whatever walk the store allows, the files visible after it all read.
pub open spec fn files_read<
    GC: Fn(i64) -> Result<Option<ChangelistDoc>, String>,
    GF: Fn(&str) -> Result<Option<FileDoc>, String>,
    GR: Fn(&str) -> Result<Option<FileRevisionDoc>, String>,
>(gc: GC, gf: GF, gr: GR, b: Seq<char>, range: RangeDepotWildcardView, start: i64) -> bool {
    forall|chain: Seq<ChangelistDoc>|
        #![trigger chain_answers(gc, b, start, chain), chain_ends(gc, b, start, chain)]
        chain_answers(gc, b, start, chain) && chain_ends(gc, b, start, chain) ==> revisions_read(gf, gr, b, range, chain_visible(chain))
}

/// The store answers everything a tree needs: the branch exists, the target
/// changelist is on it, the wildcard is a range, no step of the walk errs,
/// and every visible revision and file is there with a readable path.
pub open spec fn store_reads<
    GB: Fn(&str) -> Result<Option<BranchDoc>, String>,
    GC: Fn(i64) -> Result<Option<ChangelistDoc>, String>,
    GF: Fn(&str) -> Result<Option<FileDoc>, String>,
    GR: Fn(&str) -> Result<Option<FileRevisionDoc>, String>,
>(gb: GB, gc: GC, gf: GF, gr: GR, b: &str, w: Seq<char>, start: i64) -> bool {
    &&& branch_found(gb, b)
    &&& changelist_on(gc, start, b@)
    &&& is_range_wildcard(w)
    &&& walk_reads(gc, b@, start)
    &&& files_read(gc, gf, gr, b@, wildcard_range(w), start)
}

/// Where a backend error with message `m` can come from: an error some
/// store function gave, a revision or file the store did not have (the
/// message names its id), or a file whose depot path does not read.
pub open spec fn backend_cause<
    GB: Fn(&str) -> Result<Option<BranchDoc>, String>,
    GC: Fn(i64) -> Result<Option<ChangelistDoc>, String>,
    GF: Fn(&str) -> Result<Option<FileDoc>, String>,
    GR: Fn(&str) -> Result<Option<FileRevisionDoc>, String>,
>(gb: GB, gc: GC, gf: GF, gr: GR, b: &str, m: String) -> bool {
    ||| call_ensures(gb, (b,), Err::<Option<BranchDoc>, String>(m))
    ||| exists|id: i64| #[trigger] call_ensures(gc, (id,), Err::<Option<ChangelistDoc>, String>(m))
    ||| exists|s: &str| #[trigger] call_ensures(gr, (s,), Err::<Option<FileRevisionDoc>, String>(m))
    ||| exists|s: &str| #[trigger] call_ensures(gf, (s,), Err::<Option<FileDoc>, String>(m))
    ||| exists|s: &str| #[trigger] call_ensures(gr, (s,), Ok::<Option<FileRevisionDoc>, String>(None))
        && m@ == "找不到 revision，id="@ + s@
    ||| exists|s: &str| #[trigger] call_ensures(gf, (s,), Ok::<Option<FileDoc>, String>(None)) && m@ == "找不到文件，id="@ + s@
    ||| exists|s: &str, fd: FileDoc| #[trigger] call_ensures(gf, (s,), Ok::<Option<FileDoc>, String>(Some(fd)))
        && whole(depot_path_at(fd.path@, 0), fd.path@) is None
        && exists|e: PathError| e is SyntaxError && m@ == #[trigger] crate::path::basic::path_error_text(e)
}

/// What building the tree of branch `b` at changelist `cl` under wildcard
/// `w` gives, whatever the four store functions answer.
///
/// - A tree it gives is one the store's answers allow (`constructed_tree`),
///   and it gives one whenever the store answers everything (`store_reads`).
/// - Each error says what the store answered: no branch, no changelist, a
///   changelist of another branch, or the cause of a backend error; a
///   wildcard error means the wildcard is not a range.
/// - The checks come in order: the branch, then the changelist, its branch,
///   and the wildcard; when the store's answer at one step is certain, the
///   error of that step is the one given.
pub open spec fn tree_outcome<
    GB: Fn(&str) -> Result<Option<BranchDoc>, String>,
    GC: Fn(i64) -> Result<Option<ChangelistDoc>, String>,
    GF: Fn(&str) -> Result<Option<FileDoc>, String>,
    GR: Fn(&str) -> Result<Option<FileRevisionDoc>, String>,
>(gb: GB, gc: GC, gf: GF, gr: GR, b: &str, w: &str, cl: i64, r: FileTreeResult<FileTree>) -> bool {
    &&& !is_range_wildcard(w@) ==> r is Err
    &&& (r matches Ok(t) ==> tree_of_some_files(t@) && constructed_tree(gc, gf, gr, b@, w@, cl, t@))
    &&& store_reads(gb, gc, gf, gr, b, w@, cl) ==> r is Ok
    &&& (r matches Err(FileTreeError::BranchNotFound(x)) ==> x@ == b@
        && call_ensures(gb, (b,), Ok::<Option<BranchDoc>, String>(None)))
    &&& (r matches Err(FileTreeError::ChangelistNotFound(c)) ==> c == cl
        && call_ensures(gc, (cl,), Ok::<Option<ChangelistDoc>, String>(None)))
    &&& (r matches Err(FileTreeError::BranchMismatch { branch_id: x, changelist_id: c, actual_branch_id: a }) ==> x@ == b@
        && c == cl && a@ != b@ && exists|d: ChangelistDoc| d.branch_id == a
        && #[trigger] call_ensures(gc, (cl,), Ok::<Option<ChangelistDoc>, String>(Some(d))))
    &&& (r matches Err(FileTreeError::InvalidDepotPathWildcard(_)) ==> !is_range_wildcard(w@))
    &&& (r matches Err(FileTreeError::Backend(m)) ==> backend_cause(gb, gc, gf, gr, b, m))
    &&& branch_errs(gb, b) ==> (r matches Err(FileTreeError::Backend(m))
        && call_ensures(gb, (b,), Err::<Option<BranchDoc>, String>(m)))
    &&& branch_missing(gb, b) ==> (r matches Err(FileTreeError::BranchNotFound(_)))
    &&& branch_found(gb, b) && changelist_errs(gc, cl) ==> (r matches Err(FileTreeError::Backend(m))
        && call_ensures(gc, (cl,), Err::<Option<ChangelistDoc>, String>(m)))
    &&& branch_found(gb, b) && changelist_missing(gc, cl) ==> (r matches Err(FileTreeError::ChangelistNotFound(_)))
    &&& branch_found(gb, b) && changelist_elsewhere(gc, cl, b@) ==> (r matches Err(FileTreeError::BranchMismatch { .. }))
    &&& branch_found(gb, b) && changelist_on(gc, cl, b@) && !is_range_wildcard(w@) ==> (r matches Err(
        FileTreeError::InvalidDepotPathWildcard(_),
    ))
}

/// Builds the directory tree of the files of branch `branch_id` visible at
/// changelist `changelist_id`, under the range wildcard `depot_wildcard`.
///
/// The store is read through the four functions.  The changelist chain is
/// walked from the target towards the root (stopping at a missing
/// changelist, at one of another branch, at a non-positive parent, or after a
/// million steps); the first change met for a file decides its visibility.
/// What the functions return is not known here, so the contract states what
/// holds whatever they return; the steps are stated exactly by
/// `apply_changelist`, `range_wildcard_of`, `entry_for_file` and
/// `build_file_tree`.
pub fn construct_tree_from_changelist<GB, GC, GF, GR>(
    branch_id: &str,
    depot_wildcard: &str,
    changelist_id: i64,
    get_branch: GB,
    get_changelist: GC,
    get_file: GF,
    get_file_revision: GR,
) -> (r: FileTreeResult<FileTree>) where
    GB: Fn(&str) -> Result<Option<BranchDoc>, String>,
    GC: Fn(i64) -> Result<Option<ChangelistDoc>, String>,
    GF: Fn(&str) -> Result<Option<FileDoc>, String>,
    GR: Fn(&str) -> Result<Option<FileRevisionDoc>, String>,

    requires
        forall|s: &str| get_branch.requires((s,)),
        forall|id: i64| get_changelist.requires((id,)),
        forall|s: &str| get_file.requires((s,)),
        forall|s: &str| get_file_revision.requires((s,)),
    ensures
        tree_outcome(get_branch, get_changelist, get_file, get_file_revision, branch_id, depot_wildcard, changelist_id, r),
{
    let gbres = get_branch(branch_id);
    let ghost gb0 = gbres;
    match gbres {
        Err(e) => { return Err(FileTreeError::Backend(e)); },
        Ok(None) => { return Err(FileTreeError::BranchNotFound(String::from_str(branch_id))); },
        Ok(Some(_)) => {},
    }
    let gcres = get_changelist(changelist_id);
    let ghost gc0 = gcres;
    let target = match gcres {
        Err(e) => { return Err(FileTreeError::Backend(e)); },
        Ok(None) => { return Err(FileTreeError::ChangelistNotFound(changelist_id)); },
        Ok(Some(c)) => c,
    };
    let ghost target0 = target;
    let branch = String::from_str(branch_id);
    if !string_eq(&target.branch_id, &branch) {
        let r = Err(
            FileTreeError::BranchMismatch {
                branch_id: String::from_str(branch_id),
                changelist_id,
                actual_branch_id: target.branch_id,
            },
        );
        assert(call_ensures(get_changelist, (changelist_id,), Ok::<Option<ChangelistDoc>, String>(Some(target0))));
        return r;
    }
    let range = match range_wildcard_of(depot_wildcard) {
        Err(e) => { return Err(e); },
        Ok(w) => w,
    };
    let ghost b = branch_id@;
    let mut visible: Vec<(String, Option<String>)> = Vec::new();
    let mut current_id = changelist_id;
    let mut steps: u32 = 0;
    let ghost mut chain: Seq<ChangelistDoc> = Seq::empty();
    assert(visible_model(visible@) =~= chain_visible(chain));
    while current_id > 0
        invariant_except_break
            steps <= 1_000_000,
            chain.len() == steps,
            current_id == chain_id(changelist_id, chain, chain.len() as int),
        invariant
            forall|id: i64| get_changelist.requires((id,)),
            chain.len() <= 1_000_001,
            chain_answers(get_changelist, b, changelist_id, chain),
            visible_model(visible@) == chain_visible(chain),
            branch@ == b,
            b == branch_id@,
            call_ensures(get_branch, (branch_id,), gb0),
            gb0 matches Ok(Some(_)),
            call_ensures(get_changelist, (changelist_id,), Ok::<Option<ChangelistDoc>, String>(Some(target0))),
            target0.branch_id@ == b,
            whole(depot_wildcard_at(depot_wildcard@, 0), depot_wildcard@) == Some(DepotPathWildcardView::Range(range@)),
        ensures
            chain_ends(get_changelist, b, changelist_id, chain),
        decreases 1_000_001 - steps,
    {
        let res = get_changelist(current_id);
        let ghost rg = res;
        let cl = match res {
            Err(e) => {
                assert(current_id == chain_next(changelist_id, chain));
                assert(call_ensures(get_changelist, (chain_next(changelist_id, chain),), Err::<Option<ChangelistDoc>, String>(e)));
                return Err(FileTreeError::Backend(e));
            },
            Ok(None) => {
                assert(call_ensures(get_changelist, (chain_id(changelist_id, chain, chain.len() as int),), Ok(None)));
                break;
            },
            Ok(Some(c)) => c,
        };
        assert(rg == Ok::<Option<ChangelistDoc>, String>(Some(cl)));
        if !string_eq(&cl.branch_id, &branch) {
            assert(call_ensures(get_changelist, (chain_id(changelist_id, chain, chain.len() as int),), Ok(Some(cl))));
            break;
        }
        let ghost old_chain = chain;
        apply_changelist(&mut visible, &cl);
        proof {
            lemma_chain_push(get_changelist, b, changelist_id, old_chain, cl);
            chain = chain.push(cl);
        }
        if cl.parent_changelist_id <= 0 {
            break;
        }
        current_id = cl.parent_changelist_id;
        steps = steps + 1;
        if steps > 1_000_000 {
            break;
        }
    }
    let ghost vis = visible_model(visible@);
    let ghost rg = range@;
    assert(wildcard_range(depot_wildcard@) == rg);
    assert(store_reads(get_branch, get_changelist, get_file, get_file_revision, branch_id, depot_wildcard@, changelist_id)
        ==> revisions_read(get_file, get_file_revision, b, rg, vis));
    let ghost mut answers: Seq<FileAnswer> = Seq::empty();
    let mut entries: Vec<TreeEntry> = Vec::new();
    let mut k: usize = 0;
    assert(entry_models(entries@) =~= answered_entries(rg, answers));
    while k < visible.len()
        invariant
            k <= visible@.len(),
            vis == visible_model(visible@),
            rg == range@,
            branch@ == b,
            forall|s: &str| get_file.requires((s,)),
            forall|s: &str| get_file_revision.requires((s,)),
            answers.len() == k,
            forall|j: int| 0 <= j < k ==> answer_ok(get_file, get_file_revision, b, rg, vis[j], #[trigger] answers[j]),
            entry_models(entries@) == answered_entries(rg, answers),
            b == branch_id@,
            call_ensures(get_branch, (branch_id,), gb0),
            gb0 matches Ok(Some(_)),
            call_ensures(get_changelist, (changelist_id,), Ok::<Option<ChangelistDoc>, String>(Some(target0))),
            target0.branch_id@ == b,
            whole(depot_wildcard_at(depot_wildcard@, 0), depot_wildcard@) == Some(DepotPathWildcardView::Range(range@)),
            wildcard_range(depot_wildcard@) == rg,
            store_reads(get_branch, get_changelist, get_file, get_file_revision, branch_id, depot_wildcard@, changelist_id)
                ==> revisions_read(get_file, get_file_revision, b, rg, vis),
        decreases visible@.len() - k,
    {
        let ghost before = answers;
        let ghost entries_before = entry_models(entries@);
        let file_id = &visible[k].0;
        assert(vis[k as int].0 == file_id@);
        match &visible[k].1 {
            None => {
                proof {
                    answers = answers.push(None);
                    assert(answers.drop_last() =~= before);
                }
            },
            Some(revision_id) => {
                let rs = revision_id.as_str();
                let res = get_file_revision(rs);
                let ghost rres = res;
                let revision = match res {
                    Err(e) => { return Err(FileTreeError::Backend(e)); },
                    Ok(None) => { return Err(missing_error("找不到 revision，id=", revision_id)); },
                    Ok(Some(rv)) => rv,
                };
                assert(call_ensures(get_file_revision, (rs,), Ok(Some(revision))));
                if string_eq(&revision.branch_id, &branch) {
                    let fs = file_id.as_str();
                    let fres = get_file(fs);
                    let ghost fres_g = fres;
                    let file = match fres {
                        Err(e) => { return Err(FileTreeError::Backend(e)); },
                        Ok(None) => { return Err(missing_error("找不到文件，id=", file_id)); },
                        Ok(Some(f)) => f,
                    };
                    assert(call_ensures(get_file, (fs,), Ok(Some(file))));
                    match entry_for_file(&range, &revision, &file) {
                        Err(e) => { return Err(e); },
                        Ok(None) => {},
                        Ok(Some(e)) => { entries.push(e); },
                    }
                    proof {
                        answers = answers.push(Some((revision, Some(file))));
                        assert(answers.drop_last() =~= before);
                        assert(entry_of(rg, revision, file) is Some);
                        assert(answer_ok(get_file, get_file_revision, b, rg, vis[k as int], answers[k as int]));
                    }
                } else {
                    proof {
                        answers = answers.push(Some((revision, None)));
                        assert(answers.drop_last() =~= before);
                        assert(answer_ok(get_file, get_file_revision, b, rg, vis[k as int], answers[k as int]));
                    }
                }
            },
        }
        proof {
            assert forall|j: int| 0 <= j < k + 1 implies answer_ok(get_file, get_file_revision, b, rg, vis[j], #[trigger] answers[j]) by {
                if j < k {
                    assert(answers[j] == before[j]);
                }
            }
        }
        assert(entry_models(entries@) =~= answered_entries(rg, answers));
        k = k + 1;
    }
    let t = build_file_tree(&entries);
    proof {
        let es = entry_models(entries@);
        assert(level_ok(t@, es, Seq::<Seq<char>>::empty()));
        assert(tree_of_some_files(t@));
        assert(wildcard_range(depot_wildcard@) == rg);
        assert(answers_ok(get_file, get_file_revision, b, wildcard_range(depot_wildcard@), chain_visible(chain), answers));
        assert(chain_answers(get_changelist, b, changelist_id, chain));
        assert(constructed_tree(get_changelist, get_file, get_file_revision, b, depot_wildcard@, changelist_id, t@));
    }
    Ok(t)
}

} // verus!
