//! Documents of the metadata store: users, branches, changelists, files and
//! file revisions, as plain values.
use vstd::prelude::*;
use crate::text::texts;

pub mod file_revision;
pub mod file;
pub mod changelist;

verus! {

/// A user of the `users` collection.
#[derive(Debug, Clone)]
pub struct UserDoc {
    pub id: String,
    /// Plain or hashed password.
    pub password: String,
}

/// The `metadata` field of a branch.
#[derive(Debug, Clone)]
pub struct BranchMetadata {
    pub description: String,
}

/// A branch of the `branches` collection.
#[derive(Debug, Clone)]
pub struct BranchDoc {
    /// Internal branch id.
    pub id: String,
    /// Creation time, milliseconds since the epoch.
    pub created_at: i64,
    pub created_by: String,
    /// The changelist the branch head points at.
    pub head_changelist_id: i64,
    pub metadata: BranchMetadata,
}

/// The `metadata` field of a changelist.
#[derive(Debug, Clone)]
pub struct ChangelistMetadata {
    pub labels: Vec<String>,
}

/// What a change does to a file.
#[derive(Debug, Clone, Copy, PartialEq, Eq)]
pub enum ChangelistAction {
    Create,
    Modify,
    Delete,
}

/// One change of a changelist.
#[derive(Debug, Clone)]
pub struct ChangelistChange {
    /// The id of the file changed.
    pub file: String,
    pub action: ChangelistAction,
    /// The file revision the change produced.
    pub revision: String,
}

/// Abstract change.
pub struct ChangeView {
    pub file: Seq<char>,
    pub action: ChangelistAction,
    pub revision: Seq<char>,
}

impl View for ChangelistChange {
    type V = ChangeView;

    open spec fn view(&self) -> ChangeView {
        ChangeView { file: self.file@, action: self.action, revision: self.revision@ }
    }
}

/// The views of a sequence of changes.
pub open spec fn change_views(s: Seq<ChangelistChange>) -> Seq<ChangeView> {
    s.map_values(|c: ChangelistChange| c@)
}

/// A changelist of the `changelists` collection.
#[derive(Debug, Clone)]
pub struct ChangelistDoc {
    pub id: i64,
    pub parent_changelist_id: i64,
    pub branch_id: String,
    pub author: String,
    pub description: String,
    /// The changes, in order.
    pub changes: Vec<ChangelistChange>,
    /// Commit time, milliseconds since the epoch.
    pub committed_at: i64,
    pub files_count: i64,
    pub metadata: ChangelistMetadata,
}

/// The `metadata` field of a file.
#[derive(Debug, Clone)]
pub struct FileMetadata {
    /// The user who first brought the file in.
    pub first_introduced_by: String,
}

/// A file of the `files` collection.
#[derive(Debug, Clone)]
pub struct FileDoc {
    /// File id.
    pub id: String,
    /// Normalized depot path, such as `//src/module/a.cpp`.
    pub path: String,
    /// The branches the file exists on.
    pub seen_on_branches: Vec<String>,
    /// Creation time, milliseconds since the epoch.
    pub created_at: i64,
    pub metadata: FileMetadata,
}

/// The `metadata` field of a file revision.
#[derive(Debug, Clone)]
pub struct FileRevisionMetadata {
    /// Permission bits, such as `"755"`.
    pub file_mode: String,
    /// Content hash.
    pub hash: String,
    pub is_binary: bool,
    /// Language, such as `"cpp"`.
    pub language: String,
}

/// A revision of the `fileRevision` collection.
#[derive(Debug, Clone)]
pub struct FileRevisionDoc {
    pub id: String,
    pub branch_id: String,
    pub file_id: String,
    pub changelist_id: i64,
    /// The blobs of the content in the binary store.
    pub binary_id: Vec<String>,
    pub parent_revision_id: String,
    /// Size in bytes.
    pub size: i64,
    pub is_delete: bool,
    /// Creation time, milliseconds since the epoch.
    pub created_at: i64,
    pub metadata: FileRevisionMetadata,
}

/// The binary ids of a revision, as texts.
pub open spec fn binary_ids(r: FileRevisionDoc) -> Seq<Seq<char>> {
    texts(r.binary_id@)
}

} // verus!
