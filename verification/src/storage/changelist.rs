//! What a changelist holds for storage: its files and description.
use vstd::prelude::*;

verus! {

/// A changelist as storage sees it.
pub struct ChangelistMetadata {
    /// The changelist's id.
    pub id: u32,
    /// The paths of all its files.
    pub file_paths: Vec<String>,
    /// Its description.
    pub desc: String,
}

impl ChangelistMetadata {
    /// The changelist made of the given parts.
    pub fn new(id: u32, file_paths: Vec<String>, desc: String) -> (r: Self)
        ensures
            r.id == id,
            r.file_paths@ == file_paths@,
            r.desc@ == desc@,
    {
        ChangelistMetadata { id, file_paths, desc }
    }
}

} // verus!
