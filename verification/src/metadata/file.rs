//! A depot file with its lock holder and its revisions; two files are the
//! same file when their depot paths are.
use vstd::prelude::*;
use super::file_revision::MetaFileRevision;

verus! {

broadcast use vstd::string::group_string_axioms;

/// A depot file.
#[derive(Debug, Clone)]
pub struct MetaFile {
    /// Its depot path, which identifies it.
    pub depot_path: String,
    /// Who holds its lock.
    pub locked_by: String,
    /// Its revisions.
    pub revisions: Vec<MetaFileRevision>,
}

impl PartialEq for MetaFile {
    fn eq(&self, other: &Self) -> (r: bool) {
        self.depot_path == other.depot_path
    }
}

impl vstd::std_specs::cmp::PartialEqSpecImpl for MetaFile {
    open spec fn obeys_eq_spec() -> bool {
        true
    }

    open spec fn eq_spec(&self, other: &Self) -> bool {
        self.depot_path@ == other.depot_path@
    }
}

impl Eq for MetaFile {
}

} // verus!
