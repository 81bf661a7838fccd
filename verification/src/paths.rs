//! File-system paths, carried through the library as opaque values.
use vstd::prelude::*;

verus! {

/// `std::path::PathBuf`, held and handed on unchanged.
#[verifier::external_type_specification]
#[verifier::external_body]
pub struct ExPathBuf(std::path::PathBuf);

} // verus!
