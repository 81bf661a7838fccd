//! Core library of a centralized, Perforce-style version control system:
//! depot and workspace path grammar, workspace mapping validation, depot
//! trees, chunk storage formats and recovery-log replay.
use vstd::prelude::*;

pub mod text;
pub mod assoc;
pub mod paths;
pub mod path;
pub mod workspace;
pub mod metadata;
pub mod tree;
pub mod repository;
pub mod logger;
pub mod storage;

verus! {
} // verus!
