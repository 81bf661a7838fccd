//! The chunk repository: compressed chunks appended to pack files, sorted
//! index files that locate them, and the naming of both on disk.
pub mod constants;
pub mod error;
pub mod io_utils;
pub mod chunk;
pub mod index;
pub mod layout;
pub mod bundle;
pub mod pack;
pub mod shard;
pub mod lock;
