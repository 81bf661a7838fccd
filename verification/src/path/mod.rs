//! Depot, workspace and local paths: their types, their textual grammar and
//! the mapping engine between depot and local paths.
pub mod basic;
pub mod grammar;
pub mod pattern;
pub mod engine;
