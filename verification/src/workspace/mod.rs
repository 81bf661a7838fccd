//! Workspaces: their mapping specification and its validation.
pub mod entity;
pub mod conflict_detector;
pub mod conflict_law;
