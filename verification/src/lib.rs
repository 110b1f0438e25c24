//! A local registry of software projects and their build modules: an
//! in-memory record store with per-record merge rules, content-addressed
//! module storage, and a sibling-detection pass that groups projects by
//! their root ancestry fingerprint.

pub mod db;
pub mod error;
pub mod module;
pub mod project;
pub mod siblings;
pub mod strset;
pub mod utils;
pub mod text;
