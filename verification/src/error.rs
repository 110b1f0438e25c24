//! Error values of the record store. Fatal errors are reported to the
//! caller as explicit values and are never downgraded to soft errors;
//! soft per-record faults are collected as warnings.

use vstd::prelude::*;

verus! {

/// A fatal record-store error: misconfiguration or an index/storage
/// divergence that must not be papered over.
#[derive(Debug)]
pub enum StoreError {
    /// A project record carries an empty `id`.
    EmptyProjectId,
    /// Two records with a different identity (`id` or main VCS URL) were
    /// asked to merge.
    IdentityMismatch,
    /// An update was requested for a project absent from the index.
    ProjectNotFound,
    /// An update was requested for a project that the index holds but whose
    /// record file is absent from storage.
    ProjectFileMissing,
    /// A stored project record failed to decode; a malformed project record
    /// is treated as corruption and stops loading.
    ProjectDecodeFailure { path: String, message: String },
}

/// A soft per-record fault: the record at `path` could not be decoded.
/// For module records this is logged and the record is skipped.
#[derive(Debug)]
pub struct DecodeFailure {
    pub path: String,
    pub message: String,
}

} // verus!
