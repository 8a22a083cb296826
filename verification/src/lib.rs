//! Preparing support case material for AI-assisted workflows: sensitive values are
//! replaced by typed symbols and the result is rendered as a versioned projection.
use vstd::prelude::*;

pub mod detect;
pub mod ingest;
pub mod project;
pub mod rehydrate;
pub mod symbolize;
pub mod text;
pub mod vault;
pub mod workflow;

verus! {

/// Version marker written at the head of every projection artifact.
pub const FORMAT_VERSION: &'static str = "cpx-v1";

/// Processing completed safely and produced the requested output.
pub const EXIT_CODE_SUCCESS: i32 = 0;

/// Unexpected internal failure.
pub const EXIT_CODE_GENERAL_ERROR: i32 = 1;

/// A raw sensitive value could not be handled safely; no outbound output is emitted.
pub const EXIT_CODE_SAFETY_FAILURE: i32 = 2;

/// Vault data is missing, unreadable, mismatched or inaccessible.
pub const EXIT_CODE_VAULT_ERROR: i32 = 3;

/// Input is missing, unreadable, empty or unsupported.
pub const EXIT_CODE_INPUT_ERROR: i32 = 4;

/// The artifact format is incompatible with the requested operation.
pub const EXIT_CODE_FORMAT_MISMATCH: i32 = 5;

} // verus!
