//! A local-first synchronization engine for a multi-device encrypted
//! document vault.
//!
//! The vault's history is a content-addressed object store of snapshot
//! trees and commits, with named branch references, a symbolic HEAD and a
//! staging index. Each device accumulates local edits as commits and periodically
//! reconciles with a shared remote history: the sync orchestrator classifies
//! local-vs-remote divergence (ahead/behind/diverged) and drives the
//! appropriate reconciliation — no-op, push, fast-forward, or an interactive
//! rebase with structured per-file conflict resolution.

use vstd::prelude::*;

pub mod bytes;
pub mod config;
pub mod conflict;
pub mod crypto;
pub mod errors;
pub mod files;
pub mod keys;
pub mod paths;
pub mod repo;
pub mod store;
pub mod sync;
pub mod url;

verus! {

/// The length, in bytes, of a vault master encryption key.
pub const MASTER_KEY_LEN: usize = 32;

} // verus!
