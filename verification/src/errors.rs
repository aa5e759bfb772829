//! The engine's error taxonomy. Divergence conflicts are not errors; they
//! are a first-class result (see the sync orchestrator), so these variants
//! cover only operational, transport and misuse failures.

use vstd::prelude::*;

verus! {

#[derive(Debug, Clone, Copy, PartialEq, Eq, Structural)]
pub enum SyncError {
    /// An index lock survived every bounded removal attempt: something
    /// else is using the repository.
    LockHeld,
    /// The operation needs a remote and none is configured.
    RemoteMissing,
    /// The remote refused the credentials carried in the transport URL.
    AuthRejected,
    /// The remote rejected a push that would lose history (not a
    /// fast-forward); the caller should reconcile instead of retrying.
    PushRejected,
    /// A fast-forward would overwrite uncommitted changes in the working
    /// tree.
    DirtyWorktree,
    /// HEAD does not resolve to a branch, where a branch is required.
    DetachedHead,
    /// The operation needs a commit and the history is still empty.
    NoCommits,
    /// The named branch does not exist.
    BranchMissing,
    /// No rebase session is open, so there is nothing to resolve or
    /// continue.
    NoRebase,
    /// The paused rebase step still has unresolved conflicts.
    UnresolvedConflict,
    /// A resolution names a path that is not in conflict.
    UnknownConflictPath,
}

} // verus!
