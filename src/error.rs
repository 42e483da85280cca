use vstd::prelude::*;

verus! {

/// Every way an operation on the workspace can fail.
#[derive(Clone, Copy, Debug, PartialEq, Eq, Structural)]
pub enum EngineError {
    /// The hunk is claimed by another branch.
    OwnershipConflict,
    /// A commit was asked for with no hunks selected.
    NothingToCommit,
    /// The branch's base lags the upstream head: integrate first.
    DirtyBaseConflict,
    /// Moving the commit would carry it past commits that touch the same lines.
    DependencyConflict,
    /// The file has no changes in the source commit.
    PathNotFound,
    /// Replaying the stack would not merge cleanly at this commit.
    RewriteConflict { commit_id: u64 },
    /// A commit is being edited; only saving or aborting the edit is allowed.
    EditModeActive,
    /// The object store could not record the result.
    BackendFailure,
    /// The credential prompt was declined.
    Cancelled,
    /// No hunk of the ledger is the one given.
    HunkNotFound,
    /// No virtual branch has the id given.
    BranchNotFound,
    /// No commit of the branch has the id given.
    CommitNotFound,
    /// No snapshot has the id given.
    SnapshotNotFound,
    /// A stack position outside the stack.
    InvalidPosition,
    /// The branch holds commits that were never pushed.
    UnpushedCommits,
    /// No commit is being edited.
    NotInEditMode,
}

} // verus!
