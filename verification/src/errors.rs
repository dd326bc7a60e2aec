//! Errors surfaced by the stack management core.

use crate::config::StConfigError;
use vstd::prelude::*;

verus! {

/// Errors surfaced by the stack management core.
#[derive(Debug, Clone, PartialEq, Eq)]
pub enum StError {
    /// The named branch is not tracked in the stack tree.
    BranchNotTracked(String),
    /// The named branch is already tracked in the stack tree.
    BranchAlreadyTracked(String),
    /// The trunk branch cannot be deleted.
    CannotDeleteTrunkBranch,
    /// The named branch must be restacked before the operation can continue.
    NeedsRestack(String),
    /// The working tree has uncommitted changes.
    WorkingTreeDirty,
    /// The parent tip cache is missing for a non-trunk branch.
    MissingParentOidCache,
    /// A value could not be decoded.
    DecodingError(String),
    /// A remote pull request could not be found.
    PullRequestNotFound,
    /// The command was not run inside a repository.
    NotAGitRepository,
    /// The repository root could not be found.
    GitRepositoryRootNotFound,
    /// The named remote is not configured.
    RemoteNotFound(String),
    /// The branch was not found in the local repository.
    BranchUnavailable,
    /// A configuration error occurred.
    StConfigError(StConfigError),
}

/// A short-hand result type for operations that may fail with an [`StError`].
pub type StResult<T> = Result<T, StError>;

} // verus!
