//! The resolved arguments of each subcommand, as the core consumes them.
//! Parsing the command line and prompting for missing values happen
//! outside; the core only sees the answers.

use vstd::prelude::*;

verus! {

/// Arguments of the checkout subcommand.
#[derive(Debug, Clone, PartialEq, Eq)]
pub struct CheckoutCmd {
    /// Name of the tracked branch to check out.
    pub branch_name: Option<String>,
}

/// Arguments of the config subcommand.
#[derive(Debug, Clone, PartialEq, Eq)]
pub struct ConfigCmd;

/// Arguments of the create subcommand.
#[derive(Debug, Clone, PartialEq, Eq)]
pub struct CreateCmd {
    /// Name of the new branch to create.
    pub branch_name: Option<String>,
    /// Stage all changes before creating the branch.
    pub all: bool,
    /// Stage only tracked files before creating the branch.
    pub update: bool,
    /// The commit message to use when staging.
    pub message: Option<String>,
}

/// Arguments of the delete subcommand.
#[derive(Debug, Clone, PartialEq, Eq)]
pub struct DeleteCmd {
    /// Name of the branch to delete.
    pub branch_name: Option<String>,
}

/// Arguments of the log subcommand.
#[derive(Debug, Clone, PartialEq, Eq)]
pub struct LogCmd;

/// Arguments of the restack subcommand.
#[derive(Debug, Clone, PartialEq, Eq)]
pub struct RestackCmd;

/// Arguments of the status subcommand.
#[derive(Debug, Clone, PartialEq, Eq)]
pub struct StatusCmd {
}

/// Arguments of the submit subcommand.
#[derive(Debug, Clone, PartialEq, Eq)]
pub struct SubmitCmd {
    /// Force the submission of the stack, analogous to a forced push.
    pub force: bool,
}

/// Arguments of the sync subcommand.
#[derive(Debug, Clone, PartialEq, Eq)]
pub struct SyncCmd;

/// Arguments of the track subcommand.
#[derive(Debug, Clone, PartialEq, Eq)]
pub struct TrackCmd;

/// Arguments of the untrack subcommand.
#[derive(Debug, Clone, PartialEq, Eq)]
pub struct UntrackCmd {
    /// Name of the branch to untrack.
    pub branch_name: Option<String>,
}

/// The subcommands of the application.
#[derive(Debug, Clone, PartialEq, Eq)]
pub enum Subcommands {
    /// Sync the remote branches with the local branches.
    Sync(SyncCmd),
    /// Submit the current stack to the review service.
    Submit(SubmitCmd),
    /// Check out a tracked branch.
    Checkout(CheckoutCmd),
    /// Create and track a new branch within the current stack.
    Create(CreateCmd),
    /// Delete a tracked branch.
    Delete(DeleteCmd),
    /// Restack the current stack.
    Restack(RestackCmd),
    /// Print a tree of all tracked stacks.
    Log(LogCmd),
    /// Show the status of the current stack on the review service.
    Status(StatusCmd),
    /// Track the current branch on top of a tracked stack node.
    Track(TrackCmd),
    /// Untrack a branch.
    Untrack(UntrackCmd),
    /// Configure the application.
    Config(ConfigCmd),
}

} // verus!
