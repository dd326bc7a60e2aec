//! The resolved command line of one invocation.

use crate::subcommands::Subcommands;
use vstd::prelude::*;

verus! {

/// The resolved command line: the verbosity level and the chosen
/// subcommand with its arguments.
#[derive(Debug, Clone, PartialEq, Eq)]
pub struct Cli {
    /// Verbosity level.
    pub v: u8,
    /// The subcommand to run.
    pub subcommand: Subcommands,
}

} // verus!
