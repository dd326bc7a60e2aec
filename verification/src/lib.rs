//! A library for managing stacks of dependent version-control branches:
//! chains of local branches where each branch's changes build on its
//! parent's. The core keeps such a chain internally consistent and decides
//! how to synchronize it with a remote code-review service; the surrounding
//! binary performs the actual repository and network operations.

pub mod cli;
pub mod config;
pub mod ctx;
pub mod errors;
pub mod remote;
pub mod repo;
pub mod subcommands;
pub mod tree;
