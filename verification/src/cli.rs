//! The commands the program accepts.

use vstd::prelude::*;

verus! {

/// A parsed command line.
#[derive(Debug)]
pub struct Cli {
    pub command: Commands,
}

/// The top-level commands.
#[derive(Debug)]
pub enum Commands {
    /// Initialize a new memory repository.
    Init,
    /// Start an interactive chat session.
    Chat { branch: String, character: String },
    /// Knowledge graph operations.
    Kg { command: KgCommands },
    /// Recall information from conversation memory.
    Recall { query: String, branch: String },
    /// Branch operations.
    Branch { command: BranchCommands },
    /// Compress old conversation memory.
    Compress { branch: String },
    /// Show memory repository status.
    Status,
    /// Filesystem memory operations.
    Fs { command: FsCommands },
}

/// Filesystem memory operations.
#[derive(Debug)]
pub enum FsCommands {
    /// Read a memory path.
    Read { path: String },
    /// Write content to a memory path.
    Write { path: String, content: String },
    /// List a memory directory.
    List { path: String },
}

/// Knowledge graph operations.
#[derive(Debug)]
pub enum KgCommands {
    /// Get a value from the knowledge graph.
    Get { path: String },
    /// Set a value in the knowledge graph.
    SetValue { path: String, value: String },
    /// List knowledge graph paths.
    List,
}

/// Branch operations.
#[derive(Debug)]
pub enum BranchCommands {
    /// Create and switch to a new branch.
    Create { name: String },
    /// Switch to an existing branch.
    Switch { name: String },
    /// List branches.
    List,
    /// Show the current branch.
    Current,
}

} // verus!
