//! The command model: what an invocation of the tool asks for, as plain data.
//! The argument parser of the binary builds these values; the library only
//! decides what each command means.

use vstd::prelude::*;

verus! {

/// One invocation of the tool.
pub struct Cli {
    pub command: Commands,
}

/// The commands of the tool.
pub enum Commands {
    /// Create a repository for the given server, optionally under a sub-path.
    Init { server: String, path: Option<String> },
    /// Reconcile the tree with the remote catalog; with `flagdump`, also
    /// submit the flags found in sentinel files.
    Sync { flagdump: bool },
    /// Store a credential for the remote.
    Authenticate {},
    /// Submit one flag for one challenge.
    Submit { challenge: String, flag: String },
    /// Manage the running challenge instance.
    Instance { command: InstanceCommands },
}

/// The instance subcommands.
pub enum InstanceCommands {
    /// Start an instance of the named challenge; with `force`, stop a
    /// different running instance first.
    Start { challenge: String, force: bool },
    /// Stop the running instance.
    Stop {},
    /// Show the running instance and its exposed services.
    Info {},
    /// Run an exploit script against an instance of the current challenge.
    Exploit { script: String, cmd: String, start: bool, stop: bool, force: bool },
}

impl Cli {
    /// Whether this invocation may write to the local tree. Only `init` and
    /// `sync` create, move or populate directories; every other command
    /// leaves the tree alone.
    pub fn mutates_tree(&self) -> (r: bool)
        ensures
            r == (self.command matches Commands::Init { .. }
                || self.command matches Commands::Sync { .. }),
    {
        match &self.command {
            Commands::Init { .. } => true,
            Commands::Sync { .. } => true,
            _ => false,
        }
    }
}

} // verus!
