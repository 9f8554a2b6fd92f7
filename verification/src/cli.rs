//! The command surface of the tool: plain data describing one invocation.
//! The argument-parsing shell around the library converts its parsed
//! arguments into these values.

use vstd::prelude::*;

verus! {

/// One invocation of the tool.
pub struct App {
    pub command: AppCommands,
    /// Enable verbose logging.
    pub verbose: bool,
}

/// The commands the tool accepts.
pub enum AppCommands {
    /// Configure a bundle for a specific instance id.
    Configure {
        instance_id: u16,
        workspace_path: Option<String>,
        db_name: Option<String>,
        clear_data: bool,
    },
    /// Display a summary of the current configuration.
    Summary,
    /// Check which instances are currently running.
    Status { instance_id: Option<u16> },
    /// Kill a running instance by its id.
    Kill { instance_id: u16 },
    /// Reset the environment to a clean state.
    Reset { workspace_path: Option<String>, all: bool, props: bool, ports: bool },
}

} // verus!
