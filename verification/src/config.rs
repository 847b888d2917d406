//! What the user configures of the shell.
use crate::set::WorkspaceAmount;
use vstd::prelude::*;

verus! {

/// Whether every output has workspaces of its own or all share the same.
#[derive(Debug, Clone, Copy, PartialEq, Eq, Structural)]
pub enum WorkspaceMode {
    OutputBound,
    Global,
}

/// The part of the configuration that does not change while the shell runs.
#[derive(Debug, Clone, Copy, PartialEq, Eq, Structural)]
pub struct StaticConfig {
    pub workspace_mode: WorkspaceMode,
    pub workspace_amount: WorkspaceAmount,
    /// Whether new windows float unless told otherwise.
    pub floating_default: bool,
}

/// The configuration.
#[derive(Debug, Clone, Copy, PartialEq, Eq, Structural)]
pub struct Config {
    pub static_conf: StaticConfig,
}

} // verus!
