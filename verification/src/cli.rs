//! The command surface, as plain data.
//!
//! Argument parsing itself is the caller's business (it belongs to the
//! process around the library); these types carry what was asked for.

use vstd::prelude::*;

verus! {

/// Which backend to search.
#[derive(Debug, Clone, PartialEq, Eq, Structural)]
pub enum LogSource {
    /// The managed poll-based query service.
    Cloudwatch,
    /// Containerized workloads reached over a remote shell.
    Kamal,
}

/// How results are presented.
#[derive(Debug, Clone, PartialEq, Eq, Structural)]
pub enum OutputMode {
    /// Results merged and sorted by timestamp.
    Interleaved,
    /// Results grouped by log group source.
    Grouped,
    /// Results displayed as they arrive, in request order.
    Streaming,
    /// Structured output for programmatic use.
    Json,
}

/// Configuration subcommands.
#[derive(Debug, Clone, PartialEq, Eq, Structural)]
pub enum ConfigAction {
    /// Show current configuration.
    Show,
    /// Show the configuration file path.
    Path,
    /// Generate a sample configuration file.
    Init,
    /// List available presets.
    Presets,
}

/// One invocation's subcommand.
#[derive(Debug, Clone)]
pub enum Commands {
    /// Search logs with filter patterns.
    Search {
        patterns: Vec<String>,
        groups: Vec<String>,
        deploy_file: Option<String>,
        preset: Option<String>,
        exclude: Vec<String>,
        last: String,
        start: Option<String>,
        end: Option<String>,
        output: OutputMode,
        limit: i32,
        follow: bool,
    },
    /// List available log groups.
    Groups { prefix: Option<String> },
    /// Launch the interactive interface.
    Tui,
    /// Manage configuration.
    Config { action: ConfigAction },
}

/// One invocation.
#[derive(Debug, Clone)]
pub struct Cli {
    pub command: Commands,
    pub profile: Option<String>,
    pub region: Option<String>,
    pub source: LogSource,
}

impl LogSource {
    /// The source searched when none is named.
    pub fn default_source() -> (r: LogSource)
        ensures
            r is Cloudwatch,
    {
        LogSource::Cloudwatch
    }
}

impl OutputMode {
    /// The mode used when none is named.
    pub fn default_mode() -> (r: OutputMode)
        ensures
            r is Interleaved,
    {
        OutputMode::Interleaved
    }
}

} // verus!
