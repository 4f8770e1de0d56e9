//! The command line as plain values: the global settings and the four
//! subcommands with their arguments.
use vstd::prelude::*;
use crate::dates::CalendarDate;

verus! {

/// The parsed command line.
#[derive(Debug)]
pub struct Cli {
    /// Path to the TOML configuration file.
    pub config: Option<std::path::PathBuf>,
    /// Gong API access key.
    pub access_key: Option<String>,
    /// Gong API access key secret.
    pub access_key_secret: Option<String>,
    /// Gong API base URL for the organization.
    pub base_url: Option<String>,
    /// Directory containing canonical Call Files.
    pub output_dir: Option<std::path::PathBuf>,
    /// Diagnostic verbosity: how often `-v` was given.
    pub verbose: u8,
    pub command: Command,
}

/// The subcommand.
#[derive(Debug)]
pub enum Command {
    /// Validate configuration, credentials, API access, and the Output Directory.
    Check,
    /// List Customer Calls in a date range without writing Call Files.
    List(ListArgs),
    /// Fetch and render one Call by its exact Gong Call ID.
    Get(GetArgs),
    /// Incrementally sync Customer Calls into the Output Directory.
    Sync(SyncArgs),
}

/// Arguments of `get`.
#[derive(Debug)]
pub struct GetArgs {
    /// Exact Gong Call ID. IDs are handled as strings and never as numbers.
    pub call_id: String,
    /// Write the canonical Call File to this path instead of stdout.
    pub output: Option<std::path::PathBuf>,
    /// Emit the merged extensive Call and Transcript payload as JSON.
    pub json: bool,
}

/// Arguments of `sync`.
#[derive(Debug)]
pub struct SyncArgs {
    /// Override the first date to fetch.
    pub from: Option<CalendarDate>,
    /// Override the last whole date to fetch.
    pub to: Option<CalendarDate>,
    /// Fetch all available Call history instead of deriving a High-Water Mark.
    pub full: bool,
    /// Re-fetch and overwrite matched complete Call Files after confirmation.
    pub force: bool,
    /// Confirm a forced overwrite non-interactively.
    pub yes: bool,
    /// Preview decisions without fetching Transcripts or writing files.
    pub dry_run: bool,
    /// Suppress non-error detail on stderr; the stdout summary is retained.
    pub quiet: bool,
    /// Override the optional flat key=value sync status file.
    pub status_file: Option<std::path::PathBuf>,
}

/// Arguments of `list`.
#[derive(Debug)]
pub struct ListArgs {
    /// First calendar date to include.
    pub from: CalendarDate,
    /// Last calendar date to include; defaults to today.
    pub to: Option<CalendarDate>,
    /// Emit a JSON array for scripts instead of the human table.
    pub json: bool,
}

} // verus!
