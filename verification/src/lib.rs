//! Library core of the `gong` command-line tool: the data model of Gong's
//! Call API, the canonical Call File renderer, the status file, and the sync
//! planner.
pub mod api;
pub mod callfile;
pub mod cli;
pub mod client;
pub mod commands;
pub mod config;
pub mod dates;
pub mod json;
pub mod order;
pub mod reorder;
pub mod rerun;
pub mod renderer;
pub mod status;
pub mod text;
pub mod transcripts;
pub mod window;
pub mod sync;
