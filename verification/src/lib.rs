//! Fetching of BMS difficulty tables, lookup indexes over them, and the rules that decide
//! which tables are kept and what their directories are called.
//!
//! The library holds the decisions; reading, writing and fetching is left to the program
//! around it, which hands in what it read and carries out what it is told.

/// Subcommand arguments and decisions.
pub mod cmd;
/// Configuration for list and table pipelines.
pub mod config;
/// The jobs of the fetch phase.
pub mod engine;
/// What is saved of a fetched table, and where.
pub mod fetch;
/// File name sanitisation, JSON sorting and change detection.
pub mod filesystem;
/// Chart items and inverted indexes.
pub mod index;
/// JSON values.
pub mod json;
/// What is logged.
pub mod logger;
/// Maps and sets in ascending key order.
pub mod ordered;
/// Directories that are not in the active set.
pub mod orphan;
/// The combined table list and the indexes.
pub mod output;
/// Active set computation.
pub mod overlay;
/// Expected directory names and renames.
pub mod rename;
/// Directory scanning.
pub mod scan;
/// A stable sort by text keys.
pub mod sorting;
/// Sync state with hashes and timestamps.
pub mod state;
/// The sync pipeline with directories named after the header address.
pub mod sync;
/// Table descriptions.
pub mod table;
/// Text helpers.
pub mod text;
/// The tokens of JSON text.
pub mod tokens;
