//! Subcommands: their arguments, and what they decide.

/// Move orphaned table directories to `_orphaned/`.
pub mod cleanup;
/// Build inverted indexes from fetched table data.
pub mod index;
/// Fetch table lists.
pub mod list;
/// Fix directory names.
pub mod reconcile;
/// Fetch tables.
pub mod tables;
/// Generate a combined table list.
pub mod tables_list;
