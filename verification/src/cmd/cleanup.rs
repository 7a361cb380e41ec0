//! Move orphaned table directories to `_orphaned/`.

use vstd::prelude::*;

use crate::config::table::TableConfig;
use crate::engine::{build_active_set, listed_layer, tables_of_files};
use crate::ordered::texts;
use crate::orphan::{compute_orphans, orphan_paths, orphaned_dirs, OrphanAction};
use crate::overlay::{optional_config, ListFile};
use crate::rename::dir_views;
use crate::scan::DirEntry;
use crate::text::text_of;

verus! {

/// Arguments of the cleanup subcommand.
pub struct Args {
    /// Path to the configuration file with the rules.
    pub config: String,
    /// Directory containing list JSON files.
    pub list_dir: String,
    /// Only consider these list files, named without extension.
    pub list_names: Vec<String>,
    /// Directory containing fetched table data.
    pub table_dir: String,
}

impl Default for Args {
    /// The arguments that hold where none are given.
    fn default() -> (r: Args)
        ensures
            r.config@ == "config/table.toml"@,
            r.list_dir@ == "lists"@,
            r.list_names@.len() == 0,
            r.table_dir@ == "tables"@,
    {
        Args {
            config: text_of("config/table.toml"),
            list_dir: text_of("lists"),
            list_names: Vec::new(),
            table_dir: text_of("tables"),
        }
    }
}

/// The directories to move to `_orphaned/`: those whose table is not active according to
/// the lists and rules.
pub fn plan_cleanup(
    entries: &Vec<DirEntry>,
    list_files: &Vec<ListFile>,
    list_names: &Vec<String>,
    config: Option<&TableConfig>,
) -> (r: Vec<OrphanAction>)
    ensures
        orphan_paths(r@) == orphaned_dirs(
            dir_views(entries@),
            listed_layer(
                dir_views(entries@),
                tables_of_files(list_files@, texts(list_names@)),
                optional_config(config),
            ).infos.dom(),
        ),
{
    let active = build_active_set(entries, list_files, list_names, config);
    compute_orphans(entries, &active.active_urls)
}

} // verus!
