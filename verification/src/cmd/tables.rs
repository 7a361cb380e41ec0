//! Fetch table headers and data.

use vstd::prelude::*;

use crate::config::table::TableConfig;
use crate::engine::{build_active_set, fetch_jobs, is_job_list, listed_layer, tables_of_files, FetchJob};
use crate::ordered::texts;
use crate::overlay::{optional_config, ListFile};
use crate::rename::dir_views;
use crate::scan::DirEntry;
use crate::text::text_of;

verus! {

/// Arguments of the tables subcommand.
pub struct Args {
    /// Path to the configuration file with the rules.
    pub config: String,
    /// Directory containing list JSON files.
    pub list_dir: String,
    /// Only process these list files, named without extension.
    pub list_names: Vec<String>,
    /// Output directory for table data.
    pub output_dir: String,
}

impl Default for Args {
    /// The arguments that hold where none are given.
    fn default() -> (r: Args)
        ensures
            r.config@ == "config/table.toml"@,
            r.list_dir@ == "lists"@,
            r.list_names@.len() == 0,
            r.output_dir@ == "tables"@,
    {
        Args {
            config: text_of("config/table.toml"),
            list_dir: text_of("lists"),
            list_names: Vec::new(),
            output_dir: text_of("tables"),
        }
    }
}

/// The tables to fetch: lists and rules decide which, the scan only tells their present
/// directories.
pub fn plan_tables(
    entries: &Vec<DirEntry>,
    list_files: &Vec<ListFile>,
    list_names: &Vec<String>,
    config: Option<&TableConfig>,
) -> (r: Vec<FetchJob>)
    ensures
        is_job_list(
            r@,
            listed_layer(
                dir_views(entries@),
                tables_of_files(list_files@, texts(list_names@)),
                optional_config(config),
            ),
        ),
{
    let active = build_active_set(entries, list_files, list_names, config);
    fetch_jobs(&active)
}

} // verus!
