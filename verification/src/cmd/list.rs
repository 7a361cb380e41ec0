//! Fetch table lists from configured sources.

use vstd::prelude::*;

use crate::text::text_of;

verus! {

/// Arguments of the list subcommand.
pub struct Args {
    /// Path to the configuration file.
    pub config: String,
    /// Output directory for list JSON files.
    pub output_dir: String,
}

impl Default for Args {
    /// The arguments that hold where none are given.
    fn default() -> (r: Args)
        ensures
            r.config@ == "config/list.toml"@,
            r.output_dir@ == "lists"@,
    {
        Args {
            config: text_of("config/list.toml"),
            output_dir: text_of("lists"),
        }
    }
}

} // verus!
