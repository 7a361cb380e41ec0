//! Fix directory names that do not match the table in the directory.

use vstd::prelude::*;

use crate::text::text_of;

verus! {

/// Arguments of the reconcile subcommand.
pub struct Args {
    /// Directory containing fetched table data.
    pub table_dir: String,
}

impl Default for Args {
    /// The arguments that hold where none are given.
    fn default() -> (r: Args)
        ensures
            r.table_dir@ == "tables"@,
    {
        Args {
            table_dir: text_of("tables"),
        }
    }
}

} // verus!
