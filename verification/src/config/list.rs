//! Sources of table lists.

use vstd::prelude::*;

verus! {

/// A table source with a human-readable name and download address.
pub struct Source {
    /// Display name for the source.
    pub name: String,
    /// Address to download the list from.
    pub url: String,
}

/// Configuration listing all table sources to fetch.
pub struct ListConfig {
    /// List of sources to download.
    pub source: Vec<Source>,
}

} // verus!
