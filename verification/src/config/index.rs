//! Sources of index files.

use vstd::prelude::*;

verus! {

/// An index source with a name and a download address.
pub struct Source {
    /// Display name for the source.
    pub name: String,
    /// Address to download the index from.
    pub url: String,
}

/// Configuration listing all index sources to fetch.
pub struct IndexConfig {
    /// List of sources to download.
    pub source: Vec<Source>,
}

} // verus!
