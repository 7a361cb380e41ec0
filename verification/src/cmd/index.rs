//! Build inverted indexes from fetched table data.

use vstd::prelude::*;

use crate::ordered::{texts, NameSet};
use crate::output::{all_warnings, build_indexes, full_views, indexes_over, Indexes};
use crate::rename::{dir_views, DirInfo, DirView};
use crate::scan::FullDirEntry;
use crate::text::text_of;

verus! {

/// Arguments of the index subcommand.
pub struct Args {
    /// Directory containing fetched table data.
    pub table_dir: String,
    /// Output directory for index JSON files.
    pub output_dir: String,
}

impl Default for Args {
    /// The arguments that hold where none are given.
    fn default() -> (r: Args)
        ensures
            r.table_dir@ == "tables"@,
            r.output_dir@ == "indexes"@,
    {
        Args {
            table_dir: text_of("tables"),
            output_dir: text_of("indexes"),
        }
    }
}

/// The addresses of all scanned tables.
pub open spec fn scanned_urls(entries: Seq<DirView>) -> Set<Seq<char>>
    decreases entries.len(),
{
    if entries.len() == 0 {
        Set::empty()
    } else {
        scanned_urls(entries.drop_last()).insert(entries.last().info.url)
    }
}

/// Every scanned table is indexed.
pub proof fn law_every_scanned_table_is_indexed(entries: Seq<DirView>, i: int)
    requires
        0 <= i < entries.len(),
    ensures
        scanned_urls(entries).contains(entries[i].info.url),
    decreases entries.len(),
{
    if i < entries.len() - 1 {
        assert(entries.drop_last()[i] == entries[i]);
        law_every_scanned_table_is_indexed(entries.drop_last(), i);
    }
}

fn all_urls(entries: &Vec<FullDirEntry>) -> (r: NameSet)
    ensures
        r@ == scanned_urls(dir_views(entries@)),
{
    let ghost all = dir_views(entries@);
    let mut urls = NameSet::new();
    let mut i: usize = 0;
    while i < entries.len()
        invariant
            all == dir_views(entries@),
            i <= entries@.len(),
            urls@ == scanned_urls(all.take(i as int)),
        decreases entries.len() - i,
    {
        proof {
            assert(all.take(i + 1).drop_last() =~= all.take(i as int));
            assert(all.take(i + 1).last() == entries@[i as int].entry());
        }
        urls.insert(entries[i].info.url.clone());
        i += 1;
    }
    proof {
        assert(all.take(i as int) =~= all);
    }
    urls
}

/// The inverted indexes over all tables found on disk, active or not, with the warnings
/// about their hashes.
pub fn plan_index(entries: &Vec<FullDirEntry>) -> (r: (Indexes, Vec<String>))
    ensures
        r.0@ == indexes_over(full_views(entries@), scanned_urls(dir_views(entries@))),
        texts(r.1@) == all_warnings(full_views(entries@), scanned_urls(dir_views(entries@))),
{
    let urls = all_urls(entries);
    build_indexes(entries, &urls)
}

/// The addresses that are indexed are those of the scanned tables and no others.
pub proof fn law_scanned_addresses(entries: Seq<DirView>, url: Seq<char>)
    ensures
        scanned_urls(entries).contains(url) <==> exists|i: int|
            0 <= i < entries.len() && (#[trigger] entries[i]).info.url == url,
    decreases entries.len(),
{
    if entries.len() > 0 {
        let init = entries.drop_last();
        law_scanned_addresses(init, url);
        if exists|i: int| 0 <= i < entries.len() && (#[trigger] entries[i]).info.url == url {
            let i = choose|i: int| 0 <= i < entries.len() && (#[trigger] entries[i]).info.url == url;
            if i < init.len() {
                assert(init[i].info.url == url);
            }
        }
        if exists|i: int| 0 <= i < init.len() && (#[trigger] init[i]).info.url == url {
            let i = choose|i: int| 0 <= i < init.len() && (#[trigger] init[i]).info.url == url;
            assert(entries[i].info.url == url);
        }
        assert(entries[entries.len() - 1] == entries.last());
    }
}

} // verus!
