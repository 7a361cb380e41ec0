//! The sync pipeline in one piece: directories are named after the address of the header,
//! and a stale directory gives way to the new one.

use vstd::prelude::*;

use crate::config::table::TableConfig;
use crate::engine::tables_of_files;
use crate::filesystem::sanitized;
use crate::json::JsonView;
use crate::ordered::{texts, Dup, SortedMap};
use crate::overlay::{active_layer, base_layer, dir_infos, dirs_by_url, filed, load_list_files, optional_config, unmatched_in, Layer, ListFile};
use crate::rename::{bracket_prefix, dir_name_with_domain, dir_views, dirs_after, domain_of, law_named_directory, named_dir, needed_rename, rename_needed, rename_views, renamed_dir_name, shown_domain, url_domain, DirInfo, DirView, RenameView};
use crate::scan::{found_tables, full_view, scan_dirs_full, Found, FullDirEntry};
use crate::table::{TableInfo, TableInfoView};
use crate::text::string_view;

pub use crate::orphan::{compute_orphans, OrphanAction};
pub use crate::overlay::{build_active_set, ActiveSet};
pub use crate::rename::RenameAction;

verus! {

/// A single table directory discovered during [`scan_tables`].
pub struct TableDirEntry {
    /// Actual directory name on disk.
    pub dir_name: String,
    /// Parsed `info.json` content.
    pub info: TableInfo,
    /// Raw `data.json` content, if it exists.
    pub data_raw: Option<String>,
}

impl DirInfo for TableDirEntry {
    open spec fn entry(&self) -> DirView {
        DirView { dir_name: self.dir_name@, info: self.info@ }
    }

    fn dir_name(&self) -> (r: &str) {
        self.dir_name.as_str()
    }

    fn info(&self) -> (r: &TableInfo) {
        &self.info
    }
}

/// Result of scanning every directory under a table directory.
pub struct TableScanResult {
    /// All discovered table entries.
    pub entries: Vec<TableDirEntry>,
}

/// The directory and the raw data of an entry.
pub open spec fn table_view(entry: TableDirEntry) -> (DirView, Option<Seq<char>>) {
    (entry.entry(), string_view(entry.data_raw))
}

/// The table directories among the places of a walk.
pub fn scan_tables(places: Vec<Found>) -> (r: TableScanResult)
    ensures
        r.entries@.map_values(|e: TableDirEntry| table_view(e)) == found_tables(places@),
{
    let ghost tables = found_tables(places@);
    let full: Vec<FullDirEntry> = scan_dirs_full(places);
    let mut entries: Vec<TableDirEntry> = Vec::new();
    let mut i: usize = 0;
    while i < full.len()
        invariant
            full@.map_values(|e: FullDirEntry| full_view(e)) == tables,
            i <= full@.len(),
            entries@.len() == i,
            forall|j: int| 0 <= j < i ==> table_view(#[trigger] entries@[j]) == full_view(full@[j]),
        decreases full.len() - i,
    {
        let data_raw: Option<String> = match &full[i].data_raw {
            Some(text) => Some(text.clone()),
            None => None,
        };
        entries.push(
            TableDirEntry {
                dir_name: full[i].dir_name.clone(),
                info: full[i].info.dup(),
                data_raw,
            },
        );
        i += 1;
    }
    proof {
        assert forall|j: int| 0 <= j < entries@.len() implies table_view(#[trigger] entries@[j])
            == tables[j] by {
            assert(tables[j] == full_view(full@[j]));
        }
        assert(entries@.map_values(|e: TableDirEntry| table_view(e)) =~= tables);
    }
    TableScanResult { entries }
}

/// The domain of the header address that a table description carries.
pub open spec fn header_domain(info: TableInfoView) -> Option<Seq<char>> {
    if info.extra.contains_key("url_header_json"@) {
        match info.extra["url_header_json"@] {
            JsonView::Text(url) => domain_of(url),
            _ => None,
        }
    } else {
        None
    }
}

/// The name a directory should have: after the domain of the header address, else the one
/// in brackets in its present name.
pub open spec fn header_dir_name(entry: DirView) -> Seq<char> {
    named_dir(shown_domain(header_domain(entry.info), Some(entry.dir_name)), entry.info.name)
}

/// The renames that a list of directories needs, in the order of the list.
pub open spec fn header_renames(entries: Seq<DirView>) -> Seq<RenameView>
    decreases entries.len(),
{
    if entries.len() == 0 {
        Seq::empty()
    } else {
        let before = header_renames(entries.drop_last());
        match needed_rename(entries.last().dir_name, header_dir_name(entries.last())) {
            Some(r) => before.push(r),
            None => before,
        }
    }
}

/// The domain of the header address that a table description carries.
fn find_header_domain(info: &TableInfo) -> (r: Option<String>)
    ensures
        string_view(r) == header_domain(info@),
{
    match info.extra.get("url_header_json") {
        Some(crate::json::Json::Text(url)) => url_domain(url.as_str()),
        _ => None,
    }
}

/// Determine which directories need renaming to match `[domain] name`.
///
/// The domain is that of the header address among the fields, else the one in brackets at
/// the start of the current directory name.
pub fn compute_renames(entries: &Vec<TableDirEntry>) -> (r: Vec<RenameAction>)
    ensures
        rename_views(r@) == header_renames(entries@.map_values(|e: TableDirEntry| e.entry())),
{
    let ghost all = entries@.map_values(|e: TableDirEntry| e.entry());
    let mut actions: Vec<RenameAction> = Vec::new();
    let mut i: usize = 0;
    proof {
        assert(rename_views(actions@) =~= Seq::<RenameView>::empty());
    }
    while i < entries.len()
        invariant
            all == entries@.map_values(|e: TableDirEntry| e.entry()),
            i <= entries@.len(),
            rename_views(actions@) == header_renames(all.take(i as int)),
        decreases entries.len() - i,
    {
        proof {
            assert(all.take(i + 1).drop_last() =~= all.take(i as int));
            assert(all.take(i + 1).last() == entries@[i as int].entry());
        }
        let entry: &TableDirEntry = &entries[i];
        let expected: String = dir_name_with_domain(
            find_header_domain(&entry.info),
            entry.info.name.as_str(),
            Some(entry.dir_name.as_str()),
        );
        let ghost before = actions@;
        match rename_needed(entry.dir_name.as_str(), expected) {
            Some(action) => {
                actions.push(action);
                proof {
                    assert(rename_views(actions@) =~= rename_views(before).push(action@));
                }
            },
            None => {},
        }
        i += 1;
    }
    proof {
        assert(all.take(i as int) =~= all);
    }
    actions
}

/// A directory that was renamed to the name it should have needs no further rename.
pub proof fn law_header_dir_name_settles(entry: DirView)
    ensures
        header_dir_name(DirView { dir_name: header_dir_name(entry), ..entry }) == header_dir_name(
            entry,
        ),
{
    crate::rename::law_dir_name_settles(
        header_domain(entry.info),
        Some(entry.dir_name),
        entry.info.name,
    );
}

/// Updates the directory names of scanned entries to the executed renames.
pub fn apply_renames(entries: Vec<TableDirEntry>, executed: &Vec<RenameAction>) -> (r: Vec<
    TableDirEntry,
>)
    ensures
        dir_views(r@) == dirs_after(dir_views(entries@), rename_views(executed@)),
        forall|i: int|
            0 <= i < r@.len() ==> string_view((#[trigger] r@[i]).data_raw) == string_view(
                entries@[i].data_raw,
            ),
{
    let mut out: Vec<TableDirEntry> = Vec::new();
    let mut i: usize = 0;
    while i < entries.len()
        invariant
            i <= entries@.len(),
            out@.len() == i,
            forall|j: int|
                0 <= j < i ==> (#[trigger] out@[j]).entry() == dirs_after(
                    dir_views(entries@),
                    rename_views(executed@),
                )[j] && string_view(out@[j].data_raw) == string_view(entries@[j].data_raw),
        decreases entries.len() - i,
    {
        let data_raw: Option<String> = match &entries[i].data_raw {
            Some(text) => Some(text.clone()),
            None => None,
        };
        let next = TableDirEntry {
            dir_name: renamed_dir_name(entries[i].dir_name.as_str(), executed),
            info: entries[i].info.dup(),
            data_raw,
        };
        proof {
            assert(dir_views(entries@)[i as int] == entries@[i as int].entry());
        }
        out.push(next);
        i += 1;
    }
    proof {
        assert(dir_views(out@) =~= dirs_after(dir_views(entries@), rename_views(executed@)));
    }
    out
}

/// The active set of the three layers: what the scan found on disk, the lists, the rules.
pub fn overlay_scan(
    entries: &Vec<TableDirEntry>,
    list_files: &Vec<ListFile>,
    list_names: &Vec<String>,
    config: Option<&TableConfig>,
) -> (r: ActiveSet)
    ensures
        (Layer { infos: r.table_info_map@, dirs: r.old_dir_map@ }) == active_layer(
            Layer {
                infos: filed(Map::empty(), dir_infos(dir_views(entries@))),
                dirs: dirs_by_url(dir_views(entries@)),
            },
            tables_of_files(list_files@, texts(list_names@)),
            optional_config(config),
        ),
        r.active_urls@ == r.table_info_map@.dom(),
{
    let (table_info_map, old_dir_map) = base_layer(entries);
    let list_map: SortedMap<TableInfo> = load_list_files(list_files, list_names);
    build_active_set(table_info_map, old_dir_map, &list_map, config)
}

/// The addresses to be replaced that no table on disk or in a list has.
pub fn unmatched_rules(
    entries: &Vec<TableDirEntry>,
    list_files: &Vec<ListFile>,
    list_names: &Vec<String>,
    config: Option<&TableConfig>,
) -> (r: Vec<String>)
    ensures
        texts(r@) == unmatched_in(
            filed(Map::empty(), dir_infos(dir_views(entries@))).union_prefer_right(
                tables_of_files(list_files@, texts(list_names@)),
            ),
            optional_config(config),
        ),
{
    let (table_info_map, _) = base_layer(entries);
    let list_map: SortedMap<TableInfo> = load_list_files(list_files, list_names);
    crate::overlay::unmatched_rules(table_info_map, &list_map, config)
}

/// What happens to the old directory of a table whose directory name changed.
#[derive(Clone, Copy, PartialEq, Eq, Structural)]
pub enum OldDirStep {
    /// Nothing: there is no old directory.
    Nothing,
    /// It is removed: the new directory is there already.
    Remove,
    /// It becomes the new directory.
    Rename,
}

/// What happens to the old directory of a table whose directory name changed.
pub fn old_dir_step(old_exists: bool, new_exists: bool) -> (r: OldDirStep)
    ensures
        r == if !old_exists {
            OldDirStep::Nothing
        } else if new_exists {
            OldDirStep::Remove
        } else {
            OldDirStep::Rename
        },
{
    if !old_exists {
        OldDirStep::Nothing
    } else if new_exists {
        OldDirStep::Remove
    } else {
        OldDirStep::Rename
    }
}

// ---------------------------------------------------------------------
// Laws
// ---------------------------------------------------------------------

/// The domain that names a directory is that of the string under `url_header_json`; there is
/// none where there is no string.
pub proof fn law_header_domain(info: TableInfoView, url: Seq<char>)
    ensures
        info.extra.contains_key("url_header_json"@) && info.extra["url_header_json"@]
            == JsonView::Text(url) ==> header_domain(info) == domain_of(url),
        !info.extra.contains_key("url_header_json"@) ==> header_domain(info) is None,
        info.extra.contains_key("url_header_json"@) && info.extra["url_header_json"@] !is Text
            ==> header_domain(info) is None,
{
}

/// A directory is named after the domain of the header in brackets, a blank and the name of
/// the table, sanitised. Without such a domain the one in brackets at the start of the present
/// name stands in its place, and without that `unknown.domain`.
pub proof fn law_header_dir_names(entry: DirView, d: Seq<char>)
    ensures
        header_domain(entry.info) == Some(d) ==> header_dir_name(entry) == sanitized(
            "["@ + d + "] "@ + entry.info.name,
        ),
        header_domain(entry.info) is None && bracket_prefix(entry.dir_name) == Some(d)
            ==> header_dir_name(entry) == sanitized("["@ + d + "] "@ + entry.info.name),
        header_domain(entry.info) is None && bracket_prefix(entry.dir_name) is None
            ==> header_dir_name(entry) == sanitized(
            "["@ + "unknown.domain"@ + "] "@ + entry.info.name,
        ),
{
    law_named_directory(d, entry.info.name);
    law_named_directory("unknown.domain"@, entry.info.name);
}

/// One more directory brings at most one more rename, behind those before it: from its name to
/// the one it should have, where these differ.
pub proof fn law_header_renames_of_one_more_directory(entries: Seq<DirView>, entry: DirView)
    ensures
        header_renames(Seq::empty()).len() == 0,
        header_dir_name(entry) == entry.dir_name ==> header_renames(entries.push(entry))
            == header_renames(entries),
        header_dir_name(entry) != entry.dir_name ==> header_renames(entries.push(entry))
            == header_renames(entries).push(
            RenameView { old_path: entry.dir_name, new_path: header_dir_name(entry) },
        ),
{
    assert(entries.push(entry).drop_last() =~= entries);
}

/// An entry is what its fields hold.
pub proof fn law_table_entry_by_field(entry: TableDirEntry)
    ensures
        entry.entry().dir_name == entry.dir_name@,
        entry.entry().info == entry.info@,
        table_view(entry).0.dir_name == entry.dir_name@,
        table_view(entry).0.info == entry.info@,
        entry.data_raw is None ==> table_view(entry).1 is None,
        entry.data_raw is Some ==> table_view(entry).1 == Some(entry.data_raw->Some_0@),
{
}

} // verus!
