//! The phases of the default pipeline: which tables are active, which are fetched, and
//! what is left to do once they are fetched.

use vstd::prelude::*;

use crate::config::table::{ConfigView, TableConfig};
use crate::ordered::{texts, Dup, NameSet, SortedMap};
use crate::orphan::{compute_orphans, law_inactive_dirs_are_orphaned, orphan_paths, orphaned_dirs, OrphanAction};
use crate::output::{active_infos, all_warnings, build_indexes, combined_list, full_views, indexes_over, sorted_by_url, Indexes};
use crate::overlay::{active_layer, base_layer, configured, dirs_by_url, file_tables, filed, filed_lists, load_list_files, optional_config, unmatched_in, ActiveSet, Layer, ListFile};
use crate::rename::{compute_renames, dir_views, needed_renames, rename_views, DirInfo, DirView, RenameAction};
use crate::scan::FullDirEntry;
use crate::table::{infos_of, TableInfo, TableInfoView};
use crate::text::{strictly_ascending, string_view, text_lt};

verus! {

// ---------------------------------------------------------------------
// Overlay
// ---------------------------------------------------------------------

/// The tables and directories of the active set: lists and rules alone decide which tables
/// are active, what is on disk only tells which directory a table has.
pub open spec fn listed_layer(
    entries: Seq<DirView>,
    lists: Map<Seq<char>, TableInfoView>,
    config: Option<ConfigView>,
) -> Layer {
    active_layer(Layer { infos: Map::empty(), dirs: dirs_by_url(entries) }, lists, config)
}

/// The tables of a list directory.
pub open spec fn tables_of_files(files: Seq<ListFile>, list_names: Seq<Seq<char>>) -> Map<
    Seq<char>,
    TableInfoView,
> {
    filed_lists(files.map_values(|f: ListFile| file_tables(f, list_names)))
}

/// Compute the active table set from lists and rules, with the directories found on disk.
pub fn build_active_set<E: DirInfo>(
    entries: &Vec<E>,
    list_files: &Vec<ListFile>,
    list_names: &Vec<String>,
    config: Option<&TableConfig>,
) -> (r: ActiveSet)
    ensures
        (Layer { infos: r.table_info_map@, dirs: r.old_dir_map@ }) == listed_layer(
            dir_views(entries@),
            tables_of_files(list_files@, texts(list_names@)),
            optional_config(config),
        ),
        r.active_urls@ == r.table_info_map@.dom(),
{
    let (_, old_dir_map) = base_layer(entries);
    let list_map: SortedMap<TableInfo> = load_list_files(list_files, list_names);
    crate::overlay::build_active_set(SortedMap::new(), old_dir_map, &list_map, config)
}

/// The addresses to be replaced that no listed table has.
pub fn unmatched_rules(
    list_files: &Vec<ListFile>,
    list_names: &Vec<String>,
    config: Option<&TableConfig>,
) -> (r: Vec<String>)
    ensures
        texts(r@) == unmatched_in(
            tables_of_files(list_files@, texts(list_names@)),
            optional_config(config),
        ),
{
    let list_map: SortedMap<TableInfo> = load_list_files(list_files, list_names);
    proof {
        assert(Map::<Seq<char>, TableInfoView>::empty().union_prefer_right(list_map@)
            =~= list_map@);
    }
    crate::overlay::unmatched_rules(SortedMap::new(), &list_map, config)
}

/// The renames to make before tables are fetched: directories get the names that the
/// active set asks for.
pub fn plan_renames<E: DirInfo>(entries: &Vec<E>, active: &ActiveSet) -> (r: Vec<RenameAction>)
    ensures
        rename_views(r@) == needed_renames(
            dir_views(entries@),
            Some(active.table_info_map@),
        ),
{
    compute_renames(entries, Some(&active.table_info_map))
}

/// Without rules, a table on disk that no list names is an orphan.
pub proof fn law_unlisted_table_is_orphaned(
    entries: Seq<DirView>,
    lists: Map<Seq<char>, TableInfoView>,
    i: int,
)
    requires
        0 <= i < entries.len(),
        !lists.contains_key(entries[i].info.url),
    ensures
        orphaned_dirs(entries, listed_layer(entries, lists, None).infos.dom()).contains(
            entries[i].dir_name,
        ),
{
    law_inactive_dirs_are_orphaned(
        entries,
        listed_layer(entries, lists, None).infos.dom(),
        i,
    );
}

/// Without rules, where every table on disk is named by a list, nothing is an orphan.
pub proof fn law_listed_tables_stay(
    entries: Seq<DirView>,
    all: Seq<DirView>,
    lists: Map<Seq<char>, TableInfoView>,
)
    requires
        forall|i: int|
            0 <= i < entries.len() ==> lists.contains_key((#[trigger] entries[i]).info.url),
    ensures
        orphaned_dirs(entries, listed_layer(all, lists, None).infos.dom()) == Seq::<
            Seq<char>,
        >::empty(),
    decreases entries.len(),
{
    if entries.len() > 0 {
        let init = entries.drop_last();
        assert forall|i: int| 0 <= i < init.len() implies lists.contains_key(
            (#[trigger] init[i]).info.url,
        ) by {
            assert(init[i] == entries[i]);
        }
        law_listed_tables_stay(init, all, lists);
        assert(lists.contains_key(entries[entries.len() - 1].info.url));
    }
}

// ---------------------------------------------------------------------
// Fetch
// ---------------------------------------------------------------------

/// One table to fetch.
pub struct FetchJob {
    /// What is known of the table.
    pub info: TableInfo,
    /// Its directory in the previous run.
    pub old_dir: Option<String>,
}

/// The directory of an address, where it has one.
pub open spec fn dir_of(dirs: Map<Seq<char>, Seq<char>>, url: Seq<char>) -> Option<Seq<char>> {
    if dirs.contains_key(url) {
        Some(dirs[url])
    } else {
        None
    }
}

/// `jobs` has one job for each table of the layer, in the order of `keys`: the table's
/// description and the directory its address had.
pub open spec fn is_job_for_each(jobs: Seq<FetchJob>, layer: Layer, keys: Seq<Seq<char>>) -> bool {
    &&& jobs.len() == keys.len()
    &&& strictly_ascending(keys)
    &&& forall|k: Seq<char>| #[trigger] layer.infos.contains_key(k) <==> keys.contains(k)
    &&& forall|i: int|
        0 <= i < jobs.len() ==> (#[trigger] jobs[i]).info@ == layer.infos[keys[i]] && string_view(
            jobs[i].old_dir,
        ) == dir_of(layer.dirs, keys[i])
}

/// `jobs` has one job for each table of the layer, in ascending order of addresses.
pub open spec fn is_job_list(jobs: Seq<FetchJob>, layer: Layer) -> bool {
    exists|keys: Seq<Seq<char>>| #[trigger] is_job_for_each(jobs, layer, keys)
}

/// One job for each active table, in ascending order of addresses, with the directory the
/// table had in the previous run.
pub fn fetch_jobs(active: &ActiveSet) -> (r: Vec<FetchJob>)
    ensures
        is_job_list(
            r@,
            Layer { infos: active.table_info_map@, dirs: active.old_dir_map@ },
        ),
{
    let ghost layer = Layer { infos: active.table_info_map@, dirs: active.old_dir_map@ };
    let ghost keys = active.table_info_map.keys();
    let n: usize = active.table_info_map.len();
    let mut jobs: Vec<FetchJob> = Vec::new();
    let mut i: usize = 0;
    while i < n
        invariant
            layer == (Layer { infos: active.table_info_map@, dirs: active.old_dir_map@ }),
            keys == active.table_info_map.keys(),
            n == keys.len(),
            i <= n,
            jobs@.len() == i,
            forall|j: int|
                0 <= j < i ==> (#[trigger] jobs@[j]).info@ == layer.infos[keys[j]] && string_view(
                    jobs@[j].old_dir,
                ) == dir_of(layer.dirs, keys[j]),
        decreases n - i,
    {
        let url: &String = active.table_info_map.key_at(i);
        let old_dir: Option<String> = match active.old_dir_map.get(url.as_str()) {
            Some(dir) => Some(dir.clone()),
            None => None,
        };
        jobs.push(FetchJob { info: active.table_info_map.value_at(i).dup(), old_dir });
        i += 1;
    }
    proof {
        assert(is_job_for_each(jobs@, layer, keys));
    }
    jobs
}

// ---------------------------------------------------------------------
// After the fetch
// ---------------------------------------------------------------------

/// What is left to do once tables are fetched and directories renamed.
pub struct PostProcess {
    /// Directories to move to `_orphaned/`.
    pub orphans: Vec<OrphanAction>,
    /// The combined table list.
    pub combined: Vec<TableInfo>,
    /// The inverted indexes.
    pub indexes: Indexes,
    /// Warnings about hashes in the data.
    pub warnings: Vec<String>,
}

/// What is left to do once tables are fetched and directories renamed, from a full scan
/// and the active addresses.
pub fn post_process(entries: &Vec<FullDirEntry>, active_urls: &NameSet) -> (r: PostProcess)
    ensures
        orphan_paths(r.orphans@) == orphaned_dirs(dir_views(entries@), active_urls@),
        infos_of(r.combined@) == sorted_by_url(active_infos(dir_views(entries@), active_urls@)),
        r.indexes@ == indexes_over(full_views(entries@), active_urls@),
        texts(r.warnings@) == all_warnings(full_views(entries@), active_urls@),
{
    let orphans = compute_orphans(entries, active_urls);
    let combined = combined_list(entries, active_urls);
    let (indexes, warnings) = build_indexes(entries, active_urls);
    proof {
        assert(entries@.map_values(|e: FullDirEntry| e.entry()) =~= dir_views(entries@));
    }
    PostProcess { orphans, combined, indexes, warnings }
}

// ---------------------------------------------------------------------
// Laws
// ---------------------------------------------------------------------

/// The active tables are those of the lists, and the directories those found on disk, changed
/// by the configuration where there is one.
pub proof fn law_lists_decide(
    entries: Seq<DirView>,
    lists: Map<Seq<char>, TableInfoView>,
    config: ConfigView,
)
    ensures
        listed_layer(entries, lists, None).infos == lists,
        listed_layer(entries, lists, None).dirs == dirs_by_url(entries),
        listed_layer(entries, lists, Some(config)) == configured(
            Layer { infos: lists, dirs: dirs_by_url(entries) },
            config,
        ),
{
    assert(Map::<Seq<char>, TableInfoView>::empty().union_prefer_right(lists) =~= lists);
}

/// The tables of one more list file are filed over those of the files before it; a file that
/// gives no list changes nothing.
pub proof fn law_one_more_list_file(
    files: Seq<ListFile>,
    file: ListFile,
    list_names: Seq<Seq<char>>,
)
    ensures
        tables_of_files(Seq::empty(), list_names) == Map::<Seq<char>, TableInfoView>::empty(),
        file_tables(file, list_names) is None ==> tables_of_files(files.push(file), list_names)
            == tables_of_files(files, list_names),
        file_tables(file, list_names) is Some ==> tables_of_files(files.push(file), list_names)
            == filed(tables_of_files(files, list_names), file_tables(file, list_names)->Some_0),
{
    let f = |f: ListFile| file_tables(f, list_names);
    assert(files.push(file).map_values(f) =~= files.map_values(f).push(
        file_tables(file, list_names),
    ));
    assert(files.push(file).map_values(f).drop_last() =~= files.map_values(f));
    assert(Seq::<ListFile>::empty().map_values(f) =~= Seq::empty());
}

/// There is one job for each active table, in ascending order of addresses, with what is known
/// of the table, and with the directory of its address where it has one.
pub proof fn law_one_job_for_each_table(jobs: Seq<FetchJob>, layer: Layer) -> (keys: Seq<
    Seq<char>,
>)
    requires
        is_job_list(jobs, layer),
    ensures
        keys.len() == jobs.len(),
        forall|i: int, j: int|
            0 <= i < j < keys.len() ==> text_lt(#[trigger] keys[i], #[trigger] keys[j]),
        forall|k: Seq<char>| #[trigger] layer.infos.contains_key(k) <==> keys.contains(k),
        forall|i: int|
            0 <= i < jobs.len() ==> {
                &&& (#[trigger] jobs[i]).info@ == layer.infos[keys[i]]
                &&& jobs[i].old_dir is Some <==> layer.dirs.contains_key(keys[i])
                &&& jobs[i].old_dir is Some ==> jobs[i].old_dir->Some_0@ == layer.dirs[keys[i]]
            },
{
    let keys = choose|keys: Seq<Seq<char>>| #[trigger] is_job_for_each(jobs, layer, keys);
    assert(is_job_for_each(jobs, layer, keys));
    assert forall|i: int, j: int| 0 <= i < j < keys.len() implies text_lt(
        #[trigger] keys[i],
        #[trigger] keys[j],
    ) by {
        assert(strictly_ascending(keys));
    }
    keys
}

} // verus!
