//! Directory scanning: which directories hold a table, and what is read of them.

use vstd::prelude::*;

use crate::ordered::Dup;
use crate::rename::{name_after, rename_views, renamed_dir_name, DirInfo, DirView, RenameAction};
use crate::table::{info_of, parsed_info, TableInfo};
use crate::text::text_eq;

verus! {

/// A table directory of which only `info.json` was read.
pub struct DirEntry {
    /// Actual directory name on disk.
    pub dir_name: String,
    /// Parsed `info.json` content.
    pub info: TableInfo,
}

impl DirInfo for DirEntry {
    open spec fn entry(&self) -> DirView {
        DirView { dir_name: self.dir_name@, info: self.info@ }
    }

    fn dir_name(&self) -> (r: &str) {
        self.dir_name.as_str()
    }

    fn info(&self) -> (r: &TableInfo) {
        &self.info
    }
}

/// A table directory of which `info.json` and `data.json` were read.
pub struct FullDirEntry {
    /// Actual directory name on disk.
    pub dir_name: String,
    /// Parsed `info.json` content.
    pub info: TableInfo,
    /// Raw `data.json` content, if it exists.
    pub data_raw: Option<String>,
}

impl DirInfo for FullDirEntry {
    open spec fn entry(&self) -> DirView {
        DirView { dir_name: self.dir_name@, info: self.info@ }
    }

    fn dir_name(&self) -> (r: &str) {
        self.dir_name.as_str()
    }

    fn info(&self) -> (r: &TableInfo) {
        &self.info
    }
}

/// What a walk over the table directory finds at one place.
pub struct Found {
    /// Whether the place is known to be a directory.
    pub is_dir: bool,
    /// Its name, where that is text.
    pub name: Option<String>,
    /// The content of its `info.json`, where that could be read.
    pub info: Option<String>,
    /// The content of its `data.json`, where that could be read.
    pub data: Option<String>,
}

/// A place that the walk looks into: a directory with a name of text that is not the
/// place for orphans.
pub open spec fn looked_into(found: Found) -> bool {
    found.is_dir && found.name is Some && found.name->Some_0@ != "_orphaned"@
}

/// A place that holds a table: it is looked into, and its `info.json` is a table
/// description.
pub open spec fn holds_table(found: Found) -> bool {
    looked_into(found) && found.info is Some && parsed_info(found.info->Some_0@) is Some
}

/// The directory that a place with a table stands for.
pub open spec fn found_dir(found: Found) -> DirView {
    DirView { dir_name: found.name->Some_0@, info: info_of(parsed_info(found.info->Some_0@)->Some_0) }
}

/// The tables among the places, in the order of the walk, with the raw data of each.
pub open spec fn found_tables(places: Seq<Found>) -> Seq<(DirView, Option<Seq<char>>)>
    decreases places.len(),
{
    if places.len() == 0 {
        Seq::empty()
    } else {
        let before = found_tables(places.drop_last());
        let last = places.last();
        if holds_table(last) {
            before.push((found_dir(last), crate::text::string_view(last.data)))
        } else {
            before
        }
    }
}

/// The directory and the raw data of an entry.
pub open spec fn full_view(entry: FullDirEntry) -> (DirView, Option<Seq<char>>) {
    (entry.entry(), crate::text::string_view(entry.data_raw))
}

/// Whether a place is looked into at all: a directory with a name of text, other than
/// `_orphaned`.
pub fn looks_into(is_dir: bool, name: Option<&str>) -> (r: bool)
    ensures
        r == (is_dir && name is Some && name->Some_0@ != "_orphaned"@),
{
    match name {
        Some(n) => is_dir && !text_eq(n, "_orphaned"),
        None => false,
    }
}

/// The table at a place, given its directory name and what its `info.json` describes.
pub fn table_at(name: String, info: Option<TableInfo>, data_raw: Option<String>) -> (r: Option<
    FullDirEntry,
>)
    ensures
        match (r, info) {
            (Some(e), Some(i)) => e.dir_name == name && e.info == i && e.data_raw == data_raw,
            (None, None) => true,
            _ => false,
        },
{
    match info {
        Some(i) => Some(FullDirEntry { dir_name: name, info: i, data_raw }),
        None => None,
    }
}

/// The table directories among the places of a walk, `info.json` and `data.json` read.
pub fn scan_dirs_full(places: Vec<Found>) -> (r: Vec<FullDirEntry>)
    ensures
        r@.map_values(|e: FullDirEntry| full_view(e)) == found_tables(places@),
{
    let ghost view = |e: FullDirEntry| full_view(e);
    let mut entries: Vec<FullDirEntry> = Vec::new();
    let mut i: usize = 0;
    proof {
        assert(entries@.map_values(view) =~= Seq::<(DirView, Option<Seq<char>>)>::empty());
    }
    while i < places.len()
        invariant
            view == (|e: FullDirEntry| full_view(e)),
            i <= places@.len(),
            entries@.map_values(view) == found_tables(places@.take(i as int)),
        decreases places.len() - i,
    {
        proof {
            assert(places@.take(i + 1).drop_last() =~= places@.take(i as int));
        }
        let name: Option<&str> = match &places[i].name {
            Some(n) => Some(n.as_str()),
            None => None,
        };
        if looks_into(places[i].is_dir, name) {
            let info: Option<TableInfo> = match &places[i].info {
                Some(text) => TableInfo::parse(text.as_str()),
                None => None,
            };
            let data: Option<String> = match &places[i].data {
                Some(text) => Some(text.clone()),
                None => None,
            };
            let dir_name: String = match &places[i].name {
                Some(n) => n.clone(),
                None => String::new(),
            };
            let ghost before = entries@;
            match table_at(dir_name, info, data) {
                Some(entry) => {
                    entries.push(entry);
                    proof {
                        assert(entries@.map_values(view) =~= before.map_values(view).push(
                            full_view(entry),
                        ));
                    }
                },
                None => {},
            }
        }
        i += 1;
    }
    proof {
        assert(places@.take(i as int) =~= places@);
    }
    entries
}

/// The table directories among the places of a walk, only `info.json` read.
pub fn scan_dirs(places: Vec<Found>) -> (r: Vec<DirEntry>)
    ensures
        r@.map_values(|e: DirEntry| e.entry()) == found_tables(places@).map_values(
            |p: (DirView, Option<Seq<char>>)| p.0,
        ),
{
    let ghost tables = found_tables(places@);
    let full: Vec<FullDirEntry> = scan_dirs_full(places);
    let mut entries: Vec<DirEntry> = Vec::new();
    let mut i: usize = 0;
    while i < full.len()
        invariant
            full@.map_values(|e: FullDirEntry| full_view(e)) == tables,
            i <= full@.len(),
            entries@.len() == i,
            forall|j: int| 0 <= j < i ==> (#[trigger] entries@[j]).entry() == full@[j].entry(),
        decreases full.len() - i,
    {
        entries.push(DirEntry { dir_name: full[i].dir_name.clone(), info: full[i].info.dup() });
        i += 1;
    }
    proof {
        let p = |p: (DirView, Option<Seq<char>>)| p.0;
        assert forall|j: int| 0 <= j < entries@.len() implies (#[trigger] entries@[j]).entry()
            == tables[j].0 by {
            assert(tables[j] == full_view(full@[j]));
        }
        assert(entries@.map_values(|e: DirEntry| e.entry()) =~= tables.map_values(p));
    }
    entries
}

/// The directory of an entry after the executed renames.
pub open spec fn dir_after(
    entry: (DirView, Option<Seq<char>>),
    executed: Seq<crate::rename::RenameView>,
) -> (DirView, Option<Seq<char>>) {
    (DirView { dir_name: name_after(entry.0.dir_name, executed), ..entry.0 }, entry.1)
}

/// Updates the directory names of scanned entries to the executed renames.
pub fn apply_renames(entries: Vec<FullDirEntry>, executed: &Vec<RenameAction>) -> (r: Vec<
    FullDirEntry,
>)
    ensures
        r@.len() == entries@.len(),
        forall|i: int|
            0 <= i < r@.len() ==> full_view(#[trigger] r@[i]) == dir_after(
                full_view(entries@[i]),
                rename_views(executed@),
            ),
{
    let mut out: Vec<FullDirEntry> = Vec::new();
    let mut i: usize = 0;
    while i < entries.len()
        invariant
            i <= entries@.len(),
            out@.len() == i,
            forall|j: int|
                0 <= j < i ==> full_view(#[trigger] out@[j]) == dir_after(
                    full_view(entries@[j]),
                    rename_views(executed@),
                ),
        decreases entries.len() - i,
    {
        let data_raw: Option<String> = match &entries[i].data_raw {
            Some(text) => Some(text.clone()),
            None => None,
        };
        out.push(
            FullDirEntry {
                dir_name: renamed_dir_name(entries[i].dir_name.as_str(), executed),
                info: entries[i].info.dup(),
                data_raw,
            },
        );
        i += 1;
    }
    out
}

/// The place for orphans is never taken for a table, and what a walk finds are places that
/// hold one.
pub proof fn law_orphans_are_not_scanned(places: Seq<Found>, i: int)
    requires
        0 <= i < found_tables(places).len(),
    ensures
        found_tables(places)[i].0.dir_name != "_orphaned"@,
        exists|j: int|
            0 <= j < places.len() && holds_table(#[trigger] places[j]) && found_tables(places)[i].0
                == found_dir(places[j]),
    decreases places.len(),
{
    let init = places.drop_last();
    let before = found_tables(init);
    let all = found_tables(places);
    if i < before.len() {
        law_orphans_are_not_scanned(init, i);
        assert(all[i] == before[i]);
        let j = choose|j: int|
            0 <= j < init.len() && holds_table(#[trigger] init[j]) && before[i].0 == found_dir(
                init[j],
            );
        assert(places[j] == init[j]);
    } else {
        assert(holds_table(places[places.len() - 1]));
    }
}

/// One more place is one more table, behind those before it, exactly where it is a directory
/// with a name of text other than `_orphaned` whose `info.json` could be read and is a table
/// description. The table has the name of the directory, what the description says, and the
/// data that could be read.
pub proof fn law_one_more_place(places: Seq<Found>, place: Found)
    ensures
        found_tables(Seq::empty()).len() == 0,
        ({
            let before = found_tables(places);
            let after = found_tables(places.push(place));
            if place.is_dir && place.name is Some && place.name->Some_0@ != "_orphaned"@
                && place.info is Some && parsed_info(place.info->Some_0@) is Some {
                &&& after.len() == before.len() + 1
                &&& after.drop_last() == before
                &&& after.last().0.dir_name == place.name->Some_0@
                &&& after.last().0.info == info_of(parsed_info(place.info->Some_0@)->Some_0)
                &&& after.last().1 is Some <==> place.data is Some
                &&& place.data is Some ==> after.last().1 == Some(place.data->Some_0@)
            } else {
                after == before
            }
        }),
{
    assert(places.push(place).drop_last() =~= places);
    let before = found_tables(places);
    if holds_table(place) {
        assert(found_tables(places.push(place)).drop_last() =~= before);
    }
}

/// Entries are what their fields hold, and renames change nothing but their names.
pub proof fn law_entries_by_field(
    entry: DirEntry,
    full: FullDirEntry,
    executed: Seq<crate::rename::RenameView>,
)
    ensures
        entry.entry().dir_name == entry.dir_name@,
        entry.entry().info == entry.info@,
        full.entry().dir_name == full.dir_name@,
        full.entry().info == full.info@,
        full_view(full).0.dir_name == full.dir_name@,
        full_view(full).0.info == full.info@,
        full.data_raw is None ==> full_view(full).1 is None,
        full.data_raw is Some ==> full_view(full).1 == Some(full.data_raw->Some_0@),
        dir_after(full_view(full), executed).0.dir_name == name_after(full.dir_name@, executed),
        dir_after(full_view(full), executed).0.info == full.info@,
        dir_after(full_view(full), executed).1 == full_view(full).1,
{
}

} // verus!
