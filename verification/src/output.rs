//! Output generation: the combined table list and the inverted indexes.

use vstd::prelude::*;

use crate::index::{extract_chart_items, hash_key, law_hash_key, law_text_key, long_hash_warning, maybe_entered, maybe_insert, maybe_insert_hash, text_items, text_key, IndexView};
use crate::json::{json_text_field, Json, JsonView};
use crate::ordered::{texts, Dup, NameSet, SortedMap};
use crate::rename::{DirInfo, DirView};
use crate::scan::{full_view, FullDirEntry};
use crate::sorting::{keyed, law_sort_rearranges, law_stable_sorted, lemma_map_multiset, lemma_member, lemma_rearrangement_is_complete, lemma_sorted_unique, stable_sort, stable_sorted, unkeyed, views};
use crate::table::{infos_of, TableInfo, TableInfoView};
use crate::text::{text_le, text_lt, text_of};

verus! {

// ---------------------------------------------------------------------
// Combined list
// ---------------------------------------------------------------------

/// A table description with the name of its directory among its fields.
pub open spec fn with_dir_name(entry: DirView) -> TableInfoView {
    TableInfoView {
        extra: entry.info.extra.insert("dir_name"@, JsonView::Text(entry.dir_name)),
        ..entry.info
    }
}

/// The descriptions of the active tables among the entries, in order.
pub open spec fn active_infos(entries: Seq<DirView>, active: Set<Seq<char>>) -> Seq<TableInfoView>
    decreases entries.len(),
{
    if entries.len() == 0 {
        Seq::empty()
    } else {
        let before = active_infos(entries.drop_last(), active);
        if active.contains(entries.last().info.url) {
            before.push(with_dir_name(entries.last()))
        } else {
            before
        }
    }
}

/// The addresses of a list of descriptions.
pub open spec fn info_urls(infos: Seq<TableInfoView>) -> Seq<Seq<char>> {
    infos.map_values(|t: TableInfoView| t.url)
}

/// A list of descriptions in ascending order of their addresses, those with the same
/// address in the order in which they came.
pub open spec fn sorted_by_url(infos: Seq<TableInfoView>) -> Seq<TableInfoView> {
    unkeyed(stable_sorted(keyed(info_urls(infos), infos)))
}

/// The combined list: all active tables, each with its directory name, sorted by address.
pub fn combined_list(entries: &Vec<FullDirEntry>, active_urls: &NameSet) -> (r: Vec<TableInfo>)
    ensures
        infos_of(r@) == sorted_by_url(
            active_infos(entries@.map_values(|e: FullDirEntry| e.entry()), active_urls@),
        ),
{
    let ghost all = entries@.map_values(|e: FullDirEntry| e.entry());
    let mut infos: Vec<TableInfo> = Vec::new();
    let mut urls: Vec<String> = Vec::new();
    let mut i: usize = 0;
    proof {
        assert(infos_of(infos@) =~= Seq::<TableInfoView>::empty());
    }
    while i < entries.len()
        invariant
            all == entries@.map_values(|e: FullDirEntry| e.entry()),
            i <= entries@.len(),
            infos_of(infos@) == active_infos(all.take(i as int), active_urls@),
            texts(urls@) =~= info_urls(infos_of(infos@)),
        decreases entries.len() - i,
    {
        proof {
            assert(all.take(i + 1).drop_last() =~= all.take(i as int));
            assert(all.take(i + 1).last() == entries@[i as int].entry());
        }
        let entry: &FullDirEntry = &entries[i];
        if active_urls.contains(entry.info.url.as_str()) {
            let ghost before = infos@;
            let ghost urls_before = urls@;
            let mut extra: SortedMap<Json> = entry.info.extra.dup();
            extra.insert(text_of("dir_name"), Json::Text(entry.dir_name.clone()));
            let info = TableInfo {
                name: entry.info.name.clone(),
                symbol: entry.info.symbol.clone(),
                url: entry.info.url.clone(),
                extra,
            };
            let url: String = entry.info.url.clone();
            urls.push(url);
            infos.push(info);
            proof {
                assert(infos_of(infos@) =~= infos_of(before).push(info@));
                assert(texts(urls@) =~= texts(urls_before).push(url@));
                assert(info@ =~= with_dir_name(entry.entry()));
            }
        }
        i += 1;
    }
    proof {
        assert(all.take(i as int) =~= all);
        assert(views(infos@) =~= infos_of(infos@));
        assert(texts(urls@) == info_urls(infos_of(infos@)));
    }
    let sorted: Vec<TableInfo> = stable_sort(infos, urls);
    proof {
        assert(views(sorted@) =~= infos_of(sorted@));
    }
    sorted
}

/// Sorting by address keeps every description and puts the addresses in ascending order.
pub proof fn law_combined_list_is_sorted(infos: Seq<TableInfoView>)
    ensures
        sorted_by_url(infos).to_multiset() == infos.to_multiset(),
        forall|i: int, j: int|
            0 <= i < j < sorted_by_url(infos).len() ==> text_le(
                (#[trigger] sorted_by_url(infos)[i]).url,
                (#[trigger] sorted_by_url(infos)[j]).url,
            ),
{
    let pairs = keyed(info_urls(infos), infos);
    let sorted = stable_sorted(pairs);
    let f = |p: (Seq<char>, TableInfoView)| p.1;
    law_stable_sorted(pairs);
    lemma_map_multiset(sorted, pairs, f);
    assert(pairs.map_values(f) =~= infos);
    assert(sorted.map_values(f) =~= sorted_by_url(infos));
    assert forall|i: int| 0 <= i < sorted.len() implies (#[trigger] sorted[i]).0
        == sorted_by_url(infos)[i].url by {
        let k = lemma_member(sorted, pairs, i);
        assert(pairs[k] == (infos[k].url, infos[k]));
    }
    assert forall|i: int, j: int| 0 <= i < j < sorted_by_url(infos).len() implies text_le(
        (#[trigger] sorted_by_url(infos)[i]).url,
        (#[trigger] sorted_by_url(infos)[j]).url,
    ) by {
        assert(text_le(sorted[i].0, sorted[j].0));
    }
}

/// The combined list does not depend on the order in which the directories were walked,
/// where no two of them hold tables with the same address.
pub proof fn law_combined_list_is_deterministic(a: Seq<TableInfoView>, b: Seq<TableInfoView>)
    requires
        a.to_multiset() == b.to_multiset(),
        forall|i: int, j: int|
            0 <= i < j < a.len() ==> (#[trigger] a[i]).url != (#[trigger] a[j]).url,
    ensures
        sorted_by_url(a) == sorted_by_url(b),
{
    let f = |t: TableInfoView| (t.url, t);
    let pa = keyed(info_urls(a), a);
    let pb = keyed(info_urls(b), b);
    assert(pa =~= a.map_values(f));
    assert(pb =~= b.map_values(f));
    lemma_map_multiset(a, b, f);
    law_stable_sorted(pa);
    law_stable_sorted(pb);
    let sa = stable_sorted(pa);
    let sb = stable_sorted(pb);
    assert forall|i: int, j: int|
        0 <= i < sa.len() && 0 <= j < sa.len() && (#[trigger] sa[i]).0 == (#[trigger] sa[j]).0 implies sa[i]
        == sa[j] by {
        let k = lemma_member(sa, pa, i);
        let l = lemma_member(sa, pa, j);
        assert(pa[k] == (a[k].url, a[k]) && pa[l] == (a[l].url, a[l]));
        if k < l {
            assert(a[k].url != a[l].url);
        } else if l < k {
            assert(a[l].url != a[k].url);
        }
    }
    lemma_sorted_unique(sa, sb);
}

/// Every active table is in the combined list with the name of its directory.
pub proof fn law_active_table_is_listed(entries: Seq<DirView>, active: Set<Seq<char>>, i: int)
    requires
        0 <= i < entries.len(),
        active.contains(entries[i].info.url),
    ensures
        active_infos(entries, active).contains(with_dir_name(entries[i])),
    decreases entries.len(),
{
    let init = entries.drop_last();
    let before = active_infos(init, active);
    let all = active_infos(entries, active);
    if i < init.len() {
        assert(init[i] == entries[i]);
        law_active_table_is_listed(init, active, i);
        let k = choose|k: int| 0 <= k < before.len() && before[k] == with_dir_name(entries[i]);
        assert(all[k] == before[k]);
    } else {
        assert(all[all.len() - 1] == with_dir_name(entries[i]));
    }
}

// ---------------------------------------------------------------------
// Indexes
// ---------------------------------------------------------------------

/// The four inverted indexes.
pub struct Indexes {
    /// By title.
    pub title: SortedMap<NameSet>,
    /// By artist.
    pub artist: SortedMap<NameSet>,
    /// By MD5 hash.
    pub md5: SortedMap<NameSet>,
    /// By SHA-256 hash.
    pub sha256: SortedMap<NameSet>,
}

/// The mathematical indexes.
#[verifier::ext_equal]
pub struct IndexesView {
    pub title: IndexView,
    pub artist: IndexView,
    pub md5: IndexView,
    pub sha256: IndexView,
}

impl View for Indexes {
    type V = IndexesView;

    open spec fn view(&self) -> IndexesView {
        IndexesView {
            title: self.title@,
            artist: self.artist@,
            md5: self.md5@,
            sha256: self.sha256@,
        }
    }
}

/// An index with `name` entered for each item, under what `pick` takes from it.
pub open spec fn items_entered(
    index: IndexView,
    items: Seq<JsonView>,
    pick: spec_fn(JsonView) -> Option<Seq<char>>,
    name: Seq<char>,
) -> IndexView
    decreases items.len(),
{
    if items.len() == 0 {
        index
    } else {
        maybe_entered(
            items_entered(index, items.drop_last(), pick, name),
            pick(items.last()),
            name,
        )
    }
}

/// The chart items of an entry that are indexed: those of an active table whose data could
/// be read and is in a known form.
pub open spec fn indexed_items(
    entry: (DirView, Option<Seq<char>>),
    active: Set<Seq<char>>,
) -> Seq<JsonView> {
    if active.contains(entry.0.info.url) && entry.1 is Some && text_items(entry.1->Some_0) is Some {
        text_items(entry.1->Some_0)->Some_0
    } else {
        Seq::empty()
    }
}

/// The index over all entries, by what `pick` takes from an item.
pub open spec fn index_over(
    entries: Seq<(DirView, Option<Seq<char>>)>,
    active: Set<Seq<char>>,
    pick: spec_fn(JsonView) -> Option<Seq<char>>,
) -> IndexView
    decreases entries.len(),
{
    if entries.len() == 0 {
        Map::empty()
    } else {
        items_entered(
            index_over(entries.drop_last(), active, pick),
            indexed_items(entries.last(), active),
            pick,
            entries.last().0.dir_name,
        )
    }
}

/// What the title index goes by.
pub open spec fn pick_title() -> spec_fn(JsonView) -> Option<Seq<char>> {
    |item: JsonView| text_key(item, "title"@)
}

/// What the artist index goes by.
pub open spec fn pick_artist() -> spec_fn(JsonView) -> Option<Seq<char>> {
    |item: JsonView| text_key(item, "artist"@)
}

/// What the MD5 index goes by.
pub open spec fn pick_md5() -> spec_fn(JsonView) -> Option<Seq<char>> {
    |item: JsonView| hash_key(item, "md5"@, 32)
}

/// What the SHA-256 index goes by.
pub open spec fn pick_sha256() -> spec_fn(JsonView) -> Option<Seq<char>> {
    |item: JsonView| hash_key(item, "sha256"@, 64)
}

/// The four indexes with the items of one table entered.
pub open spec fn indexes_entered(
    indexes: IndexesView,
    items: Seq<JsonView>,
    name: Seq<char>,
) -> IndexesView {
    IndexesView {
        title: items_entered(indexes.title, items, pick_title(), name),
        artist: items_entered(indexes.artist, items, pick_artist(), name),
        md5: items_entered(indexes.md5, items, pick_md5(), name),
        sha256: items_entered(indexes.sha256, items, pick_sha256(), name),
    }
}

/// The four indexes over all entries.
pub open spec fn indexes_over(
    entries: Seq<(DirView, Option<Seq<char>>)>,
    active: Set<Seq<char>>,
) -> IndexesView {
    IndexesView {
        title: index_over(entries, active, pick_title()),
        artist: index_over(entries, active, pick_artist()),
        md5: index_over(entries, active, pick_md5()),
        sha256: index_over(entries, active, pick_sha256()),
    }
}

/// The warnings about hashes that are longer than they should be, MD5 before SHA-256 for
/// each item.
pub open spec fn item_warnings(items: Seq<JsonView>, name: Seq<char>) -> Seq<Seq<char>>
    decreases items.len(),
{
    if items.len() == 0 {
        Seq::empty()
    } else {
        with_warning(
            with_warning(
                item_warnings(items.drop_last(), name),
                long_hash_warning(items.last(), "md5"@, 32, name),
            ),
            long_hash_warning(items.last(), "sha256"@, 64, name),
        )
    }
}

/// A list of warnings with one more, where there is one.
pub open spec fn with_warning(warnings: Seq<Seq<char>>, warning: Option<Seq<char>>) -> Seq<
    Seq<char>,
> {
    match warning {
        Some(w) => warnings.push(w),
        None => warnings,
    }
}

fn add_warning(warnings: &mut Vec<String>, warning: Option<String>)
    ensures
        texts(final(warnings)@) == with_warning(
            texts(old(warnings)@),
            crate::text::string_view(warning),
        ),
{
    let ghost before = warnings@;
    match warning {
        Some(w) => {
            warnings.push(w);
            proof {
                assert(texts(warnings@) =~= texts(before).push(w@));
            }
        },
        None => {},
    }
}

impl Indexes {
    /// Empty indexes.
    pub fn new() -> (r: Indexes)
        ensures
            r@ == (IndexesView {
                title: Map::empty(),
                artist: Map::empty(),
                md5: Map::empty(),
                sha256: Map::empty(),
            }),
    {
        Indexes {
            title: SortedMap::new(),
            artist: SortedMap::new(),
            md5: SortedMap::new(),
            sha256: SortedMap::new(),
        }
    }
}

/// The indexes with the items of one table entered, and the warnings about its hashes.
pub fn index_items(indexes: Indexes, items: &Vec<Json>, dir_name: &str) -> (r: (
    Indexes,
    Vec<String>,
))
    ensures
        r.0@ == indexes_entered(indexes@, views(items@), dir_name@),
        texts(r.1@) == item_warnings(views(items@), dir_name@),
{
    let ghost start = indexes@;
    let ghost all = views(items@);
    let Indexes { mut title, mut artist, mut md5, mut sha256 } = indexes;
    let mut warnings: Vec<String> = Vec::new();
    let mut i: usize = 0;
    proof {
        assert(all.take(0) =~= Seq::<JsonView>::empty());
        assert(texts(warnings@) =~= Seq::<Seq<char>>::empty());
    }
    while i < items.len()
        invariant
            all == views(items@),
            i <= items@.len(),
            title@ == items_entered(start.title, all.take(i as int), pick_title(), dir_name@),
            artist@ == items_entered(start.artist, all.take(i as int), pick_artist(), dir_name@),
            md5@ == items_entered(start.md5, all.take(i as int), pick_md5(), dir_name@),
            sha256@ == items_entered(start.sha256, all.take(i as int), pick_sha256(), dir_name@),
            texts(warnings@) == item_warnings(all.take(i as int), dir_name@),
        decreases items.len() - i,
    {
        proof {
            assert(all.take(i + 1).drop_last() =~= all.take(i as int));
            assert(all.take(i + 1).last() == items@[i as int]@);
        }
        let item: &Json = &items[i];
        maybe_insert(&mut title, item, "title", dir_name);
        maybe_insert(&mut artist, item, "artist", dir_name);
        let md5_warning = maybe_insert_hash(&mut md5, item, "md5", 32, dir_name);
        let sha256_warning = maybe_insert_hash(&mut sha256, item, "sha256", 64, dir_name);
        add_warning(&mut warnings, md5_warning);
        add_warning(&mut warnings, sha256_warning);
        i += 1;
    }
    proof {
        assert(all.take(i as int) =~= all);
    }
    (Indexes { title, artist, md5, sha256 }, warnings)
}

/// The entries of a scan, each with its raw data.
pub open spec fn full_views(entries: Seq<FullDirEntry>) -> Seq<(DirView, Option<Seq<char>>)> {
    entries.map_values(|e: FullDirEntry| full_view(e))
}

/// The warnings about the hashes of all entries.
pub open spec fn all_warnings(
    entries: Seq<(DirView, Option<Seq<char>>)>,
    active: Set<Seq<char>>,
) -> Seq<Seq<char>>
    decreases entries.len(),
{
    if entries.len() == 0 {
        Seq::empty()
    } else {
        all_warnings(entries.drop_last(), active) + item_warnings(
            indexed_items(entries.last(), active),
            entries.last().0.dir_name,
        )
    }
}

fn append_all(warnings: &mut Vec<String>, more: Vec<String>)
    ensures
        texts(final(warnings)@) == texts(old(warnings)@) + texts(more@),
{
    let ghost before = warnings@;
    let mut i: usize = 0;
    proof {
        assert(texts(before) + texts(more@).take(0) =~= texts(before));
    }
    while i < more.len()
        invariant
            i <= more@.len(),
            texts(warnings@) == texts(before) + texts(more@).take(i as int),
        decreases more.len() - i,
    {
        let ghost now = warnings@;
        let warning: String = more[i].clone();
        warnings.push(warning);
        proof {
            assert(texts(warnings@) =~= texts(now).push(warning@));
            assert(texts(more@).take(i + 1) =~= texts(more@).take(i as int).push(warning@));
        }
        i += 1;
    }
    proof {
        assert(texts(more@).take(i as int) =~= texts(more@));
    }
}

/// Build the inverted indexes over the data of all active tables, with the warnings about
/// their hashes.
pub fn build_indexes(entries: &Vec<FullDirEntry>, active_urls: &NameSet) -> (r: (
    Indexes,
    Vec<String>,
))
    ensures
        r.0@ == indexes_over(full_views(entries@), active_urls@),
        texts(r.1@) == all_warnings(full_views(entries@), active_urls@),
{
    let ghost all = full_views(entries@);
    let mut indexes: Indexes = Indexes::new();
    let mut warnings: Vec<String> = Vec::new();
    let mut i: usize = 0;
    proof {
        assert(all.take(0) =~= Seq::<(DirView, Option<Seq<char>>)>::empty());
        assert(texts(warnings@) =~= Seq::<Seq<char>>::empty());
    }
    while i < entries.len()
        invariant
            all == full_views(entries@),
            i <= entries@.len(),
            indexes@ == indexes_over(all.take(i as int), active_urls@),
            texts(warnings@) == all_warnings(all.take(i as int), active_urls@),
        decreases entries.len() - i,
    {
        let entry: &FullDirEntry = &entries[i];
        proof {
            assert(all.take(i + 1).drop_last() =~= all.take(i as int));
            assert(all.take(i + 1).last() == full_view(*entry));
        }
        let mut items: Vec<Json> = Vec::new();
        proof {
            assert(views(items@) =~= Seq::<JsonView>::empty());
        }
        if active_urls.contains(entry.info.url.as_str()) {
            match &entry.data_raw {
                Some(data_raw) => {
                    match extract_chart_items(data_raw.as_str()) {
                        Some(found) => {
                            items = found;
                        },
                        None => {},
                    }
                },
                None => {},
            }
        }
        proof {
            assert(views(items@) == indexed_items(full_view(*entry), active_urls@));
        }
        let (more_indexes, more_warnings) = index_items(
            indexes,
            &items,
            entry.dir_name.as_str(),
        );
        indexes = more_indexes;
        append_all(&mut warnings, more_warnings);
        i += 1;
    }
    proof {
        assert(all.take(i as int) =~= all);
    }
    (indexes, warnings)
}

// ---------------------------------------------------------------------
// Laws
// ---------------------------------------------------------------------

/// Some item of the entry gives `key`, and the entry's directory is `name`.
pub open spec fn entry_mentions(
    entry: (DirView, Option<Seq<char>>),
    active: Set<Seq<char>>,
    pick: spec_fn(JsonView) -> Option<Seq<char>>,
    key: Seq<char>,
    name: Seq<char>,
) -> bool {
    entry.0.dir_name == name && exists|j: int|
        0 <= j < indexed_items(entry, active).len() && pick(
            #[trigger] indexed_items(entry, active)[j],
        ) == Some(key)
}

/// An index has `name` under `key`.
pub open spec fn has_entry(index: IndexView, key: Seq<char>, name: Seq<char>) -> bool {
    index.contains_key(key) && index[key].contains(name)
}

proof fn lemma_items_entered(
    index: IndexView,
    items: Seq<JsonView>,
    pick: spec_fn(JsonView) -> Option<Seq<char>>,
    table: Seq<char>,
    key: Seq<char>,
    name: Seq<char>,
)
    ensures
        has_entry(items_entered(index, items, pick, table), key, name) <==> (has_entry(
            index,
            key,
            name,
        ) || (name == table && exists|j: int|
            0 <= j < items.len() && pick(#[trigger] items[j]) == Some(key))),
        items_entered(index, items, pick, table).contains_key(key) <==> (index.contains_key(key)
            || exists|j: int| 0 <= j < items.len() && pick(#[trigger] items[j]) == Some(key)),
    decreases items.len(),
{
    if items.len() > 0 {
        let init = items.drop_last();
        let last = items.last();
        lemma_items_entered(index, init, pick, table, key, name);
        if exists|j: int| 0 <= j < init.len() && pick(#[trigger] init[j]) == Some(key) {
            let j = choose|j: int| 0 <= j < init.len() && pick(#[trigger] init[j]) == Some(key);
            assert(items[j] == init[j]);
        }
        if exists|j: int| 0 <= j < items.len() && pick(#[trigger] items[j]) == Some(key) {
            let j = choose|j: int| 0 <= j < items.len() && pick(#[trigger] items[j]) == Some(key);
            if j < init.len() {
                assert(init[j] == items[j]);
            }
        }
        if pick(last) == Some(key) {
            assert(pick(items[items.len() - 1]) == Some(key));
        }
    }
}

/// What an index holds: a directory stands under a key exactly where the table in it is
/// active and one of its chart items has that key.
pub proof fn law_index_membership(
    entries: Seq<(DirView, Option<Seq<char>>)>,
    active: Set<Seq<char>>,
    pick: spec_fn(JsonView) -> Option<Seq<char>>,
    key: Seq<char>,
    name: Seq<char>,
)
    ensures
        has_entry(index_over(entries, active, pick), key, name) <==> exists|i: int|
            0 <= i < entries.len() && entry_mentions(
                #[trigger] entries[i],
                active,
                pick,
                key,
                name,
            ),
    decreases entries.len(),
{
    if entries.len() > 0 {
        let init = entries.drop_last();
        let last = entries.last();
        law_index_membership(init, active, pick, key, name);
        lemma_items_entered(
            index_over(init, active, pick),
            indexed_items(last, active),
            pick,
            last.0.dir_name,
            key,
            name,
        );
        assert(entries[entries.len() - 1] == last);
        if exists|i: int|
            0 <= i < init.len() && entry_mentions(#[trigger] init[i], active, pick, key, name) {
            let i = choose|i: int|
                0 <= i < init.len() && entry_mentions(#[trigger] init[i], active, pick, key, name);
            assert(entries[i] == init[i]);
        }
        if exists|i: int|
            0 <= i < entries.len() && entry_mentions(
                #[trigger] entries[i],
                active,
                pick,
                key,
                name,
            ) {
            let i = choose|i: int|
                0 <= i < entries.len() && entry_mentions(
                    #[trigger] entries[i],
                    active,
                    pick,
                    key,
                    name,
                );
            if i < init.len() {
                assert(init[i] == entries[i]);
            }
        }
    }
}

/// No key of an index is without a directory.
pub proof fn law_index_keys_have_entries(
    entries: Seq<(DirView, Option<Seq<char>>)>,
    active: Set<Seq<char>>,
    pick: spec_fn(JsonView) -> Option<Seq<char>>,
    key: Seq<char>,
)
    requires
        index_over(entries, active, pick).contains_key(key),
    ensures
        exists|name: Seq<char>| #[trigger]
            has_entry(index_over(entries, active, pick), key, name),
    decreases entries.len(),
{
    let init = entries.drop_last();
    let last = entries.last();
    let before = index_over(init, active, pick);
    let items = indexed_items(last, active);
    let table = last.0.dir_name;
    lemma_items_entered(before, items, pick, table, key, table);
    if before.contains_key(key) {
        law_index_keys_have_entries(init, active, pick, key);
        let name = choose|name: Seq<char>| #[trigger] has_entry(before, key, name);
        lemma_items_entered(before, items, pick, table, key, name);
        assert(has_entry(index_over(entries, active, pick), key, name));
    } else {
        assert(has_entry(index_over(entries, active, pick), key, table));
    }
}

proof fn lemma_active_positions(entries: Seq<DirView>, active: Set<Seq<char>>) -> (p: Seq<int>)
    ensures
        p.len() == active_infos(entries, active).len(),
        forall|k: int|
            0 <= k < p.len() ==> 0 <= #[trigger] p[k] < entries.len() && active.contains(
                entries[p[k]].info.url,
            ) && active_infos(entries, active)[k] == with_dir_name(entries[p[k]]),
        forall|k: int, l: int| 0 <= k < l < p.len() ==> #[trigger] p[k] < #[trigger] p[l],
        forall|i: int|
            0 <= i < entries.len() && active.contains((#[trigger] entries[i]).info.url)
                ==> p.contains(i),
    decreases entries.len(),
{
    if entries.len() == 0 {
        Seq::empty()
    } else {
        let init = entries.drop_last();
        let before = lemma_active_positions(init, active);
        let last = entries.len() - 1;
        if active.contains(entries.last().info.url) {
            let p = before.push(last);
            assert forall|i: int|
                0 <= i < entries.len() && active.contains((#[trigger] entries[i]).info.url) implies p.contains(
            i) by {
                if i < last {
                    assert(init[i] == entries[i]);
                    assert(before.contains(i));
                    let k = choose|k: int| 0 <= k < before.len() && before[k] == i;
                    assert(p[k] == i);
                } else {
                    assert(p[p.len() - 1] == i);
                }
            }
            p
        } else {
            assert forall|i: int|
                0 <= i < entries.len() && active.contains((#[trigger] entries[i]).info.url) implies before.contains(
            i) by {
                assert(i < last);
                assert(init[i] == entries[i]);
            }
            before
        }
    }
}

/// The combined list has one entry for each directory whose table is active and no other:
/// entry `k` is that of directory `p[k]`. It has the name, the symbol and the address of the
/// table, the directory under `dir_name`, and under every other key the field that the
/// table's description has there, or none where that has none. The entries stand in
/// ascending order of their addresses, those with one address in the order of the
/// directories.
pub proof fn law_combined_list_entries(entries: Seq<DirView>, active: Set<Seq<char>>) -> (p: Seq<
    int,
>)
    ensures
        ({
            let list = sorted_by_url(active_infos(entries, active));
            &&& p.len() == list.len()
            &&& forall|k: int|
                0 <= k < list.len() ==> {
                    let entry = #[trigger] list[k];
                    let table = entries[p[k]];
                    &&& 0 <= p[k] < entries.len()
                    &&& active.contains(table.info.url)
                    &&& entry.name == table.info.name
                    &&& entry.symbol == table.info.symbol
                    &&& entry.url == table.info.url
                    &&& entry.extra.contains_key("dir_name"@)
                    &&& entry.extra["dir_name"@] == JsonView::Text(table.dir_name)
                    &&& forall|key: Seq<char>|
                        key != "dir_name"@ ==> {
                            &&& #[trigger] entry.extra.contains_key(key)
                                <==> table.info.extra.contains_key(key)
                            &&& entry.extra.contains_key(key) ==> entry.extra[key]
                                == table.info.extra[key]
                        }
                }
            &&& forall|i: int|
                0 <= i < entries.len() && active.contains((#[trigger] entries[i]).info.url)
                    ==> exists|k: int| 0 <= k < p.len() && #[trigger] p[k] == i
            &&& forall|k: int, l: int| 0 <= k < l < p.len() ==> #[trigger] p[k] != #[trigger] p[l]
            &&& forall|k: int, l: int|
                0 <= k < l < list.len() ==> {
                    &&& !text_lt((#[trigger] list[l]).url, (#[trigger] list[k]).url)
                    &&& list[k].url == list[l].url ==> p[k] < p[l]
                }
        }),
{
    let infos = active_infos(entries, active);
    let pos = lemma_active_positions(entries, active);
    let pairs = keyed(info_urls(infos), infos);
    let sorted = stable_sorted(pairs);
    let q = law_sort_rearranges(pairs);
    let list = sorted_by_url(infos);
    let p = Seq::new(list.len(), |k: int| pos[q[k]]);
    assert forall|k: int| 0 <= k < list.len() implies #[trigger] list[k] == infos[q[k]] && sorted[k].0
        == list[k].url && list[k] == with_dir_name(entries[p[k]]) && 0 <= p[k] < entries.len()
        && active.contains(entries[p[k]].info.url) by {
        assert(sorted[k] == pairs[q[k]]);
        assert(0 <= q[k] < infos.len());
        assert(pairs[q[k]] == (infos[q[k]].url, infos[q[k]]));
        assert(0 <= pos[q[k]] < entries.len());
    }
    assert forall|i: int|
        0 <= i < entries.len() && active.contains((#[trigger] entries[i]).info.url) implies exists|
        k: int,
    |
        0 <= k < p.len() && #[trigger] p[k] == i by {
        assert(pos.contains(i));
        let m = choose|m: int| 0 <= m < pos.len() && pos[m] == i;
        lemma_rearrangement_is_complete(q, pairs.len(), m);
        let k = choose|k: int| 0 <= k < q.len() && q[k] == m;
        assert(p[k] == i);
    }
    assert forall|k: int, l: int| 0 <= k < l < p.len() implies #[trigger] p[k] != #[trigger] p[l] by {
        assert(q[k] != q[l]);
        if q[k] < q[l] {
            assert(pos[q[k]] < pos[q[l]]);
        } else {
            assert(pos[q[l]] < pos[q[k]]);
        }
    }
    assert forall|k: int, l: int| 0 <= k < l < list.len() implies {
        &&& !text_lt((#[trigger] list[l]).url, (#[trigger] list[k]).url)
        &&& list[k].url == list[l].url ==> p[k] < p[l]
    } by {
        assert(sorted[k].0 == list[k].url && sorted[l].0 == list[l].url);
        assert(!text_lt(sorted[l].0, sorted[k].0));
        if list[k].url == list[l].url {
            assert(q[k] < q[l]);
            assert(pos[q[k]] < pos[q[l]]);
        }
    }
    p
}

/// The indexes are what their fields hold, and the entries of a scan stand in its order, each
/// with its directory, its description and its data.
pub proof fn law_indexes_and_entries(indexes: Indexes, entries: Seq<FullDirEntry>, i: int)
    ensures
        indexes@.title == indexes.title@,
        indexes@.artist == indexes.artist@,
        indexes@.md5 == indexes.md5@,
        indexes@.sha256 == indexes.sha256@,
        full_views(entries).len() == entries.len(),
        forall|infos: Seq<TableInfoView>| #[trigger] info_urls(infos).len() == infos.len(),
        forall|infos: Seq<TableInfoView>, k: int|
            0 <= k < infos.len() ==> #[trigger] info_urls(infos)[k] == infos[k].url,
        0 <= i < entries.len() ==> {
            let view = full_views(entries)[i];
            &&& view.0.dir_name == entries[i].dir_name@
            &&& view.0.info == entries[i].info@
            &&& view.1 == crate::text::string_view(entries[i].data_raw)
        },
{
}

proof fn lemma_charts_of(
    entries: Seq<(DirView, Option<Seq<char>>)>,
    active: Set<Seq<char>>,
    pick: spec_fn(JsonView) -> Option<Seq<char>>,
    key: Seq<char>,
    name: Seq<char>,
)
    ensures
        has_entry(index_over(entries, active, pick), key, name) <==> exists|i: int, j: int|
            0 <= i < entries.len() && active.contains(entries[i].0.info.url)
                && entries[i].0.dir_name == name && entries[i].1 is Some && text_items(
                entries[i].1->Some_0,
            ) is Some && 0 <= j < text_items(entries[i].1->Some_0)->Some_0.len() && pick(
                #[trigger] text_items(entries[i].1->Some_0)->Some_0[j],
            ) == Some(key),
{
    law_index_membership(entries, active, pick, key, name);
    if has_entry(index_over(entries, active, pick), key, name) {
        let i = choose|i: int|
            0 <= i < entries.len() && entry_mentions(
                #[trigger] entries[i],
                active,
                pick,
                key,
                name,
            );
        let items = indexed_items(entries[i], active);
        let j = choose|j: int| 0 <= j < items.len() && pick(#[trigger] items[j]) == Some(key);
        assert(pick(text_items(entries[i].1->Some_0)->Some_0[j]) == Some(key));
    }
    if exists|i: int, j: int|
        0 <= i < entries.len() && active.contains(entries[i].0.info.url) && entries[i].0.dir_name
            == name && entries[i].1 is Some && text_items(entries[i].1->Some_0) is Some && 0 <= j
            < text_items(entries[i].1->Some_0)->Some_0.len() && pick(
            #[trigger] text_items(entries[i].1->Some_0)->Some_0[j],
        ) == Some(key) {
        let (i, j) = choose|i: int, j: int|
            0 <= i < entries.len() && active.contains(entries[i].0.info.url)
                && entries[i].0.dir_name == name && entries[i].1 is Some && text_items(
                entries[i].1->Some_0,
            ) is Some && 0 <= j < text_items(entries[i].1->Some_0)->Some_0.len() && pick(
                #[trigger] text_items(entries[i].1->Some_0)->Some_0[j],
            ) == Some(key);
        let items = indexed_items(entries[i], active);
        assert(pick(items[j]) == Some(key));
        assert(entry_mentions(entries[i], active, pick, key, name));
    }
}

/// A directory stands in the MD5 index under a string exactly where its table is active and
/// one of its charts has that string as its `md5`, and the string is thirty-two hex digits.
pub proof fn law_md5_index(
    entries: Seq<(DirView, Option<Seq<char>>)>,
    active: Set<Seq<char>>,
    key: Seq<char>,
    name: Seq<char>,
)
    ensures
        ({
            let index = indexes_over(entries, active).md5;
            index.contains_key(key) && index[key].contains(name)
        }) <==> {
            &&& key.len() == 32
            &&& forall|n: int|
                0 <= n < key.len() ==> "0123456789abcdefABCDEF"@.contains(#[trigger] key[n])
            &&& exists|i: int, j: int|
                0 <= i < entries.len() && active.contains(entries[i].0.info.url)
                    && entries[i].0.dir_name == name && entries[i].1 is Some && text_items(
                    entries[i].1->Some_0,
                ) is Some && 0 <= j < text_items(entries[i].1->Some_0)->Some_0.len()
                    && json_text_field(
                    #[trigger] text_items(entries[i].1->Some_0)->Some_0[j],
                    "md5"@,
                ) == Some(key)
        },
{
    let pick = pick_md5();
    lemma_charts_of(entries, active, pick, key, name);
    assert forall|item: JsonView| #[trigger] pick(item) == Some(key) <==> {
        &&& json_text_field(item, "md5"@) == Some(key)
        &&& key.len() == 32
        &&& forall|n: int|
            0 <= n < key.len() ==> "0123456789abcdefABCDEF"@.contains(#[trigger] key[n])
    } by {
        law_hash_key(item, "md5"@, 32, key);
    }
    assert(has_entry(index_over(entries, active, pick), key, name) <==> {
        let index = indexes_over(entries, active).md5;
        index.contains_key(key) && index[key].contains(name)
    });
}

/// A directory stands in the SHA-256 index under a string exactly where its table is active
/// and one of its charts has that string as its `sha256`, and the string is sixty-four hex
/// digits.
pub proof fn law_sha256_index(
    entries: Seq<(DirView, Option<Seq<char>>)>,
    active: Set<Seq<char>>,
    key: Seq<char>,
    name: Seq<char>,
)
    ensures
        ({
            let index = indexes_over(entries, active).sha256;
            index.contains_key(key) && index[key].contains(name)
        }) <==> {
            &&& key.len() == 64
            &&& forall|n: int|
                0 <= n < key.len() ==> "0123456789abcdefABCDEF"@.contains(#[trigger] key[n])
            &&& exists|i: int, j: int|
                0 <= i < entries.len() && active.contains(entries[i].0.info.url)
                    && entries[i].0.dir_name == name && entries[i].1 is Some && text_items(
                    entries[i].1->Some_0,
                ) is Some && 0 <= j < text_items(entries[i].1->Some_0)->Some_0.len()
                    && json_text_field(
                    #[trigger] text_items(entries[i].1->Some_0)->Some_0[j],
                    "sha256"@,
                ) == Some(key)
        },
{
    let pick = pick_sha256();
    lemma_charts_of(entries, active, pick, key, name);
    assert forall|item: JsonView| #[trigger] pick(item) == Some(key) <==> {
        &&& json_text_field(item, "sha256"@) == Some(key)
        &&& key.len() == 64
        &&& forall|n: int|
            0 <= n < key.len() ==> "0123456789abcdefABCDEF"@.contains(#[trigger] key[n])
    } by {
        law_hash_key(item, "sha256"@, 64, key);
    }
    assert(has_entry(index_over(entries, active, pick), key, name) <==> {
        let index = indexes_over(entries, active).sha256;
        index.contains_key(key) && index[key].contains(name)
    });
}

/// A directory stands in the title index under a text exactly where its table is active and
/// one of its charts has that text, which is not empty, as its `title`.
pub proof fn law_title_index(
    entries: Seq<(DirView, Option<Seq<char>>)>,
    active: Set<Seq<char>>,
    key: Seq<char>,
    name: Seq<char>,
)
    ensures
        ({
            let index = indexes_over(entries, active).title;
            index.contains_key(key) && index[key].contains(name)
        }) <==> {
            &&& key != ""@
            &&& exists|i: int, j: int|
                0 <= i < entries.len() && active.contains(entries[i].0.info.url)
                    && entries[i].0.dir_name == name && entries[i].1 is Some && text_items(
                    entries[i].1->Some_0,
                ) is Some && 0 <= j < text_items(entries[i].1->Some_0)->Some_0.len()
                    && json_text_field(
                    #[trigger] text_items(entries[i].1->Some_0)->Some_0[j],
                    "title"@,
                ) == Some(key)
        },
{
    let pick = pick_title();
    lemma_charts_of(entries, active, pick, key, name);
    assert forall|item: JsonView| #[trigger] pick(item) == Some(key) <==> json_text_field(
        item,
        "title"@,
    ) == Some(key) && key != ""@ by {
        law_text_key(item, "title"@, key);
    }
    assert(has_entry(index_over(entries, active, pick), key, name) <==> {
        let index = indexes_over(entries, active).title;
        index.contains_key(key) && index[key].contains(name)
    });
}

/// A directory stands in the artist index under a text exactly where its table is active and
/// one of its charts has that text, which is not empty, as its `artist`.
pub proof fn law_artist_index(
    entries: Seq<(DirView, Option<Seq<char>>)>,
    active: Set<Seq<char>>,
    key: Seq<char>,
    name: Seq<char>,
)
    ensures
        ({
            let index = indexes_over(entries, active).artist;
            index.contains_key(key) && index[key].contains(name)
        }) <==> {
            &&& key != ""@
            &&& exists|i: int, j: int|
                0 <= i < entries.len() && active.contains(entries[i].0.info.url)
                    && entries[i].0.dir_name == name && entries[i].1 is Some && text_items(
                    entries[i].1->Some_0,
                ) is Some && 0 <= j < text_items(entries[i].1->Some_0)->Some_0.len()
                    && json_text_field(
                    #[trigger] text_items(entries[i].1->Some_0)->Some_0[j],
                    "artist"@,
                ) == Some(key)
        },
{
    let pick = pick_artist();
    lemma_charts_of(entries, active, pick, key, name);
    assert forall|item: JsonView| #[trigger] pick(item) == Some(key) <==> json_text_field(
        item,
        "artist"@,
    ) == Some(key) && key != ""@ by {
        law_text_key(item, "artist"@, key);
    }
    assert(has_entry(index_over(entries, active, pick), key, name) <==> {
        let index = indexes_over(entries, active).artist;
        index.contains_key(key) && index[key].contains(name)
    });
}

/// No key of any of the four indexes is without a directory.
pub proof fn law_no_key_is_without_a_directory(
    entries: Seq<(DirView, Option<Seq<char>>)>,
    active: Set<Seq<char>>,
    key: Seq<char>,
)
    ensures
        ({
            let indexes = indexes_over(entries, active);
            &&& indexes.title.contains_key(key) ==> exists|name: Seq<char>| #[trigger]
                indexes.title[key].contains(name)
            &&& indexes.artist.contains_key(key) ==> exists|name: Seq<char>| #[trigger]
                indexes.artist[key].contains(name)
            &&& indexes.md5.contains_key(key) ==> exists|name: Seq<char>| #[trigger]
                indexes.md5[key].contains(name)
            &&& indexes.sha256.contains_key(key) ==> exists|name: Seq<char>| #[trigger]
                indexes.sha256[key].contains(name)
        }),
{
    lemma_key_has_directory(entries, active, pick_title(), key);
    lemma_key_has_directory(entries, active, pick_artist(), key);
    lemma_key_has_directory(entries, active, pick_md5(), key);
    lemma_key_has_directory(entries, active, pick_sha256(), key);
}

proof fn lemma_key_has_directory(
    entries: Seq<(DirView, Option<Seq<char>>)>,
    active: Set<Seq<char>>,
    pick: spec_fn(JsonView) -> Option<Seq<char>>,
    key: Seq<char>,
)
    ensures
        index_over(entries, active, pick).contains_key(key) ==> exists|name: Seq<char>| #[trigger]
            index_over(entries, active, pick)[key].contains(name),
{
    if index_over(entries, active, pick).contains_key(key) {
        law_index_keys_have_entries(entries, active, pick, key);
        let name = choose|name: Seq<char>| #[trigger]
            has_entry(index_over(entries, active, pick), key, name);
        assert(index_over(entries, active, pick)[key].contains(name));
    }
}

/// Entering the charts of a table adds its directory under the title, the artist and the
/// hashes of each, and changes nothing else in the indexes.
pub proof fn law_charts_are_entered(
    indexes: IndexesView,
    items: Seq<JsonView>,
    table: Seq<char>,
    key: Seq<char>,
    name: Seq<char>,
)
    ensures
        ({
            let after = indexes_entered(indexes, items, table);
            let hex = forall|n: int|
                0 <= n < key.len() ==> "0123456789abcdefABCDEF"@.contains(#[trigger] key[n]);
            &&& (after.title.contains_key(key) && after.title[key].contains(name)) <==> (
            indexes.title.contains_key(key) && indexes.title[key].contains(name)) || (name == table
                && key != ""@ && exists|j: int|
                0 <= j < items.len() && json_text_field(#[trigger] items[j], "title"@) == Some(key))
            &&& (after.artist.contains_key(key) && after.artist[key].contains(name)) <==> (
            indexes.artist.contains_key(key) && indexes.artist[key].contains(name)) || (name
                == table && key != ""@ && exists|j: int|
                0 <= j < items.len() && json_text_field(#[trigger] items[j], "artist"@) == Some(
                    key,
                ))
            &&& (after.md5.contains_key(key) && after.md5[key].contains(name)) <==> (
            indexes.md5.contains_key(key) && indexes.md5[key].contains(name)) || (name == table
                && key.len() == 32 && hex && exists|j: int|
                0 <= j < items.len() && json_text_field(#[trigger] items[j], "md5"@) == Some(key))
            &&& (after.sha256.contains_key(key) && after.sha256[key].contains(name)) <==> (
            indexes.sha256.contains_key(key) && indexes.sha256[key].contains(name)) || (name
                == table && key.len() == 64 && hex && exists|j: int|
                0 <= j < items.len() && json_text_field(#[trigger] items[j], "sha256"@) == Some(
                    key,
                ))
        }),
{
    lemma_items_entered(indexes.title, items, pick_title(), table, key, name);
    lemma_items_entered(indexes.artist, items, pick_artist(), table, key, name);
    lemma_items_entered(indexes.md5, items, pick_md5(), table, key, name);
    lemma_items_entered(indexes.sha256, items, pick_sha256(), table, key, name);
    assert forall|j: int| 0 <= j < items.len() implies {
        let item = #[trigger] items[j];
        let hex = forall|n: int|
            0 <= n < key.len() ==> "0123456789abcdefABCDEF"@.contains(#[trigger] key[n]);
        &&& pick_title()(item) == Some(key) <==> json_text_field(item, "title"@) == Some(key)
            && key != ""@
        &&& pick_artist()(item) == Some(key) <==> json_text_field(item, "artist"@) == Some(key)
            && key != ""@
        &&& pick_md5()(item) == Some(key) <==> json_text_field(item, "md5"@) == Some(key)
            && key.len() == 32 && hex
        &&& pick_sha256()(item) == Some(key) <==> json_text_field(item, "sha256"@) == Some(key)
            && key.len() == 64 && hex
    } by {
        law_text_key(items[j], "title"@, key);
        law_text_key(items[j], "artist"@, key);
        law_hash_key(items[j], "md5"@, 32, key);
        law_hash_key(items[j], "sha256"@, 64, key);
    }
}

/// One more chart brings at most two more warnings, behind those before it: first about its
/// `md5`, which should be thirty-two digits long, and then about its `sha256`, which should be
/// sixty-four.
pub proof fn law_warnings_of_one_more_chart(
    items: Seq<JsonView>,
    item: JsonView,
    name: Seq<char>,
)
    ensures
        item_warnings(Seq::empty(), name).len() == 0,
        ({
            let before = item_warnings(items, name);
            let after = item_warnings(items.push(item), name);
            let md5 = long_hash_warning(item, "md5"@, 32, name);
            let sha256 = long_hash_warning(item, "sha256"@, 64, name);
            &&& md5 is None && sha256 is None ==> after == before
            &&& md5 is Some && sha256 is None ==> after == before.push(md5->Some_0)
            &&& md5 is None && sha256 is Some ==> after == before.push(sha256->Some_0)
            &&& md5 is Some && sha256 is Some ==> after == before.push(md5->Some_0).push(
                sha256->Some_0,
            )
        }),
{
    assert(items.push(item).drop_last() =~= items);
}

/// The warnings of one more table come behind those before it; a table that is not active, or
/// has no readable charts, brings none.
pub proof fn law_warnings_of_one_more_table(
    entries: Seq<(DirView, Option<Seq<char>>)>,
    entry: (DirView, Option<Seq<char>>),
    active: Set<Seq<char>>,
)
    ensures
        all_warnings(Seq::empty(), active).len() == 0,
        active.contains(entry.0.info.url) && entry.1 is Some && text_items(
            entry.1->Some_0,
        ) is Some ==> all_warnings(entries.push(entry), active) == all_warnings(entries, active)
            + item_warnings(text_items(entry.1->Some_0)->Some_0, entry.0.dir_name),
        !(active.contains(entry.0.info.url) && entry.1 is Some && text_items(
            entry.1->Some_0,
        ) is Some) ==> all_warnings(entries.push(entry), active) == all_warnings(entries, active),
{
    assert(entries.push(entry).drop_last() =~= entries);
    if !(active.contains(entry.0.info.url) && entry.1 is Some && text_items(
        entry.1->Some_0,
    ) is Some) {
        assert(all_warnings(entries, active) + Seq::<Seq<char>>::empty() =~= all_warnings(
            entries,
            active,
        ));
    }
}

} // verus!
