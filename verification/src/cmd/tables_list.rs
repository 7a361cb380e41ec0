//! Generate a combined table list from fetched table descriptions.

use vstd::prelude::*;
use vstd::string::*;

use crate::filesystem::{is_changed, json_changed, OldFile};
use crate::json::pretty_json;
use crate::ordered::{Dup, SortedMap};
use crate::output::info_urls;
use crate::overlay::{file_list, filed, filed_by_url, law_filing_leaves_others, law_last_description_stays};
use crate::sorting::{as_numbers, positions};
use crate::table::{distinct_extra, info_of, infos_of, law_same_info_is_reflexive, list_json, list_text, parsed_info, parsed_infos, same_info, InfoFieldsView, TableInfo, TableInfoView};
use crate::text::{decimal, decimal_text, strictly_ascending, text_lt, text_of};

verus! {

/// Arguments of the tables-list subcommand.
pub struct Args {
    /// Directory containing fetched table data.
    pub table_dir: String,
    /// Output file path for the combined table list.
    pub output: String,
}

impl Default for Args {
    /// The arguments that hold where none are given.
    fn default() -> (r: Args)
        ensures
            r.table_dir@ == "tables"@,
            r.output@ == "tables/tables.json"@,
    {
        Args {
            table_dir: text_of("tables"),
            output: text_of("tables/tables.json"),
        }
    }
}

// ---------------------------------------------------------------------
// Tables by address
// ---------------------------------------------------------------------

/// The descriptions of a list by address, a later one replacing an earlier one.
pub open spec fn by_url(list: Seq<TableInfoView>) -> Map<Seq<char>, TableInfoView> {
    filed(Map::empty(), list)
}

/// `list` holds the descriptions of `infos` whose address `keep` holds of, each once, in
/// ascending order of addresses.
pub open spec fn is_listing(
    list: Seq<TableInfoView>,
    infos: Map<Seq<char>, TableInfoView>,
    keep: spec_fn(Seq<char>) -> bool,
) -> bool {
    &&& strictly_ascending(info_urls(list))
    &&& forall|i: int|
        0 <= i < list.len() ==> infos.contains_key((#[trigger] list[i]).url) && list[i]
            == infos[list[i].url] && keep(list[i].url)
    &&& forall|k: Seq<char>| #[trigger]
        infos.contains_key(k) && keep(k) ==> info_urls(list).contains(k)
}

/// A listing is the only one of its kind.
pub proof fn law_listing_is_unique(
    a: Seq<TableInfoView>,
    b: Seq<TableInfoView>,
    infos: Map<Seq<char>, TableInfoView>,
    keep: spec_fn(Seq<char>) -> bool,
)
    requires
        is_listing(a, infos, keep),
        is_listing(b, infos, keep),
    ensures
        a == b,
{
    let ua = info_urls(a);
    let ub = info_urls(b);
    assert forall|k: Seq<char>| ua.contains(k) <==> ub.contains(k) by {
        if ua.contains(k) {
            let i = choose|i: int| 0 <= i < ua.len() && ua[i] == k;
            assert(infos.contains_key(a[i].url) && keep(a[i].url));
        }
        if ub.contains(k) {
            let i = choose|i: int| 0 <= i < ub.len() && ub[i] == k;
            assert(infos.contains_key(b[i].url) && keep(b[i].url));
        }
    }
    crate::ordered::lemma_ascending_determined(ua, ub);
    assert forall|i: int| 0 <= i < a.len() implies a[i] == b[i] by {
        assert(ua[i] == ub[i]);
        assert(a[i] == infos[a[i].url]);
        assert(b[i] == infos[b[i].url]);
    }
    assert(a =~= b);
}

fn file_by_url(list: &Vec<TableInfo>) -> (r: SortedMap<TableInfo>)
    ensures
        r@ == by_url(infos_of(list@)),
{
    let mut map: SortedMap<TableInfo> = SortedMap::new();
    file_list(&mut map, list);
    map
}

// ---------------------------------------------------------------------
// Differences
// ---------------------------------------------------------------------

/// The difference between two lists of table descriptions, by address.
pub struct TableDiff {
    /// Tables that are only in the new list.
    pub added: Vec<TableInfo>,
    /// Tables that are only in the old list.
    pub removed: Vec<TableInfo>,
    /// Tables in both lists whose description changed, as the new list has them.
    pub modified: Vec<TableInfo>,
}

/// The address is only in the new list.
pub open spec fn is_added(
    old: Seq<TableInfoView>,
    new: Seq<TableInfoView>,
    url: Seq<char>,
) -> bool {
    by_url(new).contains_key(url) && !by_url(old).contains_key(url)
}

/// The address is in both lists with different descriptions.
pub open spec fn is_modified(
    old: Seq<TableInfoView>,
    new: Seq<TableInfoView>,
    url: Seq<char>,
) -> bool {
    by_url(new).contains_key(url) && by_url(old).contains_key(url) && !same_info(
        by_url(old)[url],
        by_url(new)[url],
    )
}

/// The descriptions of the old list whose address is not in the new list, in order.
pub open spec fn only_old(old: Seq<TableInfoView>, new: Seq<TableInfoView>) -> Seq<TableInfoView>
    decreases old.len(),
{
    if old.len() == 0 {
        Seq::empty()
    } else {
        let before = only_old(old.drop_last(), new);
        if by_url(new).contains_key(old.last().url) {
            before
        } else {
            before.push(old.last())
        }
    }
}

/// Compare old and new table lists by address.
///
/// A table is modified if any field differs between its old and new description.
pub fn compute_table_diff(old: &Vec<TableInfo>, new: &Vec<TableInfo>) -> (r: TableDiff)
    ensures
        is_listing(
            infos_of(r.added@),
            by_url(infos_of(new@)),
            |k: Seq<char>| is_added(infos_of(old@), infos_of(new@), k),
        ),
        is_listing(
            infos_of(r.modified@),
            by_url(infos_of(new@)),
            |k: Seq<char>| is_modified(infos_of(old@), infos_of(new@), k),
        ),
        infos_of(r.removed@) == only_old(infos_of(old@), infos_of(new@)),
{
    let ghost olds = infos_of(old@);
    let ghost news = infos_of(new@);
    let old_by_url: SortedMap<TableInfo> = file_by_url(old);
    let new_by_url: SortedMap<TableInfo> = file_by_url(new);
    let mut added: Vec<TableInfo> = Vec::new();
    let mut modified: Vec<TableInfo> = Vec::new();
    let n: usize = new_by_url.len();
    let mut i: usize = 0;
    proof {
        lemma_by_url(news);
        assert(new_by_url.keys().take(0) =~= Seq::<Seq<char>>::empty());
        assert(infos_of(added@) =~= Seq::<TableInfoView>::empty());
        assert(infos_of(modified@) =~= Seq::<TableInfoView>::empty());
    }
    while i < n
        invariant
            olds == infos_of(old@),
            news == infos_of(new@),
            old_by_url@ == by_url(olds),
            new_by_url@ == by_url(news),
            filed_by_url(by_url(news)),
            n == new_by_url.keys().len(),
            strictly_ascending(new_by_url.keys()),
            forall|k: Seq<char>| #[trigger]
                new_by_url@.contains_key(k) <==> new_by_url.keys().contains(k),
            i <= n,
            is_partial_listing(
                infos_of(added@),
                by_url(news),
                |k: Seq<char>| is_added(olds, news, k),
                new_by_url.keys(),
                i as int,
            ),
            is_partial_listing(
                infos_of(modified@),
                by_url(news),
                |k: Seq<char>| is_modified(olds, news, k),
                new_by_url.keys(),
                i as int,
            ),
        decreases n - i,
    {
        let url: &String = new_by_url.key_at(i);
        let new_entry: &TableInfo = new_by_url.value_at(i);
        let ghost added_before = infos_of(added@);
        let ghost modified_before = infos_of(modified@);
        let ghost is_new = |k: Seq<char>| is_added(olds, news, k);
        let ghost is_other = |k: Seq<char>| is_modified(olds, news, k);
        match old_by_url.get(url.as_str()) {
            None => {
                let copy: TableInfo = new_entry.dup();
                added.push(copy);
                proof {
                    assert(infos_of(added@) =~= added_before.push(copy@));
                    assert(is_new(url@) && !is_other(url@));
                }
            },
            Some(old_entry) => {
                if !old_entry.same(new_entry) {
                    let copy: TableInfo = new_entry.dup();
                    modified.push(copy);
                    proof {
                        assert(infos_of(modified@) =~= modified_before.push(copy@));
                        assert(!is_new(url@) && is_other(url@));
                    }
                } else {
                    proof {
                        assert(!is_new(url@) && !is_other(url@));
                    }
                }
            },
        }
        proof {
            lemma_listing_step(added_before, by_url(news), is_new, new_by_url.keys(), i as int);
            lemma_listing_step(modified_before, by_url(news), is_other, new_by_url.keys(), i as int);
        }
        i += 1;
    }
    proof {
        lemma_listing_done(
            infos_of(added@),
            by_url(news),
            |k: Seq<char>| is_added(olds, news, k),
            new_by_url.keys(),
        );
        lemma_listing_done(
            infos_of(modified@),
            by_url(news),
            |k: Seq<char>| is_modified(olds, news, k),
            new_by_url.keys(),
        );
    }
    let mut removed: Vec<TableInfo> = Vec::new();
    i = 0;
    proof {
        assert(infos_of(removed@) =~= Seq::<TableInfoView>::empty());
    }
    while i < old.len()
        invariant
            olds == infos_of(old@),
            news == infos_of(new@),
            new_by_url@ == by_url(news),
            i <= old@.len(),
            infos_of(removed@) == only_old(olds.take(i as int), news),
        decreases old.len() - i,
    {
        proof {
            assert(olds.take(i + 1).drop_last() =~= olds.take(i as int));
            assert(olds.take(i + 1).last() == old@[i as int]@);
        }
        if !new_by_url.contains_key(old[i].url.as_str()) {
            let ghost before = removed@;
            let copy: TableInfo = old[i].dup();
            removed.push(copy);
            proof {
                assert(infos_of(removed@) =~= infos_of(before).push(copy@));
            }
        }
        i += 1;
    }
    proof {
        assert(olds.take(i as int) =~= olds);
    }
    TableDiff { added, removed, modified }
}

/// `list` is the listing of what `keep` holds of among the first `n` keys.
spec fn is_partial_listing(
    list: Seq<TableInfoView>,
    infos: Map<Seq<char>, TableInfoView>,
    keep: spec_fn(Seq<char>) -> bool,
    keys: Seq<Seq<char>>,
    n: int,
) -> bool {
    &&& strictly_ascending(info_urls(list))
    &&& forall|i: int|
        0 <= i < list.len() ==> infos.contains_key((#[trigger] list[i]).url) && list[i]
            == infos[list[i].url] && keep(list[i].url) && keys.take(n).contains(list[i].url)
    &&& forall|j: int| 0 <= j < n && keep(#[trigger] keys[j]) ==> info_urls(list).contains(keys[j])
}

proof fn lemma_listing_step(
    list: Seq<TableInfoView>,
    infos: Map<Seq<char>, TableInfoView>,
    keep: spec_fn(Seq<char>) -> bool,
    keys: Seq<Seq<char>>,
    n: int,
)
    requires
        0 <= n < keys.len(),
        strictly_ascending(keys),
        infos.contains_key(keys[n]),
        infos[keys[n]].url == keys[n],
        is_partial_listing(list, infos, keep, keys, n),
    ensures
        keep(keys[n]) ==> is_partial_listing(list.push(infos[keys[n]]), infos, keep, keys, n + 1),
        !keep(keys[n]) ==> is_partial_listing(list, infos, keep, keys, n + 1),
{
    let a = keys.take(n);
    let b = keys.take(n + 1);
    assert(b =~= a.push(keys[n]));
    assert forall|k: Seq<char>| a.contains(k) implies b.contains(k) by {
        let j = choose|j: int| 0 <= j < a.len() && a[j] == k;
        assert(b[j] == k);
    }
    assert(b[n] == keys[n]);
    if keep(keys[n]) {
        let more = list.push(infos[keys[n]]);
        assert(info_urls(more) =~= info_urls(list).push(keys[n]));
        assert(strictly_ascending(info_urls(more))) by {
            assert forall|i: int, j: int| 0 <= i < j < more.len() implies #[trigger]
                crate::text::text_lt(info_urls(more)[i], info_urls(more)[j]) by {
                if j < list.len() {
                    assert(crate::text::text_lt(info_urls(list)[i], info_urls(list)[j]));
                } else {
                    assert(a.contains(list[i].url));
                    let k = choose|k: int| 0 <= k < a.len() && a[k] == list[i].url;
                    assert(crate::text::text_lt(keys[k], keys[n]));
                }
            }
        }
        assert forall|i: int| 0 <= i < more.len() implies infos.contains_key(
            (#[trigger] more[i]).url,
        ) && more[i] == infos[more[i].url] && keep(more[i].url) && b.contains(more[i].url) by {
            if i < list.len() {
                assert(more[i] == list[i]);
            }
        }
        assert forall|j: int| 0 <= j < n + 1 && keep(#[trigger] keys[j]) implies info_urls(
            more,
        ).contains(keys[j]) by {
            if j < n {
                let i = choose|i: int|
                    0 <= i < info_urls(list).len() && info_urls(list)[i] == keys[j];
                assert(info_urls(more)[i] == keys[j]);
            } else {
                assert(info_urls(more)[list.len() as int] == keys[n]);
            }
        }
    }
}

proof fn lemma_listing_done(
    list: Seq<TableInfoView>,
    infos: Map<Seq<char>, TableInfoView>,
    keep: spec_fn(Seq<char>) -> bool,
    keys: Seq<Seq<char>>,
)
    requires
        is_partial_listing(list, infos, keep, keys, keys.len() as int),
        forall|k: Seq<char>| #[trigger] infos.contains_key(k) <==> keys.contains(k),
    ensures
        is_listing(list, infos, keep),
{
    assert forall|k: Seq<char>| #[trigger] infos.contains_key(k) && keep(k) implies info_urls(
        list,
    ).contains(k) by {
        let j = choose|j: int| 0 <= j < keys.len() && keys[j] == k;
        assert(keep(keys[j]));
    }
}

proof fn lemma_by_url(list: Seq<TableInfoView>)
    ensures
        filed_by_url(by_url(list)),
    decreases list.len(),
{
    if list.len() > 0 {
        lemma_by_url(list.drop_last());
    }
}

/// A list compared with itself, or with one that has the same tables, shows nothing added
/// and nothing removed.
pub proof fn law_same_tables_add_and_remove_nothing(
    old: Seq<TableInfoView>,
    new: Seq<TableInfoView>,
)
    requires
        by_url(old).dom() == by_url(new).dom(),
    ensures
        forall|k: Seq<char>| !is_added(old, new, k),
        only_old(old, new) == Seq::<TableInfoView>::empty(),
{
    assert forall|k: Seq<char>| !is_added(old, new, k) by {
        assert(by_url(old).dom().contains(k) == by_url(new).dom().contains(k));
    }
    assert(old =~= old.take(old.len() as int));
    lemma_only_old_empty(old, old, new);
}

proof fn lemma_filed_from(list: Seq<TableInfoView>, k: Seq<char>) -> (i: int)
    requires
        by_url(list).contains_key(k),
    ensures
        0 <= i < list.len(),
        by_url(list)[k] == list[i],
    decreases list.len(),
{
    let last = list.len() - 1;
    if list.len() > 0 && list[last].url == k {
        last
    } else {
        let init = list.drop_last();
        let i = lemma_filed_from(init, k);
        assert(init[i] == list[i]);
        i
    }
}

/// A list compared with itself shows nothing modified.
pub proof fn law_same_list_modifies_nothing(list: Seq<TableInfoView>, k: Seq<char>)
    requires
        forall|i: int| 0 <= i < list.len() ==> distinct_extra(#[trigger] list[i]),
    ensures
        !is_modified(list, list, k),
{
    if by_url(list).contains_key(k) {
        let i = lemma_filed_from(list, k);
        assert(distinct_extra(list[i]));
        law_same_info_is_reflexive(list[i]);
    }
}

/// The difference between a list and itself is empty.
pub proof fn law_same_list_has_no_difference(diff: TableDiff, list: Seq<TableInfoView>)
    requires
        is_diff(diff, list, list),
        forall|i: int| 0 <= i < list.len() ==> distinct_extra(#[trigger] list[i]),
    ensures
        diff.added@.len() == 0,
        diff.removed@.len() == 0,
        diff.modified@.len() == 0,
{
    law_same_tables_add_and_remove_nothing(list, list);
    assert(infos_of(diff.removed@).len() == 0);
    let added = infos_of(diff.added@);
    if added.len() > 0 {
        assert(is_added(list, list, added[0].url));
    }
    let modified = infos_of(diff.modified@);
    if modified.len() > 0 {
        law_same_list_modifies_nothing(list, modified[0].url);
        assert(is_modified(list, list, modified[0].url));
    }
}

proof fn lemma_filed_has(
    infos: Map<Seq<char>, TableInfoView>,
    list: Seq<TableInfoView>,
    i: int,
)
    requires
        0 <= i < list.len(),
    ensures
        filed(infos, list).contains_key(list[i].url),
    decreases list.len(),
{
    if i < list.len() - 1 {
        assert(list.drop_last()[i] == list[i]);
        lemma_filed_has(infos, list.drop_last(), i);
    }
}

proof fn lemma_only_old_empty(
    part: Seq<TableInfoView>,
    old: Seq<TableInfoView>,
    new: Seq<TableInfoView>,
)
    requires
        by_url(old).dom() == by_url(new).dom(),
        part.len() <= old.len(),
        part == old.take(part.len() as int),
    ensures
        only_old(part, new) == Seq::<TableInfoView>::empty(),
    decreases part.len(),
{
    if part.len() > 0 {
        let init = part.drop_last();
        assert(init =~= old.take(init.len() as int));
        lemma_only_old_empty(init, old, new);
        lemma_filed_has(Map::empty(), old, part.len() - 1);
        assert(part.last() == old[part.len() - 1]);
        assert(by_url(old).dom().contains(part.last().url));
    }
}

/// No address is both added and modified, and none of a removed table is either.
pub proof fn law_differences_are_disjoint(
    old: Seq<TableInfoView>,
    new: Seq<TableInfoView>,
    url: Seq<char>,
)
    ensures
        !(is_added(old, new, url) && is_modified(old, new, url)),
        forall|i: int|
            0 <= i < only_old(old, new).len() && (#[trigger] only_old(old, new)[i]).url == url
                ==> !is_added(old, new, url) && !is_modified(old, new, url),
{
    lemma_only_old_absent(old, new);
}

proof fn lemma_only_old_absent(old: Seq<TableInfoView>, new: Seq<TableInfoView>)
    ensures
        forall|i: int|
            0 <= i < only_old(old, new).len() ==> !by_url(new).contains_key(
                (#[trigger] only_old(old, new)[i]).url,
            ),
    decreases old.len(),
{
    if old.len() > 0 {
        let before = only_old(old.drop_last(), new);
        let all = only_old(old, new);
        lemma_only_old_absent(old.drop_last(), new);
        assert forall|i: int| 0 <= i < all.len() implies !by_url(new).contains_key(
            (#[trigger] all[i]).url,
        ) by {
            if i < before.len() {
                assert(all[i] == before[i]);
            }
        }
    }
}

/// Format a human-readable changes summary like `+3/-0/~1`.
pub fn format_changes_summary(added: usize, removed: usize, modified: usize) -> (r: String)
    ensures
        r@ == "+"@ + decimal(added as nat) + "/-"@ + decimal(removed as nat) + "/~"@ + decimal(
            modified as nat,
        ),
{
    let mut out: String = text_of("+");
    out.append(decimal_text(added).as_str());
    out.append("/-");
    out.append(decimal_text(removed).as_str());
    out.append("/~");
    out.append(decimal_text(modified).as_str());
    out
}

/// The display name of a table: its name, or its address where the name is empty.
pub fn display_entry_name(info: &TableInfo) -> (r: String)
    ensures
        r@ == if info.name@.len() == 0 {
            info.url@
        } else {
            info.name@
        },
{
    if info.name.as_str().is_empty() {
        info.url.clone()
    } else {
        info.name.clone()
    }
}

// ---------------------------------------------------------------------
// Loading and updating
// ---------------------------------------------------------------------

/// A place in the table directory.
pub struct InfoFile {
    /// Whether the place is a directory.
    pub is_dir: bool,
    /// The content of its `info.json`, where that could be read.
    pub content: Option<String>,
}

/// The descriptions found in the directories among the places, in order.
pub open spec fn found_infos(places: Seq<InfoFile>) -> Seq<TableInfoView>
    decreases places.len(),
{
    if places.len() == 0 {
        Seq::empty()
    } else {
        let before = found_infos(places.drop_last());
        let last = places.last();
        if last.is_dir && last.content is Some && parsed_info(last.content->Some_0@) is Some {
            before.push(info_of(parsed_info(last.content->Some_0@)->Some_0))
        } else {
            before
        }
    }
}

/// The values of a map of descriptions that are filed by address, in ascending order of
/// addresses.
fn infos_in_order(map: &SortedMap<TableInfo>) -> (r: Vec<TableInfo>)
    requires
        filed_by_url(map@),
    ensures
        is_listing(infos_of(r@), map@, |k: Seq<char>| true),
{
    let mut list: Vec<TableInfo> = Vec::new();
    let n: usize = map.len();
    let mut i: usize = 0;
    let ghost all = |k: Seq<char>| true;
    proof {
        assert(infos_of(list@) =~= Seq::<TableInfoView>::empty());
    }
    while i < n
        invariant
            all == (|k: Seq<char>| true),
            filed_by_url(map@),
            n == map.keys().len(),
            strictly_ascending(map.keys()),
            forall|k: Seq<char>| #[trigger] map@.contains_key(k) <==> map.keys().contains(k),
            i <= n,
            is_partial_listing(infos_of(list@), map@, all, map.keys(), i as int),
        decreases n - i,
    {
        let ghost before = infos_of(list@);
        let copy: TableInfo = map.value_at(i).dup();
        list.push(copy);
        proof {
            assert(infos_of(list@) =~= before.push(copy@));
            assert(all(map.keys()[i as int]));
            lemma_listing_step(before, map@, all, map.keys(), i as int);
        }
        i += 1;
    }
    proof {
        lemma_listing_done(infos_of(list@), map@, all, map.keys());
    }
    list
}

/// The descriptions found in the directories among the places, each address once, sorted
/// by address.
pub fn load_all_table_infos(places: &Vec<InfoFile>) -> (r: Vec<TableInfo>)
    ensures
        is_listing(infos_of(r@), by_url(found_infos(places@)), |k: Seq<char>| true),
        forall|i: int| 0 <= i < r@.len() ==> distinct_extra(#[trigger] infos_of(r@)[i]),
{
    let mut map: SortedMap<TableInfo> = SortedMap::new();
    let mut i: usize = 0;
    while i < places.len()
        invariant
            i <= places@.len(),
            map@ == by_url(found_infos(places@.take(i as int))),
            forall|k: Seq<char>| #[trigger] map@.contains_key(k) ==> distinct_extra(map@[k]),
        decreases places.len() - i,
    {
        proof {
            assert(places@.take(i + 1).drop_last() =~= places@.take(i as int));
        }
        if places[i].is_dir {
            match &places[i].content {
                Some(content) => {
                    match TableInfo::parse(content.as_str()) {
                        Some(info) => {
                            let ghost before = found_infos(places@.take(i as int));
                            let ghost view = info@;
                            map.insert(info.url.clone(), info);
                            proof {
                                assert(before.push(view).drop_last() =~= before);
                            }
                        },
                        None => {},
                    }
                },
                None => {},
            }
        }
        i += 1;
    }
    proof {
        assert(places@.take(i as int) =~= places@);
        lemma_by_url(found_infos(places@));
    }
    infos_in_order(&map)
}

/// A directory whose `info.json` was read and holds no table description.
pub open spec fn is_unparsed_info(place: InfoFile) -> bool {
    place.is_dir && place.content is Some && parsed_info(place.content->Some_0@) is None
}

/// The positions of the directories whose `info.json` was read and holds no table
/// description.
pub fn unparsed_infos(places: &Vec<InfoFile>) -> (r: Vec<usize>)
    ensures
        as_numbers(r@) == positions(places@, |p: InfoFile| is_unparsed_info(p)),
{
    let ghost p = |p: InfoFile| is_unparsed_info(p);
    let mut out: Vec<usize> = Vec::new();
    let mut i: usize = 0;
    proof {
        assert(as_numbers(out@) =~= Seq::<int>::empty());
    }
    while i < places.len()
        invariant
            p == (|p: InfoFile| is_unparsed_info(p)),
            i <= places@.len(),
            as_numbers(out@) == positions(places@.take(i as int), p),
        decreases places.len() - i,
    {
        proof {
            assert(places@.take(i + 1).drop_last() =~= places@.take(i as int));
            assert(places@.take(i + 1).last() == places@[i as int]);
        }
        let unparsed: bool = match &places[i].content {
            Some(content) => places[i].is_dir && TableInfo::parse(content.as_str()).is_none(),
            None => false,
        };
        if unparsed {
            let ghost before = out@;
            out.push(i);
            proof {
                assert(as_numbers(out@) =~= as_numbers(before).push(i as int));
            }
        }
        i += 1;
    }
    proof {
        assert(places@.take(i as int) =~= places@);
    }
    out
}

/// What happens to the combined list on disk.
pub enum ListUpdate {
    /// It is written again; this is what changed, and how many entries it had.
    Regenerate(TableDiff, usize),
    /// It is written; there was none that could be read.
    Create,
    /// It stays.
    Keep,
}

/// What happens to the combined list, given the old list and whether the file needs
/// writing.
pub fn decide_update(
    old_infos: Option<&Vec<TableInfo>>,
    table_infos: &Vec<TableInfo>,
    needs_update: bool,
) -> (r: ListUpdate)
    ensures
        r is Keep <==> !needs_update,
        r is Create <==> needs_update && old_infos is None,
        r matches ListUpdate::Regenerate(diff, old_count) ==> {
            &&& old_infos is Some
            &&& old_count == old_infos->Some_0@.len()
            &&& is_diff(diff, infos_of(old_infos->Some_0@), infos_of(table_infos@))
        },
{
    if !needs_update {
        return ListUpdate::Keep;
    }
    match old_infos {
        Some(old) => ListUpdate::Regenerate(compute_table_diff(old, table_infos), old.len()),
        None => ListUpdate::Create,
    }
}

/// The difference says what was added, removed and modified between the lists.
pub open spec fn is_diff(
    diff: TableDiff,
    old: Seq<TableInfoView>,
    new: Seq<TableInfoView>,
) -> bool {
    &&& is_listing(infos_of(diff.added@), by_url(new), |k: Seq<char>| is_added(old, new, k))
    &&& is_listing(infos_of(diff.modified@), by_url(new), |k: Seq<char>| is_modified(old, new, k))
    &&& infos_of(diff.removed@) == only_old(old, new)
}

/// The descriptions that a list file held.
pub open spec fn old_list(old: OldFile) -> Option<Seq<TableInfoView>> {
    match old {
        OldFile::Content(text) => match parsed_infos(text@) {
            Some(list) => Some(list.map_values(|f: InfoFieldsView| info_of(f))),
            None => None,
        },
        _ => None,
    }
}

/// What happens to the combined list on disk, where `text` is the text of the new one: it
/// is written only where it differs from the new one in more than order, and then with a
/// report of the difference where the old list can be read.
pub open spec fn is_update(
    update: ListUpdate,
    old: OldFile,
    infos: Seq<TableInfoView>,
    text: Seq<char>,
) -> bool {
    &&& update is Keep <==> !json_changed(old, text)
    &&& update is Create <==> json_changed(old, text) && old_list(old) is None
    &&& update matches ListUpdate::Regenerate(diff, old_count) ==> {
        &&& old_list(old) is Some
        &&& old_count == old_list(old)->Some_0.len()
        &&& is_diff(diff, old_list(old)->Some_0, infos)
    }
}

/// What happens to the combined list on disk, given the text of the new one.
pub fn plan_update_with_text(
    old: &OldFile,
    table_infos: &Vec<TableInfo>,
    serialized: &str,
) -> (r: ListUpdate)
    ensures
        is_update(r, *old, infos_of(table_infos@), serialized@),
{
    let old_infos: Option<Vec<TableInfo>> = match old {
        OldFile::Content(text) => TableInfo::parse_list(text.as_str()),
        _ => None,
    };
    let needs_update = is_changed(old, serialized);
    match &old_infos {
        Some(list) => decide_update(Some(list), table_infos, needs_update),
        None => decide_update(None, table_infos, needs_update),
    }
}

/// What happens to the combined list on disk, and the text of the new one; none where
/// printing fails.
pub fn plan_update(old: &OldFile, table_infos: &Vec<TableInfo>) -> (r: Option<
    (ListUpdate, String),
>)
    ensures
        match pretty_json(list_json(infos_of(table_infos@))) {
            Some(text) => {
                &&& r is Some
                &&& r->Some_0.1@ == text
                &&& is_update(r->Some_0.0, *old, infos_of(table_infos@), text)
            },
            None => r is None,
        },
{
    match list_text(table_infos) {
        Some(text) => {
            let update = plan_update_with_text(old, table_infos, text.as_str());
            Some((update, text))
        },
        None => None,
    }
}

// ---------------------------------------------------------------------
// Laws
// ---------------------------------------------------------------------

/// An address has a description exactly where one of the list has that address, and then the
/// last such one.
pub proof fn law_last_of_each_address(list: Seq<TableInfoView>, i: int, k: Seq<char>)
    ensures
        by_url(list).contains_key(k) <==> exists|j: int|
            0 <= j < list.len() && (#[trigger] list[j]).url == k,
        0 <= i < list.len() && (forall|j: int|
            i < j < list.len() ==> (#[trigger] list[j]).url != list[i].url) ==> by_url(
            list,
        ).contains_key(list[i].url) && by_url(list)[list[i].url] == list[i],
{
    if exists|j: int| 0 <= j < list.len() && (#[trigger] list[j]).url == k {
        let j = choose|j: int| 0 <= j < list.len() && (#[trigger] list[j]).url == k;
        lemma_filed_has(Map::empty(), list, j);
    } else {
        law_filing_leaves_others(Map::empty(), list, k);
    }
    if 0 <= i < list.len() && (forall|j: int|
        i < j < list.len() ==> (#[trigger] list[j]).url != list[i].url) {
        law_last_description_stays(Map::empty(), list, i);
    }
}

/// What was added are the tables of the new list whose address the old list does not have, as
/// the new list describes them, in ascending order of addresses.
pub proof fn law_added_tables(
    diff: TableDiff,
    old: Seq<TableInfoView>,
    new: Seq<TableInfoView>,
    k: Seq<char>,
)
    requires
        is_diff(diff, old, new),
    ensures
        (exists|i: int| 0 <= i < diff.added@.len() && (#[trigger] diff.added@[i])@.url == k) <==> (
        exists|j: int| 0 <= j < new.len() && (#[trigger] new[j]).url == k) && !(exists|j: int|
            0 <= j < old.len() && (#[trigger] old[j]).url == k),
        forall|i: int|
            0 <= i < diff.added@.len() ==> (#[trigger] diff.added@[i])@ == by_url(
                new,
            )[diff.added@[i]@.url],
        forall|i: int, j: int|
            0 <= i < j < diff.added@.len() ==> text_lt(
                (#[trigger] diff.added@[i])@.url,
                (#[trigger] diff.added@[j])@.url,
            ),
{
    let added = infos_of(diff.added@);
    let keep = |k: Seq<char>| is_added(old, new, k);
    law_last_of_each_address(old, 0, k);
    law_last_of_each_address(new, 0, k);
    assert(is_listing(added, by_url(new), keep));
    if exists|i: int| 0 <= i < diff.added@.len() && (#[trigger] diff.added@[i])@.url == k {
        let i = choose|i: int| 0 <= i < diff.added@.len() && (#[trigger] diff.added@[i])@.url == k;
        assert(keep(added[i].url));
    }
    if is_added(old, new, k) {
        assert(keep(k));
        assert(info_urls(added).contains(k));
        let i = choose|i: int| 0 <= i < info_urls(added).len() && info_urls(added)[i] == k;
        assert(diff.added@[i]@.url == k);
    }
    assert forall|i: int| 0 <= i < diff.added@.len() implies (#[trigger] diff.added@[i])@ == by_url(
        new,
    )[diff.added@[i]@.url] by {
        assert(added[i] == by_url(new)[added[i].url]);
    }
    assert forall|i: int, j: int| 0 <= i < j < diff.added@.len() implies text_lt(
        (#[trigger] diff.added@[i])@.url,
        (#[trigger] diff.added@[j])@.url,
    ) by {
        assert(text_lt(info_urls(added)[i], info_urls(added)[j]));
    }
}

/// What was modified are the tables whose address both lists have with descriptions that are
/// not the same, as the new list describes them, in ascending order of addresses.
pub proof fn law_modified_tables(
    diff: TableDiff,
    old: Seq<TableInfoView>,
    new: Seq<TableInfoView>,
    k: Seq<char>,
)
    requires
        is_diff(diff, old, new),
    ensures
        (exists|i: int| 0 <= i < diff.modified@.len() && (#[trigger] diff.modified@[i])@.url == k)
            <==> (exists|j: int| 0 <= j < new.len() && (#[trigger] new[j]).url == k) && (exists|
            j: int,
        |
            0 <= j < old.len() && (#[trigger] old[j]).url == k) && !same_info(
            by_url(old)[k],
            by_url(new)[k],
        ),
        forall|i: int|
            0 <= i < diff.modified@.len() ==> (#[trigger] diff.modified@[i])@ == by_url(
                new,
            )[diff.modified@[i]@.url],
        forall|i: int, j: int|
            0 <= i < j < diff.modified@.len() ==> text_lt(
                (#[trigger] diff.modified@[i])@.url,
                (#[trigger] diff.modified@[j])@.url,
            ),
{
    let modified = infos_of(diff.modified@);
    let keep = |k: Seq<char>| is_modified(old, new, k);
    law_last_of_each_address(old, 0, k);
    law_last_of_each_address(new, 0, k);
    assert(is_listing(modified, by_url(new), keep));
    if exists|i: int| 0 <= i < diff.modified@.len() && (#[trigger] diff.modified@[i])@.url == k {
        let i = choose|i: int|
            0 <= i < diff.modified@.len() && (#[trigger] diff.modified@[i])@.url == k;
        assert(keep(modified[i].url));
    }
    if is_modified(old, new, k) {
        assert(keep(k));
        assert(info_urls(modified).contains(k));
        let i = choose|i: int| 0 <= i < info_urls(modified).len() && info_urls(modified)[i] == k;
        assert(diff.modified@[i]@.url == k);
    }
    assert forall|i: int| 0 <= i < diff.modified@.len() implies (#[trigger] diff.modified@[i])@
        == by_url(new)[diff.modified@[i]@.url] by {
        assert(modified[i] == by_url(new)[modified[i].url]);
    }
    assert forall|i: int, j: int| 0 <= i < j < diff.modified@.len() implies text_lt(
        (#[trigger] diff.modified@[i])@.url,
        (#[trigger] diff.modified@[j])@.url,
    ) by {
        assert(text_lt(info_urls(modified)[i], info_urls(modified)[j]));
    }
}

/// One more table of the old list is one more removed table, behind those before it, exactly
/// where the new list does not have its address.
pub proof fn law_removed_tables(
    diff: TableDiff,
    old: Seq<TableInfoView>,
    table: TableInfoView,
    new: Seq<TableInfoView>,
)
    ensures
        only_old(Seq::empty(), new).len() == 0,
        (exists|j: int| 0 <= j < new.len() && (#[trigger] new[j]).url == table.url) ==> only_old(
            old.push(table),
            new,
        ) == only_old(old, new),
        !(exists|j: int| 0 <= j < new.len() && (#[trigger] new[j]).url == table.url) ==> only_old(
            old.push(table),
            new,
        ) == only_old(old, new).push(table),
        is_diff(diff, old, new) ==> infos_of(diff.removed@) == only_old(old, new),
{
    law_last_of_each_address(new, 0, table.url);
    assert(old.push(table).drop_last() =~= old);
}

/// Every table whose address the list has is listed, once, as the list describes it last, in
/// ascending order of addresses, and no other.
pub proof fn law_listing_of_all(
    list: Seq<TableInfoView>,
    infos: Seq<TableInfoView>,
    k: Seq<char>,
)
    requires
        is_listing(list, by_url(infos), |k: Seq<char>| true),
    ensures
        (exists|i: int| 0 <= i < list.len() && (#[trigger] list[i]).url == k) <==> (exists|j: int|
            0 <= j < infos.len() && (#[trigger] infos[j]).url == k),
        forall|i: int|
            0 <= i < list.len() ==> #[trigger] list[i] == by_url(infos)[list[i].url],
        forall|i: int, j: int|
            0 <= i < j < list.len() ==> text_lt(
                (#[trigger] list[i]).url,
                (#[trigger] list[j]).url,
            ),
{
    let keep = |k: Seq<char>| true;
    law_last_of_each_address(infos, 0, k);
    if by_url(infos).contains_key(k) {
        assert(keep(k));
        assert(info_urls(list).contains(k));
        let i = choose|i: int| 0 <= i < info_urls(list).len() && info_urls(list)[i] == k;
        assert(list[i].url == k);
    }
    if exists|i: int| 0 <= i < list.len() && (#[trigger] list[i]).url == k {
        let i = choose|i: int| 0 <= i < list.len() && (#[trigger] list[i]).url == k;
        assert(by_url(infos).contains_key(list[i].url));
    }
    assert forall|i: int, j: int| 0 <= i < j < list.len() implies text_lt(
        (#[trigger] list[i]).url,
        (#[trigger] list[j]).url,
    ) by {
        assert(text_lt(info_urls(list)[i], info_urls(list)[j]));
    }
}

/// One more place is one more description, behind those before it, exactly where it is a
/// directory whose `info.json` could be read and holds one; it is reported exactly where it is
/// a directory whose `info.json` could be read and holds none.
pub proof fn law_one_more_directory(places: Seq<InfoFile>, place: InfoFile)
    ensures
        found_infos(Seq::empty()).len() == 0,
        place.is_dir && place.content is Some && parsed_info(place.content->Some_0@) is Some
            ==> found_infos(places.push(place)) == found_infos(places).push(
            info_of(parsed_info(place.content->Some_0@)->Some_0),
        ),
        !place.is_dir || place.content is None || parsed_info(place.content->Some_0@) is None
            ==> found_infos(places.push(place)) == found_infos(places),
        is_unparsed_info(place) <==> place.is_dir && place.content is Some && parsed_info(
            place.content->Some_0@,
        ) is None,
{
    assert(places.push(place).drop_last() =~= places);
}

/// The old list is the one that the file held: there is none where the file could not be read
/// or held none.
pub proof fn law_old_list(old: OldFile, i: int)
    ensures
        old_list(old) is Some <==> old is Content && parsed_infos(old->Content_0@) is Some,
        old_list(old) is Some ==> old_list(old)->Some_0.len() == parsed_infos(
            old->Content_0@,
        )->Some_0.len(),
        old_list(old) is Some && 0 <= i < old_list(old)->Some_0.len() ==> old_list(old)->Some_0[i]
            == info_of(parsed_infos(old->Content_0@)->Some_0[i]),
{
}

/// The list on disk stays exactly where its file needs no writing; it is written with a report
/// of what changed, and of how many tables it had, exactly where it needs writing and the old
/// list can be read, and without one where it cannot.
pub proof fn law_update_of_list(
    update: ListUpdate,
    old: OldFile,
    infos: Seq<TableInfoView>,
    text: Seq<char>,
)
    requires
        is_update(update, old, infos, text),
    ensures
        update is Keep <==> !json_changed(old, text),
        update is Create <==> json_changed(old, text) && old_list(old) is None,
        update is Regenerate <==> json_changed(old, text) && old_list(old) is Some,
        update is Regenerate ==> update->Regenerate_1 == old_list(old)->Some_0.len(),
        update is Regenerate ==> is_diff(update->Regenerate_0, old_list(old)->Some_0, infos),
{
}

} // verus!
