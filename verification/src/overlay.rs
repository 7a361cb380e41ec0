//! Active set computation: the tables to fetch, from what is on disk, lists and rules.

use vstd::prelude::*;

use crate::config::table::{config_view, ConfigView, RuleView, TableConfig, TableEntry};
use crate::ordered::{texts, Dup, NameSet, SortedMap};
use crate::rename::{dir_views, DirInfo, DirView};
use crate::sorting::{as_numbers, positions};
use crate::table::{info_of, infos_of, parsed_infos, InfoFieldsView, TableInfo, TableInfoView};
use crate::text::{chars_of, law_texts_are_ordered, lemma_text_lt_asymmetric, lemma_text_lt_transitive, str_view, strictly_ascending, string_of, string_view, text_eq, text_le, text_lt, text_of};

verus! {

// ---------------------------------------------------------------------
// Lists
// ---------------------------------------------------------------------

/// A `json` file that, where names are given, has one of them; a file whose stem is not
/// text counts as nameless.
pub open spec fn is_selected(
    extension: Option<Seq<char>>,
    stem: Option<Seq<char>>,
    list_names: Seq<Seq<char>>,
) -> bool {
    &&& extension == Some("json"@)
    &&& list_names.len() == 0 || list_names.contains(
        match stem {
            Some(s) => s,
            None => ""@,
        },
    )
}

/// Whether a file in the list directory is a list to load.
pub fn selects_list_file(
    extension: Option<&str>,
    stem: Option<&str>,
    list_names: &Vec<String>,
) -> (r: bool)
    ensures
        r == is_selected(str_view(extension), str_view(stem), texts(list_names@)),
{
    let is_json = match extension {
        Some(e) => text_eq(e, "json"),
        None => false,
    };
    if !is_json {
        return false;
    }
    if list_names.len() == 0 {
        return true;
    }
    let name: &str = match stem {
        Some(s) => s,
        None => "",
    };
    let mut i: usize = 0;
    while i < list_names.len()
        invariant
            str_view(extension) == Some("json"@),
            name@ == (match stem {
                Some(s) => s@,
                None => ""@,
            }),
            i <= list_names@.len(),
            forall|j: int| 0 <= j < i ==> (#[trigger] list_names@[j])@ != name@,
        decreases list_names.len() - i,
    {
        if text_eq(list_names[i].as_str(), name) {
            proof {
                assert(texts(list_names@)[i as int] == name@);
            }
            return true;
        }
        i += 1;
    }
    proof {
        assert forall|j: int| 0 <= j < texts(list_names@).len() implies texts(list_names@)[j]
            != name@ by {
            assert(list_names@[j]@ != name@);
        }
    }
    false
}

/// A map of descriptions with a list of descriptions filed under their addresses, a later
/// one replacing an earlier one.
pub open spec fn filed(
    infos: Map<Seq<char>, TableInfoView>,
    list: Seq<TableInfoView>,
) -> Map<Seq<char>, TableInfoView>
    decreases list.len(),
{
    if list.len() == 0 {
        infos
    } else {
        filed(infos, list.drop_last()).insert(list.last().url, list.last())
    }
}

/// All lists filed, those that could not be read left out.
pub open spec fn filed_lists(lists: Seq<Option<Seq<TableInfoView>>>) -> Map<
    Seq<char>,
    TableInfoView,
>
    decreases lists.len(),
{
    if lists.len() == 0 {
        Map::empty()
    } else {
        match lists.last() {
            Some(list) => filed(filed_lists(lists.drop_last()), list),
            None => filed_lists(lists.drop_last()),
        }
    }
}

/// The descriptions of an optional list.
pub open spec fn list_view(list: Option<Vec<TableInfo>>) -> Option<Seq<TableInfoView>> {
    match list {
        Some(infos) => Some(infos_of(infos@)),
        None => None,
    }
}

/// Files a list of descriptions under their addresses.
pub fn file_list(table_info_map: &mut SortedMap<TableInfo>, list: &Vec<TableInfo>)
    ensures
        final(table_info_map)@ == filed(old(table_info_map)@, infos_of(list@)),
{
    let ghost start = table_info_map@;
    let ghost all = infos_of(list@);
    let mut i: usize = 0;
    proof {
        assert(all.take(0) =~= Seq::<TableInfoView>::empty());
    }
    while i < list.len()
        invariant
            all == infos_of(list@),
            i <= list@.len(),
            table_info_map@ == filed(start, all.take(i as int)),
        decreases list.len() - i,
    {
        proof {
            assert(all.take(i + 1).drop_last() =~= all.take(i as int));
            assert(all.take(i + 1).last() == list@[i as int]@);
        }
        table_info_map.insert(list[i].url.clone(), list[i].dup());
        i += 1;
    }
    proof {
        assert(all.take(i as int) =~= all);
    }
}

/// The tables of all lists, in the order in which they were read; a list that could not
/// be read or parsed is `None`.
pub fn merge_lists(lists: &Vec<Option<Vec<TableInfo>>>) -> (r: SortedMap<TableInfo>)
    ensures
        r@ == filed_lists(lists@.map_values(|l: Option<Vec<TableInfo>>| list_view(l))),
{
    let ghost all = lists@.map_values(|l: Option<Vec<TableInfo>>| list_view(l));
    let mut table_info_map: SortedMap<TableInfo> = SortedMap::new();
    let mut i: usize = 0;
    while i < lists.len()
        invariant
            all == lists@.map_values(|l: Option<Vec<TableInfo>>| list_view(l)),
            i <= lists@.len(),
            table_info_map@ == filed_lists(all.take(i as int)),
        decreases lists.len() - i,
    {
        proof {
            assert(all.take(i + 1).drop_last() =~= all.take(i as int));
            assert(all.take(i + 1).last() == list_view(lists@[i as int]));
        }
        match &lists[i] {
            Some(list) => {
                file_list(&mut table_info_map, list);
            },
            None => {},
        }
        i += 1;
    }
    proof {
        assert(all.take(i as int) =~= all);
    }
    table_info_map
}

/// A file in the list directory.
pub struct ListFile {
    /// The extension of its name, where that is text.
    pub extension: Option<String>,
    /// The name without the extension, where that is text.
    pub stem: Option<String>,
    /// Its content, where that could be read.
    pub content: Option<String>,
}

/// The tables that a file contributes; none where it is not selected, could not be read
/// or is not a list of tables.
pub open spec fn file_tables(file: ListFile, list_names: Seq<Seq<char>>) -> Option<
    Seq<TableInfoView>,
> {
    if is_selected(string_view(file.extension), string_view(file.stem), list_names)
        && file.content is Some && parsed_infos(file.content->Some_0@) is Some {
        Some(
            parsed_infos(file.content->Some_0@)->Some_0.map_values(
                |f: InfoFieldsView| info_of(f),
            ),
        )
    } else {
        None
    }
}

/// The tables of the list files, optionally only of those named in `list_names`, in the
/// order in which the files were found.
pub fn load_list_files(files: &Vec<ListFile>, list_names: &Vec<String>) -> (r: SortedMap<TableInfo>)
    ensures
        r@ == filed_lists(files@.map_values(|f: ListFile| file_tables(f, texts(list_names@)))),
{
    let mut lists: Vec<Option<Vec<TableInfo>>> = Vec::new();
    let mut i: usize = 0;
    while i < files.len()
        invariant
            i <= files@.len(),
            lists@.len() == i,
            forall|j: int|
                0 <= j < i ==> list_view(#[trigger] lists@[j]) == file_tables(
                    files@[j],
                    texts(list_names@),
                ),
        decreases files.len() - i,
    {
        let file: &ListFile = &files[i];
        let extension: Option<&str> = match &file.extension {
            Some(e) => Some(e.as_str()),
            None => None,
        };
        let stem: Option<&str> = match &file.stem {
            Some(s) => Some(s.as_str()),
            None => None,
        };
        let list: Option<Vec<TableInfo>> = if selects_list_file(extension, stem, list_names) {
            match &file.content {
                Some(content) => TableInfo::parse_list(content.as_str()),
                None => None,
            }
        } else {
            None
        };
        proof {
            assert(list_view(list) == file_tables(*file, texts(list_names@)));
        }
        lists.push(list);
        i += 1;
    }
    proof {
        assert(lists@.map_values(|l: Option<Vec<TableInfo>>| list_view(l)) =~= files@.map_values(
            |f: ListFile| file_tables(f, texts(list_names@)),
        ));
    }
    merge_lists(&lists)
}

/// A list file that is selected and was read, and holds no list of tables.
pub open spec fn is_unparsed_list(file: ListFile, list_names: Seq<Seq<char>>) -> bool {
    is_selected(string_view(file.extension), string_view(file.stem), list_names)
        && file.content is Some && parsed_infos(file.content->Some_0@) is None
}

/// The positions of the list files that were read for nothing, since they hold no list of
/// tables.
pub fn unparsed_lists(files: &Vec<ListFile>, list_names: &Vec<String>) -> (r: Vec<usize>)
    ensures
        as_numbers(r@) == positions(
            files@,
            |f: ListFile| is_unparsed_list(f, texts(list_names@)),
        ),
{
    let ghost p = |f: ListFile| is_unparsed_list(f, texts(list_names@));
    let mut out: Vec<usize> = Vec::new();
    let mut i: usize = 0;
    proof {
        assert(as_numbers(out@) =~= Seq::<int>::empty());
    }
    while i < files.len()
        invariant
            p == (|f: ListFile| is_unparsed_list(f, texts(list_names@))),
            i <= files@.len(),
            as_numbers(out@) == positions(files@.take(i as int), p),
        decreases files.len() - i,
    {
        proof {
            assert(files@.take(i + 1).drop_last() =~= files@.take(i as int));
            assert(files@.take(i + 1).last() == files@[i as int]);
        }
        let file: &ListFile = &files[i];
        let extension: Option<&str> = match &file.extension {
            Some(e) => Some(e.as_str()),
            None => None,
        };
        let stem: Option<&str> = match &file.stem {
            Some(s) => Some(s.as_str()),
            None => None,
        };
        let unparsed: bool = if selects_list_file(extension, stem, list_names) {
            match &file.content {
                Some(content) => TableInfo::parse_list(content.as_str()).is_none(),
                None => false,
            }
        } else {
            false
        };
        if unparsed {
            let ghost before = out@;
            out.push(i);
            proof {
                assert(as_numbers(out@) =~= as_numbers(before).push(i as int));
            }
        }
        i += 1;
    }
    proof {
        assert(files@.take(i as int) =~= files@);
    }
    out
}

/// A list file that is selected and was read either gives its tables or is reported.
pub proof fn law_read_list_is_used_or_reported(file: ListFile, list_names: Seq<Seq<char>>)
    requires
        is_selected(string_view(file.extension), string_view(file.stem), list_names),
        file.content is Some,
    ensures
        file_tables(file, list_names) is Some <==> !is_unparsed_list(file, list_names),
{
}

// ---------------------------------------------------------------------
// Rules
// ---------------------------------------------------------------------

/// `s` without the slashes at its end.
pub open spec fn without_slashes(s: Seq<char>) -> Seq<char>
    decreases s.len(),
{
    if s.len() > 0 && s.last() == '/' {
        without_slashes(s.drop_last())
    } else {
        s
    }
}

/// `k` is the first address in the map that equals `from` up to slashes at the end.
pub open spec fn is_least_similar(
    infos: Map<Seq<char>, TableInfoView>,
    from: Seq<char>,
    k: Seq<char>,
) -> bool {
    &&& infos.contains_key(k)
    &&& without_slashes(k) == without_slashes(from)
    &&& forall|other: Seq<char>| #[trigger]
        infos.contains_key(other) && without_slashes(other) == without_slashes(from) ==> text_le(
            k,
            other,
        )
}

/// The address that a replacement of `from` applies to: `from` itself, else the first
/// that equals it up to slashes at the end.
pub open spec fn replaced_key(
    infos: Map<Seq<char>, TableInfoView>,
    from: Seq<char>,
) -> Option<Seq<char>> {
    if infos.contains_key(from) {
        Some(from)
    } else if exists|k: Seq<char>| is_least_similar(infos, from, k) {
        Some(choose|k: Seq<char>| is_least_similar(infos, from, k))
    } else {
        None
    }
}

/// The tables and the directories of the previous run.
#[verifier::ext_equal]
pub struct Layer {
    /// Descriptions by address.
    pub infos: Map<Seq<char>, TableInfoView>,
    /// Directory names by address.
    pub dirs: Map<Seq<char>, Seq<char>>,
}

/// The table at `key` moved to the address `to`, with its directory.
pub open spec fn moved_table(layer: Layer, key: Seq<char>, to: Seq<char>) -> Layer {
    Layer {
        infos: layer.infos.remove(key).insert(
            to,
            TableInfoView { url: to, ..layer.infos[key] },
        ),
        dirs: if layer.dirs.contains_key(key) {
            layer.dirs.remove(key).insert(to, layer.dirs[key])
        } else {
            layer.dirs
        },
    }
}

/// The effect of one replacement rule.
pub open spec fn replaced(layer: Layer, rule: RuleView) -> Layer {
    match replaced_key(layer.infos, rule.from) {
        Some(key) => moved_table(layer, key, rule.to),
        None => layer,
    }
}

/// The effect of the replacement rules, one after the other.
pub open spec fn replaced_all(layer: Layer, rules: Seq<RuleView>) -> Layer
    decreases rules.len(),
{
    if rules.len() == 0 {
        layer
    } else {
        replaced(replaced_all(layer, rules.drop_last()), rules.last())
    }
}

/// The addresses to be replaced that no table had when the turn of their rule came.
pub open spec fn unmatched_among(layer: Layer, rules: Seq<RuleView>) -> Seq<Seq<char>>
    decreases rules.len(),
{
    if rules.len() == 0 {
        Seq::empty()
    } else {
        let before = unmatched_among(layer, rules.drop_last());
        let now = replaced_all(layer, rules.drop_last());
        if replaced_key(now.infos, rules.last().from) is None {
            before.push(rules.last().from)
        } else {
            before
        }
    }
}

/// The map without the given addresses.
pub open spec fn without_all(
    infos: Map<Seq<char>, TableInfoView>,
    urls: Seq<Seq<char>>,
) -> Map<Seq<char>, TableInfoView>
    decreases urls.len(),
{
    if urls.len() == 0 {
        infos
    } else {
        without_all(infos, urls.drop_last()).remove(urls.last())
    }
}

/// The effect of a configuration: tables added, then addresses replaced, then tables
/// disabled.
pub open spec fn configured(layer: Layer, config: ConfigView) -> Layer {
    let added = Layer { infos: filed(layer.infos, config.table), ..layer };
    let moved = replaced_all(added, config.replace);
    Layer { infos: without_all(moved.infos, config.disable), ..moved }
}

proof fn lemma_least_similar_unique(
    infos: Map<Seq<char>, TableInfoView>,
    from: Seq<char>,
    a: Seq<char>,
    b: Seq<char>,
)
    requires
        is_least_similar(infos, from, a),
        is_least_similar(infos, from, b),
    ensures
        a == b,
{
    assert(text_le(a, b));
    assert(text_le(b, a));
    if a != b {
        lemma_text_lt_asymmetric(a, b);
    }
}

/// `s` without the slashes at its end.
fn trim_slashes(s: &str) -> (r: String)
    ensures
        r@ == without_slashes(s@),
{
    let chars = chars_of(s);
    let mut end: usize = chars.len();
    proof {
        assert(chars@.take(end as int) =~= chars@);
    }
    while end > 0 && chars[end - 1] == '/'
        invariant
            chars@ == s@,
            end <= chars@.len(),
            without_slashes(s@) == without_slashes(s@.take(end as int)),
        decreases end,
    {
        proof {
            assert(s@.take(end as int).drop_last() =~= s@.take(end - 1));
        }
        end -= 1;
    }
    proof {
        assert(s@.take(end as int) =~= s@.subrange(0, end as int));
    }
    string_of(&chars, 0, end)
}

/// The address that a replacement of `from` applies to.
fn find_replaced_key(infos: &SortedMap<TableInfo>, from: &str) -> (r: Option<String>)
    ensures
        string_view(r) == replaced_key(infos@, from@),
{
    if infos.contains_key(from) {
        return Some(text_of(from));
    }
    let wanted: String = trim_slashes(from);
    let n: usize = infos.len();
    let mut i: usize = 0;
    while i < n
        invariant
            n == infos.keys().len(),
            strictly_ascending(infos.keys()),
            forall|k: Seq<char>| #[trigger] infos@.contains_key(k) <==> infos.keys().contains(k),
            !infos@.contains_key(from@),
            wanted@ == without_slashes(from@),
            i <= n,
            forall|j: int| 0 <= j < i ==> without_slashes(#[trigger] infos.keys()[j]) != wanted@,
        decreases n - i,
    {
        let key: &String = infos.key_at(i);
        if text_eq(trim_slashes(key.as_str()).as_str(), wanted.as_str()) {
            proof {
                let k = key@;
                assert(infos.keys().contains(k));
                assert forall|other: Seq<char>| #[trigger]
                    infos@.contains_key(other) && without_slashes(other) == without_slashes(
                        from@,
                    ) implies text_le(k, other) by {
                    let j = choose|j: int|
                        0 <= j < infos.keys().len() && infos.keys()[j] == other;
                    assert(without_slashes(infos.keys()[j]) == wanted@);
                    if i < j {
                        assert(text_lt(infos.keys()[i as int], infos.keys()[j]));
                    }
                }
                assert(is_least_similar(infos@, from@, k));
                lemma_least_similar_unique(
                    infos@,
                    from@,
                    k,
                    choose|k: Seq<char>| is_least_similar(infos@, from@, k),
                );
            }
            return Some(key.clone());
        }
        i += 1;
    }
    proof {
        if exists|k: Seq<char>| is_least_similar(infos@, from@, k) {
            let k = choose|k: Seq<char>| is_least_similar(infos@, from@, k);
            assert(infos.keys().contains(k));
            let j = choose|j: int| 0 <= j < infos.keys().len() && infos.keys()[j] == k;
            assert(without_slashes(infos.keys()[j]) != wanted@);
        }
    }
    None
}

/// Applies one replacement rule.
fn apply_replace(
    table_info_map: &mut SortedMap<TableInfo>,
    old_dir_map: &mut SortedMap<String>,
    from: &str,
    to: &String,
)
    ensures
        (Layer { infos: final(table_info_map)@, dirs: final(old_dir_map)@ }) == replaced(
            Layer { infos: old(table_info_map)@, dirs: old(old_dir_map)@ },
            RuleView { from: from@, to: to@ },
        ),
{
    let ghost infos = table_info_map@;
    let ghost dirs = old_dir_map@;
    let key: String = match find_replaced_key(table_info_map, from) {
        Some(k) => k,
        None => {
            return ;
        },
    };
    proof {
        assert(infos.contains_key(key@)) by {
            if !infos.contains_key(from@) {
                assert(is_least_similar(infos, from@, key@));
            }
        }
    }
    match table_info_map.remove(key.as_str()) {
        Some(info) => {
            let TableInfo { name, symbol, url: _, extra } = info;
            table_info_map.insert(
                to.clone(),
                TableInfo { name, symbol, url: to.clone(), extra },
            );
        },
        None => {},
    }
    match old_dir_map.remove(key.as_str()) {
        Some(dir_name) => {
            old_dir_map.insert(to.clone(), dir_name);
        },
        None => {
            proof {
                assert(dirs.remove(key@) =~= dirs);
            }
        },
    }
}

/// Adds the tables of a configuration.
fn add_tables(table_info_map: &mut SortedMap<TableInfo>, config: &TableConfig)
    ensures
        final(table_info_map)@ == filed(old(table_info_map)@, config_view(*config).table),
{
    let ghost start = table_info_map@;
    let ghost rules = config_view(*config);
    let mut i: usize = 0;
    proof {
        assert(rules.table.take(0) =~= Seq::<TableInfoView>::empty());
    }
    while i < config.table.len()
        invariant
            rules == config_view(*config),
            i <= config.table@.len(),
            table_info_map@ == filed(start, rules.table.take(i as int)),
        decreases config.table.len() - i,
    {
        proof {
            assert(rules.table.take(i + 1).drop_last() =~= rules.table.take(i as int));
            assert(rules.table.take(i + 1).last() == config.table@[i as int]@);
        }
        let item: &TableEntry = &config.table[i];
        let copied = TableEntry {
            name: item.name.clone(),
            url: item.url.clone(),
            symbol: item.symbol.clone(),
            extra: item.extra.dup(),
        };
        let info: TableInfo = TableInfo::from(copied);
        table_info_map.insert(item.url.clone(), info);
        i += 1;
    }
    proof {
        assert(rules.table.take(i as int) =~= rules.table);
    }
}

/// Apply add/replace/disable rules from `config` to `table_info_map` in place.
///
/// A replacement also moves the directory name in `old_dir_map`, so that rename logic can
/// find the old directory under the new address.
pub fn apply_config(
    table_info_map: &mut SortedMap<TableInfo>,
    config: &TableConfig,
    old_dir_map: &mut SortedMap<String>,
)
    ensures
        (Layer { infos: final(table_info_map)@, dirs: final(old_dir_map)@ }) == configured(
            Layer { infos: old(table_info_map)@, dirs: old(old_dir_map)@ },
            config_view(*config),
        ),
{
    let ghost start = Layer { infos: table_info_map@, dirs: old_dir_map@ };
    let ghost rules = config_view(*config);
    add_tables(table_info_map, config);
    let mut i: usize = 0;
    let ghost added = Layer { infos: table_info_map@, ..start };
    proof {
        assert(rules.replace.take(0) =~= Seq::<RuleView>::empty());
    }
    while i < config.replace.len()
        invariant
            rules == config_view(*config),
            i <= config.replace@.len(),
            (Layer { infos: table_info_map@, dirs: old_dir_map@ }) == replaced_all(
                added,
                rules.replace.take(i as int),
            ),
        decreases config.replace.len() - i,
    {
        proof {
            assert(rules.replace.take(i + 1).drop_last() =~= rules.replace.take(i as int));
            assert(rules.replace.take(i + 1).last() == config.replace@[i as int]@);
        }
        apply_replace(
            table_info_map,
            old_dir_map,
            config.replace[i].from.as_str(),
            &config.replace[i].to,
        );
        i += 1;
    }
    let ghost moved = Layer { infos: table_info_map@, dirs: old_dir_map@ };
    proof {
        assert(rules.replace.take(i as int) =~= rules.replace);
        assert(rules.disable.take(0) =~= Seq::<Seq<char>>::empty());
    }
    i = 0;
    while i < config.disable.len()
        invariant
            rules == config_view(*config),
            i <= config.disable@.len(),
            table_info_map@ == without_all(moved.infos, rules.disable.take(i as int)),
            old_dir_map@ == moved.dirs,
        decreases config.disable.len() - i,
    {
        proof {
            assert(rules.disable.take(i + 1).drop_last() =~= rules.disable.take(i as int));
            assert(rules.disable.take(i + 1).last() == config.disable@[i as int]@);
        }
        let _ = table_info_map.remove(config.disable[i].url.as_str());
        i += 1;
    }
    proof {
        assert(rules.disable.take(i as int) =~= rules.disable);
    }
}

/// The addresses to be replaced that no table has, given the tables of disk and lists.
pub open spec fn unmatched_in(
    infos: Map<Seq<char>, TableInfoView>,
    config: Option<ConfigView>,
) -> Seq<Seq<char>> {
    match config {
        Some(c) => unmatched_among(
            Layer { infos: filed(infos, c.table), dirs: Map::empty() },
            c.replace,
        ),
        None => Seq::empty(),
    }
}

/// The addresses to be replaced that no table has, given the tables of disk and lists, in
/// the order of their rules.
pub fn unmatched_rules(
    base_info_map: SortedMap<TableInfo>,
    list_map: &SortedMap<TableInfo>,
    config: Option<&TableConfig>,
) -> (r: Vec<String>)
    ensures
        texts(r@) == unmatched_in(
            base_info_map@.union_prefer_right(list_map@),
            optional_config(config),
        ),
{
    let mut out: Vec<String> = Vec::new();
    proof {
        assert(texts(out@) =~= Seq::<Seq<char>>::empty());
    }
    let config: &TableConfig = match config {
        Some(c) => c,
        None => {
            return out;
        },
    };
    let mut infos: SortedMap<TableInfo> = base_info_map;
    let mut dirs: SortedMap<String> = SortedMap::new();
    extend(&mut infos, list_map);
    add_tables(&mut infos, config);
    let ghost start = Layer { infos: infos@, dirs: dirs@ };
    let ghost rules = config_view(*config).replace;
    let mut i: usize = 0;
    proof {
        assert(rules.take(0) =~= Seq::<RuleView>::empty());
    }
    while i < config.replace.len()
        invariant
            rules == config_view(*config).replace,
            i <= config.replace@.len(),
            (Layer { infos: infos@, dirs: dirs@ }) == replaced_all(start, rules.take(i as int)),
            texts(out@) == unmatched_among(start, rules.take(i as int)),
        decreases config.replace.len() - i,
    {
        proof {
            assert(rules.take(i + 1).drop_last() =~= rules.take(i as int));
            assert(rules.take(i + 1).last() == config.replace@[i as int]@);
        }
        let from: &String = &config.replace[i].from;
        if find_replaced_key(&infos, from.as_str()).is_none() {
            let ghost before = out@;
            let copy: String = from.clone();
            out.push(copy);
            proof {
                assert(texts(out@) =~= texts(before).push(copy@));
            }
        }
        apply_replace(&mut infos, &mut dirs, from.as_str(), &config.replace[i].to);
        i += 1;
    }
    proof {
        assert(rules.take(i as int) =~= rules);
    }
    out
}

/// Which rules find a table does not depend on the directories, so that what is reported
/// for a configuration is what it meets when it is applied.
pub proof fn law_directories_decide_no_match(
    infos: Map<Seq<char>, TableInfoView>,
    dirs: Map<Seq<char>, Seq<char>>,
    rules: Seq<RuleView>,
)
    ensures
        replaced_all(Layer { infos, dirs }, rules).infos == replaced_all(
            Layer { infos, dirs: Map::empty() },
            rules,
        ).infos,
        unmatched_among(Layer { infos, dirs }, rules) == unmatched_among(
            Layer { infos, dirs: Map::empty() },
            rules,
        ),
    decreases rules.len(),
{
    if rules.len() > 0 {
        law_directories_decide_no_match(infos, dirs, rules.drop_last());
    }
}

/// A configuration none of whose rules is reported replaces an address with every rule.
pub proof fn law_unreported_rule_replaces(layer: Layer, rules: Seq<RuleView>, i: int)
    requires
        unmatched_among(layer, rules).len() == 0,
        0 <= i < rules.len(),
    ensures
        replaced_key(replaced_all(layer, rules.take(i)).infos, rules[i].from) is Some,
    decreases rules.len(),
{
    let init = rules.drop_last();
    if i < init.len() {
        law_unreported_rule_replaces(layer, init, i);
        assert(init.take(i) =~= rules.take(i));
        assert(init[i] == rules[i]);
    } else {
        assert(rules.take(i) =~= init);
    }
}

// ---------------------------------------------------------------------
// The active set
// ---------------------------------------------------------------------

/// Active table set after applying list overlay and config rules.
pub struct ActiveSet {
    /// Addresses that are considered active.
    pub active_urls: NameSet,
    /// All active tables by address.
    pub table_info_map: SortedMap<TableInfo>,
    /// The directory name that each address had in the previous run.
    pub old_dir_map: SortedMap<String>,
}

/// The tables and directories of the active set.
pub open spec fn active_layer(
    base: Layer,
    lists: Map<Seq<char>, TableInfoView>,
    config: Option<ConfigView>,
) -> Layer {
    let overlaid = Layer { infos: base.infos.union_prefer_right(lists), ..base };
    match config {
        Some(c) => configured(overlaid, c),
        None => overlaid,
    }
}

/// The rules of an optional configuration.
pub open spec fn optional_config(config: Option<&TableConfig>) -> Option<ConfigView> {
    match config {
        Some(c) => Some(config_view(*c)),
        None => None,
    }
}

/// Lays a map of descriptions over another.
fn extend(infos: &mut SortedMap<TableInfo>, lists: &SortedMap<TableInfo>)
    ensures
        final(infos)@ == old(infos)@.union_prefer_right(lists@),
{
    let ghost base = infos@;
    let n: usize = lists.len();
    let mut i: usize = 0;
    while i < n
        invariant
            n == lists.keys().len(),
            forall|k: Seq<char>| #[trigger] lists@.contains_key(k) <==> lists.keys().contains(k),
            i <= n,
            forall|k: Seq<char>| #[trigger]
                infos@.contains_key(k) <==> base.contains_key(k) || lists.keys().take(
                    i as int,
                ).contains(k),
            forall|k: Seq<char>| #[trigger]
                infos@.contains_key(k) ==> infos@[k] == if lists.keys().take(i as int).contains(k) {
                    lists@[k]
                } else {
                    base[k]
                },
        decreases n - i,
    {
        let ghost key = lists.keys()[i as int];
        infos.insert(lists.key_at(i).clone(), lists.value_at(i).dup());
        proof {
            let a = lists.keys().take(i as int);
            let b = lists.keys().take(i + 1);
            assert(b =~= a.push(key));
            assert forall|k: Seq<char>| b.contains(k) <==> a.contains(k) || k == key by {
                if a.contains(k) {
                    let j = choose|j: int| 0 <= j < a.len() && a[j] == k;
                    assert(b[j] == k);
                }
                if k == key {
                    assert(b[i as int] == key);
                }
            }
        }
        i += 1;
    }
    proof {
        assert(lists.keys().take(i as int) =~= lists.keys());
        assert(infos@ =~= base.union_prefer_right(lists@));
    }
}

/// The addresses of a map of descriptions.
pub fn urls_of(infos: &SortedMap<TableInfo>) -> (r: NameSet)
    ensures
        r@ == infos@.dom(),
{
    let mut urls = NameSet::new();
    let n: usize = infos.len();
    let mut i: usize = 0;
    while i < n
        invariant
            n == infos.keys().len(),
            forall|k: Seq<char>| #[trigger] infos@.contains_key(k) <==> infos.keys().contains(k),
            i <= n,
            forall|k: Seq<char>| #[trigger]
                urls@.contains(k) <==> infos.keys().take(i as int).contains(k),
        decreases n - i,
    {
        let ghost key = infos.keys()[i as int];
        urls.insert(infos.key_at(i).clone());
        proof {
            let a = infos.keys().take(i as int);
            let b = infos.keys().take(i + 1);
            assert(b =~= a.push(key));
            assert forall|k: Seq<char>| b.contains(k) <==> a.contains(k) || k == key by {
                if a.contains(k) {
                    let j = choose|j: int| 0 <= j < a.len() && a[j] == k;
                    assert(b[j] == k);
                }
                if k == key {
                    assert(b[i as int] == key);
                }
            }
        }
        i += 1;
    }
    proof {
        assert(infos.keys().take(i as int) =~= infos.keys());
        assert forall|k: Seq<char>| urls@.contains(k) <==> infos@.dom().contains(k) by {
            assert(infos@.contains_key(k) <==> infos.keys().contains(k));
        }
        assert(urls@ =~= infos@.dom());
    }
    urls
}

/// Build the active table set: what is on disk, overlaid with the lists, then changed by
/// the rules. Without a readable configuration no rule applies.
pub fn build_active_set(
    base_info_map: SortedMap<TableInfo>,
    old_dir_map: SortedMap<String>,
    list_map: &SortedMap<TableInfo>,
    config: Option<&TableConfig>,
) -> (r: ActiveSet)
    ensures
        (Layer { infos: r.table_info_map@, dirs: r.old_dir_map@ }) == active_layer(
            Layer { infos: base_info_map@, dirs: old_dir_map@ },
            list_map@,
            optional_config(config),
        ),
        r.active_urls@ == r.table_info_map@.dom(),
{
    let mut table_info_map = base_info_map;
    let mut dirs = old_dir_map;
    extend(&mut table_info_map, list_map);
    match config {
        Some(cfg) => {
            apply_config(&mut table_info_map, cfg, &mut dirs);
        },
        None => {},
    }
    let active_urls = urls_of(&table_info_map);
    ActiveSet { active_urls, table_info_map, old_dir_map: dirs }
}

// ---------------------------------------------------------------------
// The base layer
// ---------------------------------------------------------------------

/// The descriptions in a list of directories.
pub open spec fn dir_infos(entries: Seq<DirView>) -> Seq<TableInfoView> {
    entries.map_values(|e: DirView| e.info)
}

/// The directory of each address, a later directory replacing an earlier one.
pub open spec fn dirs_by_url(entries: Seq<DirView>) -> Map<Seq<char>, Seq<char>>
    decreases entries.len(),
{
    if entries.len() == 0 {
        Map::empty()
    } else {
        dirs_by_url(entries.drop_last()).insert(entries.last().info.url, entries.last().dir_name)
    }
}

/// The base layer that a scan gives: descriptions and directory names by address.
pub fn base_layer<E: DirInfo>(entries: &Vec<E>) -> (r: (SortedMap<TableInfo>, SortedMap<String>))
    ensures
        r.0@ == filed(Map::empty(), dir_infos(dir_views(entries@))),
        r.1@ == dirs_by_url(dir_views(entries@)),
{
    let ghost all = dir_views(entries@);
    let ghost infos = dir_infos(all);
    let mut table_info_map: SortedMap<TableInfo> = SortedMap::new();
    let mut old_dir_map: SortedMap<String> = SortedMap::new();
    let mut i: usize = 0;
    proof {
        assert(all.take(0) =~= Seq::<DirView>::empty());
        assert(infos.take(0) =~= Seq::<TableInfoView>::empty());
    }
    while i < entries.len()
        invariant
            all == dir_views(entries@),
            infos == dir_infos(all),
            i <= entries@.len(),
            table_info_map@ == filed(Map::empty(), infos.take(i as int)),
            old_dir_map@ == dirs_by_url(all.take(i as int)),
        decreases entries.len() - i,
    {
        proof {
            assert(all.take(i + 1).drop_last() =~= all.take(i as int));
            assert(infos.take(i + 1).drop_last() =~= infos.take(i as int));
            assert(all.take(i + 1).last() == entries@[i as int].entry());
            assert(infos.take(i + 1).last() == entries@[i as int].entry().info);
        }
        let info: &TableInfo = entries[i].info();
        old_dir_map.insert(info.url.clone(), text_of(entries[i].dir_name()));
        table_info_map.insert(info.url.clone(), info.dup());
        i += 1;
    }
    proof {
        assert(all.take(i as int) =~= all);
        assert(infos.take(i as int) =~= infos);
    }
    (table_info_map, old_dir_map)
}

// ---------------------------------------------------------------------
// Laws
// ---------------------------------------------------------------------

/// Every description is filed under its own address.
pub open spec fn filed_by_url(infos: Map<Seq<char>, TableInfoView>) -> bool {
    forall|k: Seq<char>| #[trigger] infos.contains_key(k) ==> infos[k].url == k
}

proof fn lemma_filed_by_url(infos: Map<Seq<char>, TableInfoView>, list: Seq<TableInfoView>)
    requires
        filed_by_url(infos),
    ensures
        filed_by_url(filed(infos, list)),
    decreases list.len(),
{
    if list.len() > 0 {
        lemma_filed_by_url(infos, list.drop_last());
    }
}

/// The lists, however many and in whatever order, file every description under its own
/// address.
pub proof fn law_lists_are_filed_by_url(lists: Seq<Option<Seq<TableInfoView>>>)
    ensures
        filed_by_url(filed_lists(lists)),
    decreases lists.len(),
{
    if lists.len() > 0 {
        law_lists_are_filed_by_url(lists.drop_last());
        if lists.last() is Some {
            lemma_filed_by_url(filed_lists(lists.drop_last()), lists.last()->Some_0);
        }
    }
}

/// What a scan gives is filed by address.
pub proof fn law_base_layer_is_filed_by_url(entries: Seq<DirView>)
    ensures
        filed_by_url(filed(Map::empty(), dir_infos(entries))),
{
    lemma_filed_by_url(Map::empty(), dir_infos(entries));
}

proof fn lemma_replaced_by_url(layer: Layer, rules: Seq<RuleView>)
    requires
        filed_by_url(layer.infos),
    ensures
        filed_by_url(replaced_all(layer, rules).infos),
    decreases rules.len(),
{
    if rules.len() > 0 {
        lemma_replaced_by_url(layer, rules.drop_last());
    }
}

proof fn lemma_without_all(
    infos: Map<Seq<char>, TableInfoView>,
    urls: Seq<Seq<char>>,
    k: Seq<char>,
)
    ensures
        without_all(infos, urls).contains_key(k) <==> infos.contains_key(k) && !urls.contains(k),
        without_all(infos, urls).contains_key(k) ==> without_all(infos, urls)[k] == infos[k],
    decreases urls.len(),
{
    if urls.len() > 0 {
        let init = urls.drop_last();
        lemma_without_all(infos, init, k);
        assert(urls.contains(k) <==> init.contains(k) || k == urls.last()) by {
            if init.contains(k) {
                let j = choose|j: int| 0 <= j < init.len() && init[j] == k;
                assert(urls[j] == k);
            }
            if urls.contains(k) {
                let j = choose|j: int| 0 <= j < urls.len() && urls[j] == k;
                if j < init.len() {
                    assert(init[j] == k);
                }
            }
            assert(urls[urls.len() - 1] == urls.last());
        }
    }
}

/// In the active set every description stands under its own address, as it does in the
/// layers the set is built from: a replacement changes the address in both places.
pub proof fn law_active_set_is_filed_by_url(
    base: Layer,
    lists: Map<Seq<char>, TableInfoView>,
    config: Option<ConfigView>,
)
    requires
        filed_by_url(base.infos),
        filed_by_url(lists),
    ensures
        filed_by_url(active_layer(base, lists, config).infos),
{
    let overlaid = Layer { infos: base.infos.union_prefer_right(lists), ..base };
    assert(filed_by_url(overlaid.infos));
    if config is Some {
        let c = config->Some_0;
        lemma_filed_by_url(overlaid.infos, c.table);
        let added = Layer { infos: filed(overlaid.infos, c.table), ..overlaid };
        lemma_replaced_by_url(added, c.replace);
        let moved = replaced_all(added, c.replace);
        assert forall|k: Seq<char>| #[trigger]
            without_all(moved.infos, c.disable).contains_key(k) implies without_all(
            moved.infos,
            c.disable,
        )[k].url == k by {
            lemma_without_all(moved.infos, c.disable, k);
        }
    }
}

/// A disabled address is never active, wherever the table came from.
pub proof fn law_disabled_table_is_inactive(
    base: Layer,
    lists: Map<Seq<char>, TableInfoView>,
    config: ConfigView,
    url: Seq<char>,
)
    requires
        config.disable.contains(url),
    ensures
        !active_layer(base, lists, Some(config)).infos.contains_key(url),
{
    let overlaid = Layer { infos: base.infos.union_prefer_right(lists), ..base };
    let moved = replaced_all(
        Layer { infos: filed(overlaid.infos, config.table), ..overlaid },
        config.replace,
    );
    lemma_without_all(moved.infos, config.disable, url);
}

/// A replacement that finds its table moves the table and its directory to the new
/// address, and leaves nothing at the old one unless both are the same.
pub proof fn law_replacement_carries_directory(layer: Layer, rule: RuleView)
    requires
        replaced_key(layer.infos, rule.from) is Some,
    ensures
        ({
            let key = replaced_key(layer.infos, rule.from)->Some_0;
            let after = replaced(layer, rule);
            &&& layer.infos.contains_key(key)
            &&& without_slashes(key) == without_slashes(rule.from)
            &&& after.infos.contains_key(rule.to)
            &&& after.infos[rule.to] == (TableInfoView { url: rule.to, ..layer.infos[key] })
            &&& layer.dirs.contains_key(key) ==> after.dirs.contains_key(rule.to)
                && after.dirs[rule.to] == layer.dirs[key]
            &&& key != rule.to ==> !after.infos.contains_key(key) && !after.dirs.contains_key(key)
        }),
{
    let key = replaced_key(layer.infos, rule.from)->Some_0;
    if !layer.infos.contains_key(rule.from) {
        assert(is_least_similar(layer.infos, rule.from, key));
    }
}

/// A replacement leaves every other table and directory alone.
pub proof fn law_replacement_leaves_others(layer: Layer, rule: RuleView, k: Seq<char>)
    requires
        replaced_key(layer.infos, rule.from) != Some(k),
        k != rule.to,
    ensures
        replaced(layer, rule).infos.contains_key(k) <==> layer.infos.contains_key(k),
        layer.infos.contains_key(k) ==> replaced(layer, rule).infos[k] == layer.infos[k],
        replaced(layer, rule).dirs.contains_key(k) <==> layer.dirs.contains_key(k),
        layer.dirs.contains_key(k) ==> replaced(layer, rule).dirs[k] == layer.dirs[k],
{
}

/// Where no rule names it, a listed table is active as the list describes it, and a table
/// that is only on disk is active as the disk describes it.
pub proof fn law_lists_win_over_disk(
    base: Layer,
    lists: Map<Seq<char>, TableInfoView>,
    url: Seq<char>,
)
    ensures
        active_layer(base, lists, None).infos.contains_key(url) <==> lists.contains_key(url)
            || base.infos.contains_key(url),
        lists.contains_key(url) ==> active_layer(base, lists, None).infos[url] == lists[url],
        !lists.contains_key(url) && base.infos.contains_key(url) ==> active_layer(
            base,
            lists,
            None,
        ).infos[url] == base.infos[url],
        active_layer(base, lists, None).dirs == base.dirs,
{
}

/// A slash at the end of an address makes no difference to what a rule matches, and an
/// address that does not end in one is compared as it is.
pub proof fn law_slashes_at_the_end(s: Seq<char>)
    ensures
        without_slashes(s.push('/')) == without_slashes(s),
        s.len() == 0 || s.last() != '/' ==> without_slashes(s) == s,
{
    assert(s.push('/').drop_last() =~= s);
}

/// A rule whose `from` no table has, neither exactly nor up to slashes at the end, leaves all
/// tables and all directories as they are, the one at `to` among them.
pub proof fn law_unmatched_rule_changes_nothing(layer: Layer, rule: RuleView)
    requires
        forall|k: Seq<char>| #[trigger]
            layer.infos.contains_key(k) ==> k != rule.from && without_slashes(k) != without_slashes(
                rule.from,
            ),
    ensures
        replaced(layer, rule).infos == layer.infos,
        replaced(layer, rule).dirs == layer.dirs,
        replaced_key(layer.infos, rule.from) is None,
{
    if exists|k: Seq<char>| is_least_similar(layer.infos, rule.from, k) {
        let k = choose|k: Seq<char>| is_least_similar(layer.infos, rule.from, k);
        assert(layer.infos.contains_key(k));
    }
}

/// A rule moves the table at `from` to `to`, or, where no table stands at `from` exactly, the
/// first in the order of addresses whose address equals `from` up to slashes at the end. The
/// table keeps everything but its address, its directory moves with it, and every other table
/// and directory stays.
pub proof fn law_matched_rule_moves_table(layer: Layer, rule: RuleView, key: Seq<char>, k: Seq<char>)
    requires
        layer.infos.contains_key(key),
        key == rule.from || {
            &&& !layer.infos.contains_key(rule.from)
            &&& without_slashes(key) == without_slashes(rule.from)
            &&& forall|other: Seq<char>| #[trigger]
                layer.infos.contains_key(other) && without_slashes(other) == without_slashes(
                    rule.from,
                ) ==> other == key || text_lt(key, other)
        },
    ensures
        ({
            let after = replaced(layer, rule);
            &&& after.infos.contains_key(k) <==> k == rule.to || k != key
                && layer.infos.contains_key(k)
            &&& after.infos[rule.to].name == layer.infos[key].name
            &&& after.infos[rule.to].symbol == layer.infos[key].symbol
            &&& after.infos[rule.to].extra == layer.infos[key].extra
            &&& after.infos[rule.to].url == rule.to
            &&& k != rule.to && after.infos.contains_key(k) ==> after.infos[k] == layer.infos[k]
            &&& layer.dirs.contains_key(key) ==> {
                &&& after.dirs.contains_key(k) <==> k == rule.to || k != key
                    && layer.dirs.contains_key(k)
                &&& after.dirs[rule.to] == layer.dirs[key]
                &&& k != rule.to && after.dirs.contains_key(k) ==> after.dirs[k] == layer.dirs[k]
            }
            &&& !layer.dirs.contains_key(key) ==> after.dirs == layer.dirs
        }),
{
    if key != rule.from {
        assert(is_least_similar(layer.infos, rule.from, key)) by {
            assert forall|other: Seq<char>| #[trigger]
                layer.infos.contains_key(other) && without_slashes(other) == without_slashes(
                    rule.from,
                ) implies text_le(key, other) by {}
        }
        lemma_least_similar_unique(
            layer.infos,
            rule.from,
            key,
            choose|k: Seq<char>| is_least_similar(layer.infos, rule.from, k),
        );
    }
    assert(replaced_key(layer.infos, rule.from) == Some(key));
}

proof fn lemma_least_text(s: Set<Seq<char>>) -> (least: Seq<char>)
    requires
        s.finite(),
        s.len() > 0,
    ensures
        s.contains(least),
        forall|k: Seq<char>| #[trigger] s.contains(k) ==> text_le(least, k),
    decreases s.len(),
{
    let a = s.choose();
    let rest = s.remove(a);
    if rest.len() == 0 {
        assert forall|k: Seq<char>| #[trigger] s.contains(k) implies text_le(a, k) by {
            if k != a {
                assert(rest.contains(k));
            }
        }
        a
    } else {
        let b = lemma_least_text(rest);
        law_texts_are_ordered(a, b);
        if text_le(a, b) {
            assert forall|k: Seq<char>| #[trigger] s.contains(k) implies text_le(a, k) by {
                if k != a {
                    assert(rest.contains(k));
                    if a != b && b != k {
                        lemma_text_lt_transitive(a, b, k);
                    }
                }
            }
            a
        } else {
            assert forall|k: Seq<char>| #[trigger] s.contains(k) implies text_le(b, k) by {
                if k != a {
                    assert(rest.contains(k));
                }
            }
            b
        }
    }
}

/// A rule finds a table exactly where one stands at `from` or at an address that equals it
/// up to slashes at the end.
pub proof fn law_rule_finds_any_match(infos: Map<Seq<char>, TableInfoView>, from: Seq<char>)
    requires
        infos.dom().finite(),
    ensures
        replaced_key(infos, from) is Some <==> exists|k: Seq<char>| #[trigger]
            infos.contains_key(k) && (k == from || without_slashes(k) == without_slashes(from)),
{
    let similar = infos.dom().filter(
        |k: Seq<char>| without_slashes(k) == without_slashes(from),
    );
    infos.dom().lemma_len_filter(|k: Seq<char>| without_slashes(k) == without_slashes(from));
    if exists|k: Seq<char>| #[trigger]
        infos.contains_key(k) && (k == from || without_slashes(k) == without_slashes(from)) {
        let k = choose|k: Seq<char>| #[trigger]
            infos.contains_key(k) && (k == from || without_slashes(k) == without_slashes(from));
        assert(similar.contains(k));
        if similar.len() == 0 {
            assert(similar =~= Set::empty());
        }
        let least = lemma_least_text(similar);
        assert(is_least_similar(infos, from, least)) by {
            assert forall|other: Seq<char>| #[trigger]
                infos.contains_key(other) && without_slashes(other) == without_slashes(
                    from,
                ) implies text_le(least, other) by {
                assert(similar.contains(other));
            }
        }
    }
    if replaced_key(infos, from) is Some && !infos.contains_key(from) {
        let k = choose|k: Seq<char>| is_least_similar(infos, from, k);
        assert(infos.contains_key(k));
    }
}

/// Rules apply one after the other, and none changes nothing.
pub proof fn law_rules_apply_in_turn(layer: Layer, rules: Seq<RuleView>, rule: RuleView)
    ensures
        replaced_all(layer, Seq::empty()) == layer,
        replaced_all(layer, rules.push(rule)) == replaced(replaced_all(layer, rules), rule),
{
    assert(rules.push(rule).drop_last() =~= rules);
}

/// Of the descriptions filed under one address the last stays.
pub proof fn law_last_description_stays(
    infos: Map<Seq<char>, TableInfoView>,
    list: Seq<TableInfoView>,
    i: int,
)
    requires
        0 <= i < list.len(),
        forall|j: int| i < j < list.len() ==> (#[trigger] list[j]).url != list[i].url,
    ensures
        filed(infos, list).contains_key(list[i].url),
        filed(infos, list)[list[i].url] == list[i],
    decreases list.len(),
{
    let init = list.drop_last();
    if i < init.len() {
        assert forall|j: int| i < j < init.len() implies (#[trigger] init[j]).url != init[i].url by {
            assert(init[j] == list[j]);
        }
        law_last_description_stays(infos, init, i);
        assert(list[list.len() - 1].url != list[i].url);
    }
}

/// What stood under an address that no filed description has stays as it was.
pub proof fn law_filing_leaves_others(
    infos: Map<Seq<char>, TableInfoView>,
    list: Seq<TableInfoView>,
    k: Seq<char>,
)
    requires
        forall|i: int| 0 <= i < list.len() ==> (#[trigger] list[i]).url != k,
    ensures
        filed(infos, list).contains_key(k) <==> infos.contains_key(k),
        infos.contains_key(k) ==> filed(infos, list)[k] == infos[k],
    decreases list.len(),
{
    if list.len() > 0 {
        let init = list.drop_last();
        assert forall|i: int| 0 <= i < init.len() implies (#[trigger] init[i]).url != k by {
            assert(init[i] == list[i]);
        }
        law_filing_leaves_others(infos, init, k);
        assert(list[list.len() - 1].url != k);
    }
}

/// Of the directories with one address the last stays.
pub proof fn law_last_directory_stays(entries: Seq<DirView>, i: int)
    requires
        0 <= i < entries.len(),
        forall|j: int| i < j < entries.len() ==> (#[trigger] entries[j]).info.url
            != entries[i].info.url,
    ensures
        dirs_by_url(entries).contains_key(entries[i].info.url),
        dirs_by_url(entries)[entries[i].info.url] == entries[i].dir_name,
    decreases entries.len(),
{
    let init = entries.drop_last();
    if i < init.len() {
        assert forall|j: int| i < j < init.len() implies (#[trigger] init[j]).info.url
            != init[i].info.url by {
            assert(init[j] == entries[j]);
        }
        law_last_directory_stays(init, i);
        assert(entries[entries.len() - 1].info.url != entries[i].info.url);
    }
}

/// An address that no directory has is in no base layer.
pub proof fn law_no_directory_for_others(entries: Seq<DirView>, k: Seq<char>)
    requires
        forall|i: int| 0 <= i < entries.len() ==> (#[trigger] entries[i]).info.url != k,
    ensures
        !dirs_by_url(entries).contains_key(k),
    decreases entries.len(),
{
    if entries.len() > 0 {
        let init = entries.drop_last();
        assert forall|i: int| 0 <= i < init.len() implies (#[trigger] init[i]).info.url != k by {
            assert(init[i] == entries[i]);
        }
        law_no_directory_for_others(init, k);
        assert(entries[entries.len() - 1].info.url != k);
    }
}

/// The descriptions of a scan stand in the order of its directories.
pub proof fn law_descriptions_of_directories(entries: Seq<DirView>)
    ensures
        dir_infos(entries).len() == entries.len(),
        forall|i: int| 0 <= i < entries.len() ==> #[trigger] dir_infos(entries)[i]
            == entries[i].info,
{
}

/// Lists are filed one over the other, and one that could not be read counts as none.
pub proof fn law_lists_are_filed_in_turn(
    lists: Seq<Option<Seq<TableInfoView>>>,
    list: Seq<TableInfoView>,
)
    ensures
        filed_lists(Seq::empty()) == Map::<Seq<char>, TableInfoView>::empty(),
        filed_lists(lists.push(None)) == filed_lists(lists),
        filed_lists(lists.push(Some(list))) == filed(filed_lists(lists), list),
{
    assert(lists.push(None).drop_last() =~= lists);
    assert(lists.push(Some(list)).drop_last() =~= lists);
}

/// The last description of an address in the last list that has one is the one that stays,
/// over all lists.
pub proof fn law_last_list_wins(lists: Seq<Option<Seq<TableInfoView>>>, i: int, j: int)
    requires
        0 <= i < lists.len(),
        lists[i] is Some,
        0 <= j < lists[i]->Some_0.len(),
        forall|m: int|
            j < m < lists[i]->Some_0.len() ==> (#[trigger] lists[i]->Some_0[m]).url
                != lists[i]->Some_0[j].url,
        forall|n: int, m: int|
            i < n < lists.len() && lists[n] is Some && 0 <= m < lists[n]->Some_0.len() ==> (
            #[trigger] lists[n]->Some_0[m]).url != lists[i]->Some_0[j].url,
    ensures
        filed_lists(lists).contains_key(lists[i]->Some_0[j].url),
        filed_lists(lists)[lists[i]->Some_0[j].url] == lists[i]->Some_0[j],
    decreases lists.len(),
{
    let init = lists.drop_last();
    let entry = lists[i]->Some_0[j];
    if i < init.len() {
        assert(init[i] == lists[i]);
        assert forall|n: int, m: int|
            i < n < init.len() && init[n] is Some && 0 <= m < init[n]->Some_0.len() implies (
        #[trigger] init[n]->Some_0[m]).url != init[i]->Some_0[j].url by {
            assert(init[n] == lists[n]);
            assert(lists[n]->Some_0[m].url != entry.url);
        }
        law_last_list_wins(init, i, j);
        if lists.last() is Some {
            let last = lists.last()->Some_0;
            assert(lists[lists.len() - 1] == lists.last());
            assert forall|m: int| 0 <= m < last.len() implies (#[trigger] last[m]).url
                != entry.url by {
                assert(lists[lists.len() - 1]->Some_0[m].url != entry.url);
            }
            law_filing_leaves_others(filed_lists(init), last, entry.url);
        }
    } else {
        assert(lists[i] == lists.last());
        law_last_description_stays(filed_lists(init), lists.last()->Some_0, j);
    }
}

/// The descriptions of a list stand in its order, and where there is no list there are none.
pub proof fn law_list_in_order(list: Vec<TableInfo>)
    ensures
        list_view(None) is None,
        list_view(Some(list)) is Some,
        list_view(Some(list))->Some_0.len() == list@.len(),
        forall|i: int| 0 <= i < list@.len() ==> #[trigger] list_view(Some(list))->Some_0[i]
            == list@[i]@,
{
}

/// A list file is loaded exactly where its extension is `json` and it is named, or nothing is
/// named; one without a readable stem goes by the empty name.
pub proof fn law_selected_list_file(
    extension: Seq<char>,
    stem: Seq<char>,
    list_names: Seq<Seq<char>>,
)
    ensures
        !is_selected(None, Some(stem), list_names),
        extension != "json"@ ==> !is_selected(Some(extension), Some(stem), list_names),
        is_selected(Some("json"@), Some(stem), Seq::empty()),
        is_selected(Some("json"@), None, Seq::empty()),
        list_names.len() > 0 ==> (is_selected(Some("json"@), Some(stem), list_names) <==> exists|
            i: int,
        |
            0 <= i < list_names.len() && #[trigger] list_names[i] == stem),
        list_names.len() > 0 ==> (is_selected(Some("json"@), None, list_names) <==> exists|i: int|
            0 <= i < list_names.len() && #[trigger] list_names[i] == ""@),
{
}

/// A selected list file gives a table for each element of the list that it holds, in order;
/// it gives none where it is not selected, could not be read or holds no list.
pub proof fn law_list_file_gives_its_tables(file: ListFile, list_names: Seq<Seq<char>>, i: int)
    ensures
        file_tables(file, list_names) is Some <==> {
            &&& file.extension is Some && file.extension->Some_0@ == "json"@
            &&& list_names.len() == 0 || file.stem is Some && list_names.contains(
                file.stem->Some_0@,
            ) || file.stem is None && list_names.contains(""@)
            &&& file.content is Some
            &&& parsed_infos(file.content->Some_0@) is Some
        },
        file_tables(file, list_names) is Some ==> file_tables(file, list_names)->Some_0.len()
            == parsed_infos(file.content->Some_0@)->Some_0.len(),
        file_tables(file, list_names) is Some && 0 <= i < file_tables(
            file,
            list_names,
        )->Some_0.len() ==> file_tables(file, list_names)->Some_0[i] == info_of(
            parsed_infos(file.content->Some_0@)->Some_0[i],
        ),
        is_unparsed_list(file, list_names) <==> {
            &&& file.extension is Some && file.extension->Some_0@ == "json"@
            &&& list_names.len() == 0 || file.stem is Some && list_names.contains(
                file.stem->Some_0@,
            ) || file.stem is None && list_names.contains(""@)
            &&& file.content is Some
            &&& parsed_infos(file.content->Some_0@) is None
        },
{
}

/// A configuration without rules changes nothing.
pub proof fn law_empty_configuration(layer: Layer)
    ensures
        configured(
            layer,
            ConfigView { table: Seq::empty(), replace: Seq::empty(), disable: Seq::empty() },
        ) == layer,
{
}

/// One more added table, before any rule applies, stands under its address as the
/// configuration describes it, over what stood there, and nothing else changes.
pub proof fn law_one_more_added_table(
    layer: Layer,
    tables: Seq<TableInfoView>,
    table: TableInfoView,
)
    ensures
        ({
            let none = Seq::<RuleView>::empty();
            let nowhere = Seq::<Seq<char>>::empty();
            let before = configured(
                layer,
                ConfigView { table: tables, replace: none, disable: nowhere },
            );
            let after = configured(
                layer,
                ConfigView { table: tables.push(table), replace: none, disable: nowhere },
            );
            after.infos == before.infos.insert(table.url, table) && after.dirs == before.dirs
        }),
{
    assert(tables.push(table).drop_last() =~= tables);
}

/// One more replacement, where nothing is disabled, acts on what the configuration without
/// it gives: on the added tables, and after the replacements before it.
pub proof fn law_one_more_replacement(
    layer: Layer,
    tables: Seq<TableInfoView>,
    rules: Seq<RuleView>,
    rule: RuleView,
)
    ensures
        ({
            let nowhere = Seq::<Seq<char>>::empty();
            configured(
                layer,
                ConfigView { table: tables, replace: rules.push(rule), disable: nowhere },
            ) == replaced(
                configured(
                    layer,
                    ConfigView { table: tables, replace: rules, disable: nowhere },
                ),
                rule,
            )
        }),
{
    assert(rules.push(rule).drop_last() =~= rules);
}

/// Disabling one more address takes the table there out of what the configuration gives
/// without it, and leaves every other table and all directories.
pub proof fn law_one_more_disabled_table(
    layer: Layer,
    tables: Seq<TableInfoView>,
    rules: Seq<RuleView>,
    urls: Seq<Seq<char>>,
    url: Seq<char>,
)
    ensures
        ({
            let before = configured(
                layer,
                ConfigView { table: tables, replace: rules, disable: urls },
            );
            let after = configured(
                layer,
                ConfigView { table: tables, replace: rules, disable: urls.push(url) },
            );
            after.infos == before.infos.remove(url) && after.dirs == before.dirs
        }),
{
    assert(urls.push(url).drop_last() =~= urls);
}

/// A configuration acts on the tables of the disk overlaid with those of the lists, and on
/// the directories of the disk.
pub proof fn law_configuration_acts_last(
    base: Layer,
    lists: Map<Seq<char>, TableInfoView>,
    config: ConfigView,
)
    ensures
        active_layer(base, lists, Some(config)) == configured(
            active_layer(base, lists, None),
            config,
        ),
{
}

/// The configuration that applies is the one given, and none where none is given.
pub proof fn law_optional_configuration(config: &TableConfig)
    ensures
        optional_config(None) is None,
        optional_config(Some(config)) == Some(config_view(*config)),
{
}

/// A rule is reported exactly where no table stands at `from`, up to slashes at the end, in
/// what the added tables and the rules before it give; reports come in the order of the rules.
pub proof fn law_reported_rules(
    infos: Map<Seq<char>, TableInfoView>,
    tables: Seq<TableInfoView>,
    rules: Seq<RuleView>,
    rule: RuleView,
    urls: Seq<Seq<char>>,
)
    requires
        infos.dom().finite(),
    ensures
        unmatched_in(infos, None).len() == 0,
        unmatched_in(
            infos,
            Some(ConfigView { table: tables, replace: Seq::empty(), disable: urls }),
        ).len() == 0,
        ({
            let now = configured(
                Layer { infos, dirs: Map::empty() },
                ConfigView { table: tables, replace: rules, disable: Seq::empty() },
            ).infos;
            let before = unmatched_in(
                infos,
                Some(ConfigView { table: tables, replace: rules, disable: urls }),
            );
            let after = unmatched_in(
                infos,
                Some(ConfigView { table: tables, replace: rules.push(rule), disable: urls }),
            );
            if exists|k: Seq<char>| #[trigger]
                now.contains_key(k) && (k == rule.from || without_slashes(k) == without_slashes(
                    rule.from,
                )) {
                after == before
            } else {
                after == before.push(rule.from)
            }
        }),
{
    let start = Layer { infos: filed(infos, tables), dirs: Map::empty() };
    lemma_filed_finite(infos, tables);
    lemma_replaced_finite(start, rules);
    assert(rules.push(rule).drop_last() =~= rules);
    let now = replaced_all(start, rules).infos;
    assert(configured(
        Layer { infos, dirs: Map::empty() },
        ConfigView { table: tables, replace: rules, disable: Seq::empty() },
    ).infos == now);
    law_rule_finds_any_match(now, rule.from);
}

proof fn lemma_filed_finite(infos: Map<Seq<char>, TableInfoView>, list: Seq<TableInfoView>)
    requires
        infos.dom().finite(),
    ensures
        filed(infos, list).dom().finite(),
    decreases list.len(),
{
    if list.len() > 0 {
        lemma_filed_finite(infos, list.drop_last());
    }
}

proof fn lemma_replaced_finite(layer: Layer, rules: Seq<RuleView>)
    requires
        layer.infos.dom().finite(),
    ensures
        replaced_all(layer, rules).infos.dom().finite(),
    decreases rules.len(),
{
    if rules.len() > 0 {
        lemma_replaced_finite(layer, rules.drop_last());
    }
}

} // verus!
