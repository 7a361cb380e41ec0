use bms_table_fetch::cmd::tables_list::{
    compute_table_diff, decide_update, display_entry_name, format_changes_summary,
    load_all_table_infos, plan_update, plan_update_with_text, unparsed_infos, InfoFile, ListUpdate,
};
use bms_table_fetch::cmd::{cleanup, index, list, reconcile, tables, tables_list};
use bms_table_fetch::cmd::index::plan_index;
use bms_table_fetch::engine::post_process;
use bms_table_fetch::filesystem::OldFile;
use bms_table_fetch::index::{
    chart_items_of, extract_chart_items, index_text, index_to_json, maybe_insert, maybe_insert_hash,
};
use bms_table_fetch::json::Json;
use bms_table_fetch::ordered::{NameSet, SortedMap};
use bms_table_fetch::output::{build_indexes, combined_list, index_items, Indexes};
use bms_table_fetch::scan::FullDirEntry;
use bms_table_fetch::table::{list_text, TableInfo};

fn info(name: &str, url: &str) -> TableInfo {
    TableInfo {
        name: name.to_string(),
        symbol: "S".to_string(),
        url: url.to_string(),
        extra: SortedMap::new(),
    }
}

fn entry(dir: &str, url: &str, data: Option<&str>) -> FullDirEntry {
    FullDirEntry {
        dir_name: dir.to_string(),
        info: info(dir, url),
        data_raw: data.map(String::from),
    }
}

fn urls(list: &[&str]) -> NameSet {
    let mut set = NameSet::new();
    for url in list {
        set.insert(url.to_string());
    }
    set
}

fn listing(map: &SortedMap<NameSet>) -> Vec<(String, Vec<String>)> {
    let Json::Object(fields) = index_to_json(map) else {
        panic!("an index is an object");
    };
    let texts = |names: Json| match names {
        Json::Array(items) => items
            .into_iter()
            .map(|name| match name {
                Json::Text(text) => text,
                _ => panic!("a name is a string"),
            })
            .collect(),
        _ => panic!("names are a list"),
    };
    fields.into_iter().map(|(key, names)| (key, texts(names))).collect()
}

fn line(key: &str, names: &[&str]) -> (String, Vec<String>) {
    (key.to_string(), names.iter().map(|s| s.to_string()).collect())
}

fn parse(text: &str) -> Json {
    Json::parse(text).unwrap()
}

#[test]
fn chart_items_in_every_form() {
    let count = |text: &str| extract_chart_items(text).map(|items| items.len());
    assert_eq!(count("[1,2,3]"), Some(3));
    assert_eq!(count(r#"{"charts":[1,2]}"#), Some(2));
    assert_eq!(count(r#"{"songs":[1],"data":[1,2,3,4]}"#), Some(4));
    assert_eq!(count(r#"{"charts":1,"songs":[1]}"#), Some(1));
    assert_eq!(count(r#"{"charts":{},"x":[1]}"#), None);
    assert_eq!(count("{}"), None);
    assert_eq!(count("\"x\""), None);
    assert_eq!(count("not json"), None);
    assert_eq!(chart_items_of(&parse(r#"{"data":["a"]}"#)).unwrap()[0].text(), "\"a\"");
    assert!(chart_items_of(&parse("null")).is_none());
}

#[test]
fn text_index_entries() {
    let mut map = SortedMap::new();
    let item = parse(r#"{"title":"T","artist":"","level":5}"#);
    maybe_insert(&mut map, &item, "title", "b");
    maybe_insert(&mut map, &item, "title", "a");
    maybe_insert(&mut map, &item, "title", "b");
    maybe_insert(&mut map, &item, "artist", "a");
    maybe_insert(&mut map, &item, "level", "a");
    maybe_insert(&mut map, &item, "none", "a");
    assert_eq!(listing(&map), [line("T", &["a", "b"])]);
}

fn hash_of(text: &str, len: usize) -> (Vec<(String, Vec<String>)>, Option<String>) {
    let mut map = SortedMap::new();
    let mut item = String::from("{\"md5\":\"");
    item.push_str(text);
    item.push_str("\"}");
    let warning = maybe_insert_hash(&mut map, &parse(&item), "md5", len, "t");
    (listing(&map), warning)
}

#[test]
fn hash_index_entries() {
    assert_eq!(hash_of("00aaFF", 6), (vec![line("00aaFF", &["t"])], None));
    assert_eq!(hash_of("00aaFg", 6), (vec![], None));
    assert_eq!(hash_of("00aaF", 6), (vec![], None));
    assert_eq!(hash_of("", 0), (vec![], None));
    assert_eq!(hash_of("éé0000", 6), (vec![], None));
    assert_eq!(hash_of("00aaFFxx", 6), (vec![], None));
    let mut map = SortedMap::new();
    assert_eq!(maybe_insert_hash(&mut map, &parse(r#"{"md5":5}"#), "md5", 1, "t"), None);
    assert_eq!(map.len(), 0);
}

#[test]
fn long_hashes_give_a_warning() {
    assert_eq!(
        hash_of("00aaFF0", 6),
        (vec![], Some("Suspiciously long md5 hash (expected 6) in table t: 00aaFF0".to_string()))
    );
    let long = "a".repeat(65);
    assert_eq!(
        hash_of(&long, 32).1,
        Some(format!(
            "Suspiciously long md5 hash (expected 32) in table t: {}… (65 chars total)",
            "a".repeat(64)
        ))
    );
    let exact = "a".repeat(64);
    assert_eq!(
        hash_of(&exact, 32).1,
        Some(format!("Suspiciously long md5 hash (expected 32) in table t: {exact}"))
    );
}

#[test]
fn indexes_over_active_tables() {
    let md5 = "0".repeat(32);
    let sha256 = "f".repeat(64);
    let one = format!(r#"[{{"title":"T","artist":"A","md5":"{md5}","sha256":"{sha256}"}}]"#);
    let two = format!(r#"{{"songs":[{{"title":"T","md5":"{md5}0"}},{{"title":"U","sha256":"x"}}]}}"#);
    let entries = vec![
        entry("one", "u1", Some(&one)),
        entry("two", "u2", Some(&two)),
        entry("inactive", "u3", Some(&one)),
        entry("nodata", "u4", None),
        entry("unknown", "u5", Some("{}")),
    ];
    let (indexes, warnings) = build_indexes(&entries, &urls(&["u1", "u2", "u4", "u5"]));
    assert_eq!(listing(&indexes.title), [line("T", &["one", "two"]), line("U", &["two"])]);
    assert_eq!(listing(&indexes.artist), [line("A", &["one"])]);
    assert_eq!(listing(&indexes.md5), [line(&md5, &["one"])]);
    assert_eq!(listing(&indexes.sha256), [line(&sha256, &["one"])]);
    assert_eq!(
        warnings,
        [format!("Suspiciously long md5 hash (expected 32) in table two: {md5}0")]
    );
}

#[test]
fn items_of_one_table() {
    let items = vec![parse(r#"{"title":"b"}"#), parse(r#"{"title":"a","artist":"x"}"#)];
    let (indexes, warnings) = index_items(Indexes::new(), &items, "d");
    assert_eq!(listing(&indexes.title), [line("a", &["d"]), line("b", &["d"])]);
    assert_eq!(listing(&indexes.artist), [line("x", &["d"])]);
    assert!(warnings.is_empty());
}

#[test]
fn combined_list_is_sorted_by_address() {
    let entries = vec![
        entry("c", "u3", None),
        entry("a", "u1", None),
        entry("x", "u9", None),
        entry("b", "u1", None),
    ];
    let list = combined_list(&entries, &urls(&["u1", "u3"]));
    let rows: Vec<(String, String)> = list
        .iter()
        .map(|i| (i.url.clone(), i.extra.get("dir_name").unwrap().text()))
        .collect();
    let row = |u: &str, d: &str| (u.to_string(), format!("\"{d}\""));
    assert_eq!(rows, [row("u1", "a"), row("u1", "b"), row("u3", "c")]);
}

#[test]
fn directory_name_in_the_combined_list_is_the_actual_one() {
    let mut e = entry("actual", "u", None);
    e.info.extra.insert("dir_name".to_string(), Json::Text("stale".to_string()));
    let list = combined_list(&vec![e], &urls(&["u"]));
    assert_eq!(list[0].extra.get("dir_name").unwrap().text(), "\"actual\"");
}

fn names(list: &[TableInfo]) -> Vec<&str> {
    list.iter().map(|i| i.name.as_str()).collect()
}

#[test]
fn differences_between_lists() {
    let mut changed = info("same", "u4");
    changed.extra.insert("k".to_string(), Json::Null);
    let old = vec![info("gone", "u9"), info("same", "u1"), info("old", "u2"), info("gone", "u9"), info("same", "u4")];
    let new = vec![info("added2", "u8"), info("same", "u1"), info("new", "u2"), info("added1", "u5"), changed];
    let diff = compute_table_diff(&old, &new);
    assert_eq!(names(&diff.added), ["added1", "added2"]);
    assert_eq!(names(&diff.removed), ["gone", "gone"]);
    assert_eq!(names(&diff.modified), ["new", "same"]);
}

#[test]
fn no_differences_between_equal_lists() {
    let list = || vec![info("a", "u1"), info("b", "u2")];
    let diff = compute_table_diff(&list(), &list());
    assert!(diff.added.is_empty() && diff.removed.is_empty() && diff.modified.is_empty());
}

#[test]
fn last_description_of_an_address_counts() {
    let diff = compute_table_diff(&vec![info("a", "u")], &vec![info("b", "u"), info("a", "u")]);
    assert!(diff.modified.is_empty());
    let diff = compute_table_diff(&vec![], &vec![info("b", "u"), info("a", "u")]);
    assert_eq!(names(&diff.added), ["a"]);
}

#[test]
fn descriptions_differ_in_any_field() {
    let base = || {
        let mut i = info("n", "u");
        i.extra.insert("k".to_string(), parse("[1]"));
        i
    };
    assert!(base().same(&base()));
    let mut other = base();
    other.symbol = "T".to_string();
    assert!(!base().same(&other));
    let mut other = base();
    other.extra.insert("k".to_string(), parse("[2]"));
    assert!(!base().same(&other));
    let mut other = base();
    other.extra.remove("k");
    assert!(!base().same(&other));
    assert!(!other.same(&base()));
}

#[test]
fn summary_of_changes() {
    assert_eq!(format_changes_summary(3, 0, 1), "+3/-0/~1");
    assert_eq!(format_changes_summary(0, 12, 0), "+0/-12/~0");
}

#[test]
fn display_names() {
    assert_eq!(display_entry_name(&info("n", "u")), "n");
    assert_eq!(display_entry_name(&info("", "u")), "u");
}

fn place(is_dir: bool, content: Option<&str>) -> InfoFile {
    InfoFile { is_dir, content: content.map(String::from) }
}

#[test]
fn descriptions_are_loaded_by_address() {
    let places = vec![
        place(true, Some(r#"{"name":"B","symbol":"","url":"https://b.com/"}"#)),
        place(true, Some(r#"{"name":"A","symbol":"","url":"https://a.com/"}"#)),
        place(true, Some(r#"{"name":"B2","symbol":"","url":"https://b.com/"}"#)),
        place(true, Some("{}")),
        place(true, None),
        place(false, Some(r#"{"name":"C","symbol":"","url":"https://c.com/"}"#)),
    ];
    assert_eq!(names(&load_all_table_infos(&places)), ["A", "B2"]);
    assert_eq!(unparsed_infos(&places), [3]);
    assert!(load_all_table_infos(&vec![]).is_empty());
}

const OLD_LIST: &str = r#"[{"name":"A","symbol":"S","url":"https://a.com/"}]"#;

#[test]
fn combined_list_is_regenerated_with_a_report() {
    let new = vec![info("A", "https://a.com/"), info("B", "https://b.com/")];
    let serialized = r#"[{"name":"A","symbol":"S","url":"https://a.com/"},{"name":"B","symbol":"S","url":"https://b.com/"}]"#;
    match plan_update_with_text(&OldFile::Content(OLD_LIST.to_string()), &new, serialized) {
        ListUpdate::Regenerate(diff, old_count) => {
            assert_eq!(old_count, 1);
            assert_eq!(names(&diff.added), ["B"]);
            assert!(diff.removed.is_empty());
            assert!(diff.modified.is_empty());
        }
        _ => panic!("expected a report"),
    }
}

#[test]
fn combined_list_is_created_or_kept() {
    let new = vec![info("A", "https://a.com/")];
    assert!(matches!(plan_update_with_text(&OldFile::Missing, &new, OLD_LIST), ListUpdate::Create));
    assert!(matches!(plan_update_with_text(&OldFile::Unreadable, &new, OLD_LIST), ListUpdate::Create));
    let corrupt = OldFile::Content("{}".to_string());
    assert!(matches!(plan_update_with_text(&corrupt, &new, OLD_LIST), ListUpdate::Create));
    let same = OldFile::Content(r#"[ {"url":"https://a.com/","name":"A","symbol":"S"} ]"#.to_string());
    assert!(matches!(plan_update_with_text(&same, &new, OLD_LIST), ListUpdate::Keep));
    assert!(matches!(decide_update(None, &new, true), ListUpdate::Create));
    assert!(matches!(decide_update(None, &new, false), ListUpdate::Keep));
    assert!(matches!(decide_update(Some(&new), &new, true), ListUpdate::Regenerate(_, 1)));
}

fn described() -> TableInfo {
    let mut i = info("N", "https://a.com/");
    i.extra.insert("tag2".to_string(), parse(r#"{"z":1,"a":[2]}"#));
    i.extra.insert("tag1".to_string(), parse("2.50"));
    i
}

const DESCRIBED: &str = r#"{
  "name": "N",
  "symbol": "S",
  "url": "https://a.com/",
  "tag1": 2.5,
  "tag2": {
    "z": 1,
    "a": [
      2
    ]
  }
}"#;

#[test]
fn descriptions_are_written_with_their_fields_in_order() {
    assert_eq!(described().text().as_deref(), Some(DESCRIBED));
    let read = TableInfo::parse(DESCRIBED).unwrap();
    assert!(read.same(&described()));
    let outside: bms_table::BmsTableInfo = serde_json::from_str(DESCRIBED).unwrap();
    assert_eq!(serde_json::to_string_pretty(&outside).unwrap(), DESCRIBED);
}

#[test]
fn lists_are_written_as_arrays() {
    assert_eq!(list_text(&vec![]).as_deref(), Some("[]"));
    let list = vec![info("A", "https://a.com/"), described()];
    let text = list_text(&list).unwrap();
    let outside: Vec<bms_table::BmsTableInfo> = serde_json::from_str(&text).unwrap();
    assert_eq!(serde_json::to_string_pretty(&outside).unwrap(), text);
    let read = TableInfo::parse_list(&text).unwrap();
    assert!(read.len() == 2 && read[0].same(&list[0]) && read[1].same(&list[1]));
}

#[test]
fn indexes_are_written_in_order() {
    let mut map = SortedMap::new();
    assert_eq!(index_text(&map).as_deref(), Some("{}"));
    for (title, name) in [("b", "y"), ("a", "x"), ("b", "x")] {
        let item = Json::Object(vec![("title".to_string(), Json::Text(title.to_string()))]);
        maybe_insert(&mut map, &item, "title", name);
    }
    assert_eq!(
        index_text(&map).as_deref(),
        Some("{\n  \"a\": [\n    \"x\"\n  ],\n  \"b\": [\n    \"x\",\n    \"y\"\n  ]\n}")
    );
}

#[test]
fn combined_list_is_planned_with_its_text() {
    let new = vec![described()];
    let (update, text) = plan_update(&OldFile::Missing, &new).unwrap();
    assert!(matches!(update, ListUpdate::Create));
    assert_eq!(Some(text.clone()), list_text(&new));
    let (update, _) = plan_update(&OldFile::Content(text), &new).unwrap();
    assert!(matches!(update, ListUpdate::Keep));
    let (update, _) = plan_update(&OldFile::Content(OLD_LIST.to_string()), &new).unwrap();
    assert!(matches!(update, ListUpdate::Regenerate(_, 1)));
}

#[test]
fn a_list_has_no_difference_to_itself() {
    let diff = compute_table_diff(&vec![described(), info("b", "u")], &vec![described(), info("b", "u")]);
    assert!(diff.added.is_empty() && diff.removed.is_empty() && diff.modified.is_empty());
}

#[test]
fn default_arguments() {
    let c = cleanup::Args::default();
    assert_eq!((c.config.as_str(), c.list_dir.as_str(), c.table_dir.as_str()), ("config/table.toml", "lists", "tables"));
    assert!(c.list_names.is_empty());
    let i = index::Args::default();
    assert_eq!((i.table_dir.as_str(), i.output_dir.as_str()), ("tables", "indexes"));
    let l = list::Args::default();
    assert_eq!((l.config.as_str(), l.output_dir.as_str()), ("config/list.toml", "lists"));
    assert_eq!(reconcile::Args::default().table_dir, "tables");
    let t = tables::Args::default();
    assert_eq!((t.config.as_str(), t.list_dir.as_str(), t.output_dir.as_str()), ("config/table.toml", "lists", "tables"));
    assert!(t.list_names.is_empty());
    let tl = tables_list::Args::default();
    assert_eq!((tl.table_dir.as_str(), tl.output.as_str()), ("tables", "tables/tables.json"));
}

#[test]
fn index_command_takes_every_table() {
    let entries = vec![
        entry("one", "u1", Some(r#"[{"title":"T"}]"#)),
        entry("two", "u2", Some(r#"[{"title":"T"}]"#)),
    ];
    let (indexes, warnings) = plan_index(&entries);
    assert_eq!(listing(&indexes.title), [line("T", &["one", "two"])]);
    assert!(warnings.is_empty());
}

#[test]
fn post_processing_covers_every_output() {
    let entries = vec![
        entry("b", "u2", Some(r#"[{"title":"T","md5":"aa"}]"#)),
        entry("gone", "u9", Some(r#"[{"title":"G"}]"#)),
        entry("a", "u1", None),
    ];
    let out = post_process(&entries, &urls(&["u1", "u2"]));
    assert_eq!(out.orphans.len(), 1);
    assert_eq!(out.orphans[0].src_path, "gone");
    assert_eq!(names(&out.combined), ["a", "b"]);
    assert_eq!(listing(&out.indexes.title), [line("T", &["b"])]);
    assert_eq!(out.indexes.md5.len(), 0);
    assert!(out.warnings.is_empty());
}

#[test]
fn combined_list_does_not_depend_on_the_walk() {
    let list = |order: [&str; 3]| {
        let entries = order.iter().map(|u| entry(u, u, None)).collect();
        let infos = combined_list(&entries, &urls(&["u1", "u2", "u3"]));
        infos.into_iter().map(|i| i.url).collect::<Vec<_>>()
    };
    assert_eq!(list(["u3", "u1", "u2"]), ["u1", "u2", "u3"]);
    assert_eq!(list(["u2", "u3", "u1"]), ["u1", "u2", "u3"]);
}
