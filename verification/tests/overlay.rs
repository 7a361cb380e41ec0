use bms_table_fetch::config::table::{DisableEntry, ReplaceRule, TableConfig, TableEntry};
use bms_table_fetch::config::{self, AddTableInfo, UrlReplaceRule};
use bms_table_fetch::cmd::cleanup::plan_cleanup;
use bms_table_fetch::cmd::tables::plan_tables;
use bms_table_fetch::engine::{self, fetch_jobs};
use bms_table_fetch::json::Json;
use bms_table_fetch::ordered::SortedMap;
use bms_table_fetch::overlay::{
    apply_config, base_layer, build_active_set, load_list_files, merge_lists, selects_list_file,
    unmatched_rules, unparsed_lists, ListFile,
};
use bms_table_fetch::rename::RenameAction;
use bms_table_fetch::scan::DirEntry;
use bms_table_fetch::sync;
use bms_table_fetch::table::TableInfo;

fn info(name: &str, url: &str) -> TableInfo {
    TableInfo {
        name: name.to_string(),
        symbol: "S".to_string(),
        url: url.to_string(),
        extra: SortedMap::new(),
    }
}

fn infos(list: &[(&str, &str)]) -> SortedMap<TableInfo> {
    let mut map = SortedMap::new();
    for (name, url) in list {
        map.insert(url.to_string(), info(name, url));
    }
    map
}

fn dirs(list: &[(&str, &str)]) -> SortedMap<String> {
    let mut map = SortedMap::new();
    for (url, dir) in list {
        map.insert(url.to_string(), dir.to_string());
    }
    map
}

fn config(add: &[(&str, &str)], replace: &[(&str, &str)], disable: &[&str]) -> TableConfig {
    TableConfig {
        table: add
            .iter()
            .map(|(name, url)| TableEntry {
                name: name.to_string(),
                url: url.to_string(),
                symbol: String::new(),
                extra: SortedMap::new(),
            })
            .collect(),
        replace: replace
            .iter()
            .map(|(from, to)| ReplaceRule { from: from.to_string(), to: to.to_string() })
            .collect(),
        disable: disable.iter().map(|url| DisableEntry { url: url.to_string() }).collect(),
    }
}

fn listed(map: &SortedMap<TableInfo>) -> Vec<(String, String, String)> {
    (0..map.len())
        .map(|i| {
            let v = map.value_at(i);
            (map.key_at(i).clone(), v.name.clone(), v.url.clone())
        })
        .collect()
}

fn row(key: &str, name: &str, url: &str) -> (String, String, String) {
    (key.to_string(), name.to_string(), url.to_string())
}

#[test]
fn list_files_are_selected_by_extension_and_name() {
    let none = vec![];
    let some = vec!["a".to_string(), "b".to_string()];
    assert!(selects_list_file(Some("json"), Some("x"), &none));
    assert!(selects_list_file(Some("json"), None, &none));
    assert!(!selects_list_file(Some("toml"), Some("a"), &none));
    assert!(!selects_list_file(None, Some("a"), &none));
    assert!(selects_list_file(Some("json"), Some("b"), &some));
    assert!(!selects_list_file(Some("json"), Some("c"), &some));
    assert!(!selects_list_file(Some("json"), None, &some));
    assert!(selects_list_file(Some("json"), None, &vec![String::new()]));
}

fn file(extension: &str, stem: &str, content: Option<&str>) -> ListFile {
    ListFile {
        extension: Some(extension.to_string()),
        stem: Some(stem.to_string()),
        content: content.map(String::from),
    }
}

const LIST_A: &str = r#"[{"name":"A","symbol":"a","url":"https://a.com"},{"name":"B","symbol":"b","url":"https://b.com/x"}]"#;
const LIST_B: &str = r#"[{"name":"B2","symbol":"b","url":"https://b.com/x","comment":"c"}]"#;

#[test]
fn list_files_are_merged() {
    let files = vec![
        file("json", "one", Some(LIST_A)),
        file("json", "bad", Some("{}")),
        file("json", "gone", None),
        file("txt", "one", Some(LIST_B)),
        file("json", "two", Some(LIST_B)),
    ];
    let all = load_list_files(&files, &vec![]);
    assert_eq!(
        listed(&all),
        [row("https://a.com/", "A", "https://a.com/"), row("https://b.com/x", "B2", "https://b.com/x")]
    );
    assert_eq!(
        all.get("https://b.com/x").unwrap().extra.get("comment").map(|v| v.text()),
        Some("\"c\"".to_string())
    );
    let one = load_list_files(&files, &vec!["one".to_string()]);
    assert_eq!(one.get("https://b.com/x").unwrap().name, "B");
    assert_eq!(load_list_files(&files, &vec!["none".to_string()]).len(), 0);
}

#[test]
fn files_that_hold_no_list_are_reported() {
    let files = vec![
        file("json", "a", Some("{}")),
        file("json", "b", Some("[]")),
        file("txt", "c", Some("{}")),
        file("json", "d", None),
        file("json", "e", Some("no")),
    ];
    assert_eq!(unparsed_lists(&files, &vec![]), [0, 4]);
    assert_eq!(unparsed_lists(&files, &vec!["e".to_string()]), [4]);
}

#[test]
fn rules_that_match_nothing_are_reported() {
    let rules = config(
        &[("N", "u3")],
        &[("u1", "v1"), ("u9", "v9"), ("u1", "w"), ("v1/", "x"), ("u3", "u9"), ("u9", "y")],
        &[],
    );
    let base = || infos(&[("A", "u1")]);
    assert_eq!(unmatched_rules(base(), &infos(&[]), Some(&rules)), ["u9", "u1"]);
    assert_eq!(unmatched_rules(infos(&[]), &base(), Some(&rules)), ["u9", "u1"]);
    assert_eq!(unmatched_rules(infos(&[]), &infos(&[]), Some(&rules)), ["u1", "u9", "u1", "v1/"]);
    assert!(unmatched_rules(base(), &infos(&[]), None).is_empty());
}

#[test]
fn pipelines_report_rules_by_their_own_tables() {
    let files = vec![file("json", "l", Some(r#"[{"name":"L","symbol":"","url":"https://l.com/"}]"#))];
    let rules = config(&[], &[("https://l.com/", "https://m.com/"), ("https://d.com/", "https://e.com/")], &[]);
    assert_eq!(engine::unmatched_rules(&files, &vec![], Some(&rules)), ["https://d.com/"]);
    let on_disk = sync::TableDirEntry {
        dir_name: "d".to_string(),
        info: info("D", "https://d.com/"),
        data_raw: None,
    };
    assert!(sync::unmatched_rules(&vec![on_disk], &files, &vec![], Some(&rules)).is_empty());
}

#[test]
fn later_lists_win() {
    let lists = vec![Some(vec![info("1", "u"), info("2", "u")]), None, Some(vec![info("3", "v")])];
    assert_eq!(listed(&merge_lists(&lists)), [row("u", "2", "u"), row("v", "3", "v")]);
}

#[test]
fn rules_add_tables() {
    let mut map = infos(&[("A", "https://a.com/")]);
    let mut d = dirs(&[]);
    apply_config(&mut map, &config(&[("A2", "https://a.com/"), ("B", "https://b.com/")], &[], &[]), &mut d);
    assert_eq!(
        listed(&map),
        [row("https://a.com/", "A2", "https://a.com/"), row("https://b.com/", "B", "https://b.com/")]
    );
    assert_eq!(map.get("https://b.com/").unwrap().symbol, "");
}

#[test]
fn rules_replace_addresses_and_carry_directories() {
    let mut map = infos(&[("A", "https://a.com/x")]);
    let mut d = dirs(&[("https://a.com/x", "dir")]);
    apply_config(&mut map, &config(&[], &[("https://a.com/x", "https://n.com/")], &[]), &mut d);
    assert_eq!(listed(&map), [row("https://n.com/", "A", "https://n.com/")]);
    assert_eq!(d.get("https://n.com/").map(|s| s.as_str()), Some("dir"));
    assert!(d.get("https://a.com/x").is_none());
}

#[test]
fn replacement_without_a_directory() {
    let mut map = infos(&[("A", "https://a.com/x")]);
    let mut d = dirs(&[("https://other.com/", "dir")]);
    apply_config(&mut map, &config(&[], &[("https://a.com/x", "https://n.com/")], &[]), &mut d);
    assert_eq!(d.len(), 1);
    assert!(d.get("https://n.com/").is_none());
}

#[test]
fn replacement_ignores_slashes_at_the_end() {
    let mut map = infos(&[("A2", "https://a.com/x//"), ("A1", "https://a.com/x/"), ("B", "https://b.com/")]);
    let mut d = dirs(&[("https://a.com/x/", "dir")]);
    let rules = config(&[], &[("https://a.com/x", "https://n.com/"), ("https://none.com/", "https://m.com/")], &[]);
    apply_config(&mut map, &rules, &mut d);
    assert_eq!(
        listed(&map),
        [
            row("https://a.com/x//", "A2", "https://a.com/x//"),
            row("https://b.com/", "B", "https://b.com/"),
            row("https://n.com/", "A1", "https://n.com/"),
        ]
    );
    assert_eq!(d.get("https://n.com/").map(|s| s.as_str()), Some("dir"));
}

#[test]
fn exact_address_goes_before_a_similar_one() {
    let mut map = infos(&[("S", "https://a.com/x"), ("E", "https://a.com/x/")]);
    let mut d = dirs(&[]);
    apply_config(&mut map, &config(&[], &[("https://a.com/x/", "https://n.com/")], &[]), &mut d);
    assert_eq!(map.get("https://n.com/").unwrap().name, "E");
    assert!(map.contains_key("https://a.com/x"));
}

#[test]
fn replacement_overwrites_what_is_at_the_new_address() {
    let mut map = infos(&[("A", "https://a.com/"), ("B", "https://b.com/")]);
    let mut d = dirs(&[("https://a.com/", "da"), ("https://b.com/", "db")]);
    apply_config(&mut map, &config(&[], &[("https://a.com/", "https://b.com/")], &[]), &mut d);
    assert_eq!(listed(&map), [row("https://b.com/", "A", "https://b.com/")]);
    assert_eq!(d.get("https://b.com/").map(|s| s.as_str()), Some("da"));
    assert_eq!(d.len(), 1);
}

#[test]
fn rules_disable_tables_last() {
    let mut map = infos(&[("A", "https://a.com/")]);
    let mut d = dirs(&[]);
    let rules = config(
        &[("B", "https://b.com/")],
        &[("https://a.com/", "https://n.com/")],
        &["https://n.com/", "https://b.com", "https://none.com/"],
    );
    apply_config(&mut map, &rules, &mut d);
    assert_eq!(listed(&map), [row("https://b.com/", "B", "https://b.com/")]);
}

#[test]
fn active_set_is_disk_then_lists_then_rules() {
    let base = infos(&[("disk", "https://a.com/"), ("disk", "https://b.com/"), ("disk", "https://c.com/")]);
    let lists = infos(&[("list", "https://b.com/"), ("list", "https://d.com/")]);
    let rules = config(&[("rule", "https://d.com/")], &[("https://a.com/", "https://e.com/")], &["https://c.com/"]);
    let old = dirs(&[("https://a.com/", "a")]);
    let active = build_active_set(base, old, &lists, Some(&rules));
    assert_eq!(
        listed(&active.table_info_map),
        [
            row("https://b.com/", "list", "https://b.com/"),
            row("https://d.com/", "rule", "https://d.com/"),
            row("https://e.com/", "disk", "https://e.com/"),
        ]
    );
    assert_eq!(active.active_urls.len(), 3);
    assert!(active.active_urls.contains("https://e.com/"));
    assert!(!active.active_urls.contains("https://c.com/"));
    assert_eq!(active.old_dir_map.get("https://e.com/").map(|s| s.as_str()), Some("a"));

    let jobs = fetch_jobs(&active);
    assert_eq!(jobs.len(), 3);
    assert_eq!(jobs[0].info.url, "https://b.com/");
    assert_eq!(jobs[0].old_dir, None);
    assert_eq!(jobs[2].old_dir.as_deref(), Some("a"));
}

#[test]
fn active_set_without_rules() {
    let active = build_active_set(
        infos(&[("disk", "u"), ("disk", "v")]),
        dirs(&[("u", "d")]),
        &infos(&[("list", "v")]),
        None,
    );
    assert_eq!(listed(&active.table_info_map), [row("u", "disk", "u"), row("v", "list", "v")]);
    assert_eq!(active.old_dir_map.get("u").map(|s| s.as_str()), Some("d"));
}

#[test]
fn base_layer_of_a_scan() {
    let entries = vec![
        DirEntry { dir_name: "one".to_string(), info: info("A", "u") },
        DirEntry { dir_name: "two".to_string(), info: info("B", "v") },
        DirEntry { dir_name: "three".to_string(), info: info("C", "u") },
    ];
    let (map, d) = base_layer(&entries);
    assert_eq!(listed(&map), [row("u", "C", "u"), row("v", "B", "v")]);
    assert_eq!(d.get("u").map(|s| s.as_str()), Some("three"));
    assert_eq!(d.get("v").map(|s| s.as_str()), Some("two"));
}

#[test]
fn entries_and_descriptions_convert() {
    let mut extra = SortedMap::new();
    extra.insert("k".to_string(), Json::Bool(true));
    let entry = TableEntry { name: "n".to_string(), url: "u".to_string(), symbol: "s".to_string(), extra };
    let i = TableInfo::from(entry);
    assert_eq!((i.name.as_str(), i.url.as_str(), i.symbol.as_str()), ("n", "u", "s"));
    let back = TableEntry::from(i);
    assert_eq!(back.extra.get("k").map(|v| v.text()), Some("true".to_string()));
    let i = TableInfo::from(AddTableInfo { name: back.name, url: back.url, symbol: back.symbol, extra: back.extra });
    let add = AddTableInfo::from(i);
    assert_eq!((add.name.as_str(), add.url.as_str(), add.symbol.as_str()), ("n", "u", "s"));
}

#[test]
fn single_file_configuration_says_the_same() {
    let old = config::TableConfig {
        table_list: vec![],
        add_table: vec![AddTableInfo {
            name: "B".to_string(),
            url: "https://b.com/".to_string(),
            symbol: "b".to_string(),
            extra: SortedMap::new(),
        }],
        disable_table_url: vec!["https://n.com/".to_string()],
        replace_table_url: vec![UrlReplaceRule { from: "https://a.com".to_string(), to: "https://n.com/".to_string() }],
    };
    let rules = old.rules();
    assert_eq!(rules.table[0].symbol, "b");
    let mut map = infos(&[("A", "https://a.com/")]);
    apply_config(&mut map, &rules, &mut SortedMap::new());
    assert_eq!(listed(&map), [row("https://b.com/", "B", "https://b.com/")]);
}

fn found(dir: &str, name: &str, url: &str) -> DirEntry {
    DirEntry { dir_name: dir.to_string(), info: info(name, url) }
}

#[test]
fn pipeline_takes_tables_from_lists_and_rules_only() {
    let entries = vec![found("da", "disk", "https://a.com/"), found("dz", "disk", "https://z.com/")];
    let files = vec![file("json", "one", Some(LIST_A))];
    let rules = config(&[], &[("https://a.com/", "https://n.com/")], &["https://b.com/x"]);
    let active = engine::build_active_set(&entries, &files, &vec![], Some(&rules));
    assert_eq!(listed(&active.table_info_map), [row("https://n.com/", "A", "https://n.com/")]);
    assert!(active.active_urls.contains("https://n.com/"));
    assert_eq!(active.old_dir_map.get("https://n.com/").map(|s| s.as_str()), Some("da"));
    assert_eq!(active.old_dir_map.get("https://z.com/").map(|s| s.as_str()), Some("dz"));

    let jobs = plan_tables(&entries, &files, &vec![], Some(&rules));
    assert_eq!(jobs.len(), 1);
    assert_eq!(jobs[0].info.name, "A");
    assert_eq!(jobs[0].old_dir.as_deref(), Some("da"));
}

#[test]
fn pipeline_renames_by_the_active_set() {
    let entries = vec![found("da", "disk", "https://a.com/"), found("[z.com] disk", "disk", "https://z.com/")];
    let files = vec![file("json", "one", Some(LIST_A))];
    let active = engine::build_active_set(&entries, &files, &vec![], None);
    let renames = engine::plan_renames(&entries, &active);
    assert_eq!(renames.len(), 1);
    assert_eq!((renames[0].old_path.as_str(), renames[0].new_path.as_str()), ("da", "[a.com] A"));
}

#[test]
fn cleanup_moves_what_no_list_names() {
    let entries = vec![
        found("da", "A", "https://a.com/"),
        found("db", "B", "https://b.com/x"),
        found("dz", "Z", "https://z.com/"),
    ];
    let files = vec![file("json", "one", Some(LIST_A))];
    let paths = |orphans: Vec<bms_table_fetch::orphan::OrphanAction>| {
        orphans.into_iter().map(|o| o.src_path).collect::<Vec<_>>()
    };
    assert_eq!(paths(plan_cleanup(&entries, &files, &vec![], None)), ["dz"]);
    let rules = config(&[("Z", "https://z.com/")], &[], &["https://a.com/"]);
    assert_eq!(paths(plan_cleanup(&entries, &files, &vec![], Some(&rules))), ["da"]);
}

#[test]
fn sync_lays_lists_over_what_is_on_disk() {
    let entry = |dir: &str, name: &str, url: &str| sync::TableDirEntry {
        dir_name: dir.to_string(),
        info: info(name, url),
        data_raw: Some("[]".to_string()),
    };
    let entries = vec![entry("da", "disk", "https://a.com/"), entry("dz", "disk", "https://z.com/")];
    let executed = vec![RenameAction { old_path: "dz".to_string(), new_path: "new".to_string() }];
    let entries = sync::apply_renames(entries, &executed);
    assert_eq!(entries[1].dir_name, "new");
    assert_eq!(entries[1].data_raw.as_deref(), Some("[]"));
    let files = vec![file("json", "one", Some(LIST_A))];
    let active = sync::overlay_scan(&entries, &files, &vec![], None);
    assert_eq!(
        listed(&active.table_info_map),
        [
            row("https://a.com/", "A", "https://a.com/"),
            row("https://b.com/x", "B", "https://b.com/x"),
            row("https://z.com/", "disk", "https://z.com/"),
        ]
    );
    assert_eq!(active.old_dir_map.get("https://z.com/").map(|s| s.as_str()), Some("new"));
}
