use bms_table_fetch::json::Json;
use bms_table_fetch::ordered::{NameSet, SortedMap};
use bms_table_fetch::orphan::{compute_orphans, execute_orphans, OrphanAction, OrphanCommand};
use bms_table_fetch::rename::{
    bracketed_dir_name, compute_renames, dir_name_with_domain, execute_renames, expected_dir_name,
    rename_needed, rename_request, renamed_dir_name, RenameAction, RenameCommand,
};
use bms_table_fetch::scan::{
    apply_renames, looks_into, scan_dirs, scan_dirs_full, DirEntry, Found, FullDirEntry,
};
use bms_table_fetch::sync;
use bms_table_fetch::table::TableInfo;

fn info(name: &str, url: &str) -> TableInfo {
    TableInfo {
        name: name.to_string(),
        symbol: "★".to_string(),
        url: url.to_string(),
        extra: SortedMap::new(),
    }
}

fn entry(dir_name: &str, name: &str, url: &str) -> DirEntry {
    DirEntry { dir_name: dir_name.to_string(), info: info(name, url) }
}

fn action(old: &str, new: &str) -> RenameAction {
    RenameAction { old_path: old.to_string(), new_path: new.to_string() }
}

fn pairs(actions: &[RenameAction]) -> Vec<(&str, &str)> {
    actions.iter().map(|a| (a.old_path.as_str(), a.new_path.as_str())).collect()
}

#[test]
fn name_after_the_domain_of_the_address() {
    let i = info("Table: 1/2", "https://www.example.com/bms/table.html");
    assert_eq!(expected_dir_name(&i, None), "[www.example.com] Table： 1／2");
    assert_eq!(expected_dir_name(&i, Some("[other.org] x")), "[www.example.com] Table： 1／2");
}

#[test]
fn name_after_the_old_directory_where_the_address_has_no_domain() {
    for url in ["http://127.0.0.1/table.html", "http://[::1]/", "file:///tmp/x", "not a url"] {
        let i = info("N", url);
        assert_eq!(expected_dir_name(&i, Some("[old.org] whatever")), "[old.org] N");
        assert_eq!(expected_dir_name(&i, Some("[] whatever")), "[] N");
        assert_eq!(expected_dir_name(&i, Some("old.org] whatever")), "[unknown.domain] N");
        assert_eq!(expected_dir_name(&i, Some("[old.org")), "[unknown.domain] N");
        assert_eq!(expected_dir_name(&i, None), "[unknown.domain] N");
    }
}

#[test]
fn domain_given_as_an_argument() {
    assert_eq!(dir_name_with_domain(Some("a.b".to_string()), "N", Some("[c.d] e")), "[a.b] N");
    assert_eq!(dir_name_with_domain(None, "N", Some("[c.d] e")), "[c.d] N");
    assert_eq!(dir_name_with_domain(None, "", None), "[unknown.domain]　");
    assert_eq!(bracketed_dir_name("x", "y."), "[x] y．");
}

#[test]
fn expected_names_settle() {
    for (name, url, fallback) in [
        ("a/b", "https://example.com/", None),
        ("a__b ", "http://127.0.0.1/", Some("[x:y__z] q")),
        ("", "http://127.0.0.1/", Some("[\u{1}\u{2}] q")),
        ("n", "http://127.0.0.1/", None),
    ] {
        let i = info(name, url);
        let first = expected_dir_name(&i, fallback);
        assert_eq!(expected_dir_name(&i, Some(&first)), first);
        assert!(first.starts_with('['));
        assert!(!first.contains('/'));
    }
}

#[test]
fn renames_what_is_misnamed() {
    let entries = vec![
        entry("[a.com] A", "A", "https://a.com/"),
        entry("old", "B", "https://b.com/"),
        entry("[c.com] C", "C2", "https://c.com/"),
    ];
    assert_eq!(
        pairs(&compute_renames(&entries, None)),
        [("old", "[b.com] B"), ("[c.com] C", "[c.com] C2")]
    );
}

#[test]
fn overlaid_descriptions_decide_names() {
    let entries = vec![entry("[a.com] A", "A", "https://a.com/"), entry("x", "B", "https://b.com/")];
    let mut overlaid: SortedMap<TableInfo> = SortedMap::new();
    overlaid.insert("https://a.com/".to_string(), info("New", "https://a.com/"));
    assert_eq!(
        pairs(&compute_renames(&entries, Some(&overlaid))),
        [("[a.com] A", "[a.com] New"), ("x", "[b.com] B")]
    );
}

#[test]
fn no_rename_of_a_right_name() {
    assert!(rename_needed("a", "a".to_string()).is_none());
    assert!(rename_request("a", None).is_none());
    assert!(rename_request("a", Some("a")).is_none());
    assert_eq!(pairs(&[rename_request("b", Some("a")).unwrap()]), [("a", "b")]);
}

fn run_renames(
    actions: Vec<RenameAction>,
    exists: &[&str],
    fails: &[&str],
) -> (Vec<RenameAction>, Vec<RenameAction>, Vec<String>) {
    let mut tree: Vec<String> = exists.iter().map(|s| s.to_string()).collect();
    let mut run = execute_renames(actions);
    loop {
        match run.command() {
            RenameCommand::Exists(path) => run.answer(tree.contains(&path)),
            RenameCommand::Rename(a) => {
                let ok = !fails.contains(&a.old_path.as_str());
                if ok {
                    assert!(tree.contains(&a.old_path));
                    assert!(!tree.contains(&a.new_path));
                    tree.retain(|p| *p != a.old_path);
                    tree.push(a.new_path.clone());
                }
                run.answer(ok);
            }
            RenameCommand::Finished => break,
        }
    }
    run.answer(true);
    (run.executed, run.blocked, tree)
}

#[test]
fn executes_only_possible_renames() {
    let (executed, blocked, tree) = run_renames(
        vec![action("a", "A"), action("gone", "G"), action("b", "taken"), action("c", "C"), action("d", "D")],
        &["a", "b", "taken", "c", "d"],
        &["c"],
    );
    assert_eq!(pairs(&executed), [("a", "A"), ("d", "D")]);
    assert_eq!(pairs(&blocked), [("b", "taken")]);
    assert_eq!(tree, ["b", "taken", "c", "A", "D"]);
}

#[test]
fn nothing_to_rename() {
    let (executed, blocked, tree) = run_renames(vec![], &["a"], &[]);
    assert!(executed.is_empty() && blocked.is_empty());
    assert_eq!(tree, ["a"]);
}

#[test]
fn names_after_renaming() {
    let executed = vec![action("a", "A"), action("b", "B"), action("a", "never")];
    assert_eq!(renamed_dir_name("a", &executed), "A");
    assert_eq!(renamed_dir_name("b", &executed), "B");
    assert_eq!(renamed_dir_name("c", &executed), "c");
    assert_eq!(renamed_dir_name("c", &vec![]), "c");
}

#[test]
fn reconciling_twice_renames_nothing_more() {
    let entries = vec![entry("x", "A", "https://a.com/"), entry("[q] y", "B", "http://127.0.0.1/")];
    let renames = compute_renames(&entries, None);
    assert_eq!(renames.len(), 2);
    let after: Vec<DirEntry> = entries
        .iter()
        .map(|e| {
            let name = renamed_dir_name(&e.dir_name, &renames);
            entry(&name, &e.info.name, &e.info.url)
        })
        .collect();
    assert!(compute_renames(&after, None).is_empty());
}

fn found(is_dir: bool, name: Option<&str>, info: Option<&str>, data: Option<&str>) -> Found {
    Found {
        is_dir,
        name: name.map(String::from),
        info: info.map(String::from),
        data: data.map(String::from),
    }
}

const INFO: &str = r#"{"name":"N","symbol":"S","url":"https://a.com/t","tag":1}"#;

#[test]
fn scan_takes_directories_with_a_description() {
    let places = || {
        vec![
            found(true, Some("one"), Some(INFO), Some("[]")),
            found(false, Some("file"), Some(INFO), None),
            found(true, None, Some(INFO), None),
            found(true, Some("_orphaned"), Some(INFO), None),
            found(true, Some("unreadable"), None, Some("[]")),
            found(true, Some("broken"), Some("{}"), Some("[]")),
            found(true, Some("two"), Some(INFO), None),
        ]
    };
    let full = scan_dirs_full(places());
    assert_eq!(full.iter().map(|e| e.dir_name.as_str()).collect::<Vec<_>>(), ["one", "two"]);
    assert_eq!(full[0].data_raw.as_deref(), Some("[]"));
    assert_eq!(full[1].data_raw, None);
    assert_eq!(full[0].info.name, "N");
    assert_eq!(full[0].info.url, "https://a.com/t");
    assert_eq!(full[0].info.extra.get("tag").map(|v| v.text()), Some("1".to_string()));
    let light = scan_dirs(places());
    assert_eq!(light.iter().map(|e| e.dir_name.as_str()).collect::<Vec<_>>(), ["one", "two"]);
    let sync = sync::scan_tables(places());
    assert_eq!(sync.entries.len(), 2);
    assert_eq!(sync.entries[1].dir_name, "two");
}

#[test]
fn places_looked_into() {
    assert!(looks_into(true, Some("a")));
    assert!(!looks_into(false, Some("a")));
    assert!(!looks_into(true, None));
    assert!(!looks_into(true, Some("_orphaned")));
}

#[test]
fn scanned_names_follow_renames() {
    let entries = vec![
        FullDirEntry { dir_name: "a".to_string(), info: info("A", "https://a.com/"), data_raw: Some("d".to_string()) },
        FullDirEntry { dir_name: "b".to_string(), info: info("B", "https://b.com/"), data_raw: None },
    ];
    let after = apply_renames(entries, &vec![action("a", "z")]);
    assert_eq!(after[0].dir_name, "z");
    assert_eq!(after[0].data_raw.as_deref(), Some("d"));
    assert_eq!(after[1].dir_name, "b");
    assert_eq!(after[1].info.name, "B");
}

#[test]
fn orphans_are_the_inactive() {
    let entries = vec![
        entry("a", "A", "https://a.com/"),
        entry("b", "B", "https://b.com/"),
        entry("c", "C", "https://c.com/"),
    ];
    let mut active = NameSet::new();
    active.insert("https://b.com/".to_string());
    let orphans = compute_orphans(&entries, &active);
    assert_eq!(orphans.iter().map(|o| o.src_path.as_str()).collect::<Vec<_>>(), ["a", "c"]);
}

fn run_orphans(paths: &[&str], exists: &[&str], can_create: bool, fails: &[&str]) -> (Vec<String>, Vec<String>, Vec<String>) {
    let mut tree: Vec<String> = exists.iter().map(|s| s.to_string()).collect();
    let mut removed = Vec::new();
    let actions = paths.iter().map(|p| OrphanAction { src_path: p.to_string() }).collect();
    let mut run = execute_orphans(actions);
    loop {
        match run.command() {
            OrphanCommand::CreateDir(path) => {
                assert_eq!(path, "_orphaned");
                run.answer(can_create);
            }
            OrphanCommand::Exists(path) => run.answer(tree.contains(&path)),
            OrphanCommand::Remove(path) => {
                tree.retain(|p| *p != path);
                removed.push(path);
                run.answer(false);
            }
            OrphanCommand::Rename(from, to) => {
                let ok = !fails.contains(&from.as_str());
                if ok {
                    tree.retain(|p| *p != from);
                    tree.push(to);
                }
                run.answer(ok);
            }
            OrphanCommand::Finished => break,
        }
    }
    run.answer(true);
    assert!(matches!(run.command(), OrphanCommand::Finished));
    (run.moved.into_iter().map(|a| a.src_path).collect(), tree, removed)
}

#[test]
fn moves_orphans() {
    let (moved, tree, removed) =
        run_orphans(&["a", "gone", "b", "c"], &["a", "b", "_orphaned/b", "c", "d"], true, &["c"]);
    assert_eq!(moved, ["a", "b"]);
    assert_eq!(tree, ["c", "d", "_orphaned/a", "_orphaned/b"]);
    assert_eq!(removed, ["_orphaned/b"]);
}

#[test]
fn moves_no_orphans_without_a_place_for_them() {
    assert_eq!(run_orphans(&["a"], &["a"], false, &[]), (vec![], vec!["a".to_string()], vec![]));
    assert_eq!(run_orphans(&[], &["a"], true, &[]), (vec![], vec!["a".to_string()], vec![]));
}

fn table_entry(dir_name: &str, name: &str, header_url: Option<Json>) -> sync::TableDirEntry {
    let mut i = info(name, "https://page.com/");
    if let Some(url) = header_url {
        i.extra.insert("url_header_json".to_string(), url);
    }
    sync::TableDirEntry { dir_name: dir_name.to_string(), info: i, data_raw: None }
}

#[test]
fn sync_names_after_the_header_address() {
    let text = |s: &str| Some(Json::Text(s.to_string()));
    let entries = vec![
        table_entry("x", "A", text("https://head.com/header.json")),
        table_entry("[old.com] x", "B", None),
        table_entry("[old.com] x", "C", Some(Json::Null)),
        table_entry("[old.com] x", "D", text("not a url")),
        table_entry("x", "E", None),
        table_entry("[head.com] F", "F", text("https://head.com/header.json")),
    ];
    assert_eq!(
        pairs(&sync::compute_renames(&entries)),
        [
            ("x", "[head.com] A"),
            ("[old.com] x", "[old.com] B"),
            ("[old.com] x", "[old.com] C"),
            ("[old.com] x", "[old.com] D"),
            ("x", "[unknown.domain] E"),
        ]
    );
}

#[test]
fn sync_old_directories() {
    assert!(sync::old_dir_step(false, false) == sync::OldDirStep::Nothing);
    assert!(sync::old_dir_step(false, true) == sync::OldDirStep::Nothing);
    assert!(sync::old_dir_step(true, true) == sync::OldDirStep::Remove);
    assert!(sync::old_dir_step(true, false) == sync::OldDirStep::Rename);
}
