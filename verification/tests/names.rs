use bms_table_fetch::filesystem::{
    clean_step, clean_tmp_files, sanitize_filename, CleanCommand, CleanRun, CleanStep, Place,
};
use bms_table_fetch::logger::{crate_prefix, is_own_target, warning_line};
use bms_table_fetch::ordered::{NameSet, SortedMap};
use bms_table_fetch::sorting::stable_sort;
use bms_table_fetch::text::{decimal_text, replace_all, text_less};

#[test]
fn forbidden_characters_become_wide() {
    assert_eq!(sanitize_filename(r#"<>:"/\|?*"#), "＜＞：＂／＼｜？＊");
}

#[test]
fn control_characters_become_one_underscore() {
    assert_eq!(sanitize_filename("a\u{1}\n\tb"), "a_b");
    assert_eq!(sanitize_filename("a__b___c"), "a_b_c");
    assert_eq!(sanitize_filename("_\u{0}_"), "_");
}

#[test]
fn dots_and_spaces_at_the_end_become_wide() {
    assert_eq!(sanitize_filename("name. ."), "name．　．");
    assert_eq!(sanitize_filename("..."), "．．．");
    assert_eq!(sanitize_filename("a.b c"), "a.b c");
    assert_eq!(sanitize_filename(""), "");
}

#[test]
fn sanitizing_twice_changes_nothing() {
    for name in ["a/b", "x. ", "__\u{2}__", "発狂BMS難易度表", "[a] b:c?"] {
        let once = sanitize_filename(name);
        assert_eq!(sanitize_filename(&once), once);
    }
}

#[test]
fn temporary_files_are_removed() {
    assert!(clean_step(Some("tmp"), false) == CleanStep::Remove);
    assert!(clean_step(Some("tmp"), true) == CleanStep::Descend);
    assert!(clean_step(Some("json"), true) == CleanStep::Descend);
    assert!(clean_step(None, true) == CleanStep::Descend);
    assert!(clean_step(Some("json"), false) == CleanStep::Keep);
    assert!(clean_step(None, false) == CleanStep::Keep);
}

fn place(path: &'static str, extension: Option<&str>, is_dir: bool) -> Place<&'static str> {
    Place { path, extension: extension.map(String::from), is_dir }
}

fn clean(fails: &[&'static str]) -> (Result<(), &'static str>, Vec<&'static str>, Vec<&'static str>) {
    let mut run: CleanRun<&'static str, &'static str> = clean_tmp_files("root");
    let mut listed = Vec::new();
    let mut removed = Vec::new();
    let failure = |path: &'static str| if fails.contains(&path) { Some(path) } else { None };
    loop {
        match run.next_command() {
            CleanCommand::List(dir) => {
                listed.push(dir);
                let places = match dir {
                    "root" => vec![
                        place("root/a.tmp", Some("tmp"), false),
                        place("root/d", None, true),
                        place("root/e.tmp", Some("tmp"), true),
                        place("root/f.json", Some("json"), false),
                    ],
                    "root/d" => vec![place("root/d/b.tmp", Some("tmp"), false)],
                    _ => vec![],
                };
                run.listed(places, failure(dir));
            }
            CleanCommand::Remove(file) => {
                removed.push(file);
                run.removed(failure(file));
            }
            CleanCommand::Finished => return (run.outcome(), listed, removed),
        }
    }
}

#[test]
fn a_tree_is_cleaned_of_temporary_files() {
    let (outcome, mut listed, mut removed) = clean(&[]);
    listed.sort();
    removed.sort();
    assert_eq!(outcome, Ok(()));
    assert_eq!(listed, ["root", "root/d", "root/e.tmp"]);
    assert_eq!(removed, ["root/a.tmp", "root/d/b.tmp"]);
}

#[test]
fn cleaning_goes_on_after_an_error_and_ends_with_it() {
    let (outcome, listed, removed) = clean(&["root/a.tmp", "root/d"]);
    assert_eq!(outcome, Err("root/a.tmp"));
    assert_eq!((listed.len(), removed.len()), (3, 2));
    let (outcome, _, removed) = clean(&["root"]);
    assert_eq!(outcome, Err("root"));
    assert_eq!(removed.len(), 2);
}

#[test]
fn log_targets() {
    let prefix = crate_prefix("bms-table-fetch");
    assert_eq!(prefix, "bms_table_fetch");
    assert!(is_own_target("bms_table_fetch::engine", &prefix));
    assert!(is_own_target("bms_table_fetch", &prefix));
    assert!(!is_own_target("bms_table", &prefix));
    assert!(!is_own_target("reqwest::connect", &prefix));
    assert_eq!(warning_line("bms_table_fetch::fetch", "no"), "[WARN] bms_table_fetch::fetch - no");
}

#[test]
fn numbers_in_decimal() {
    for n in [0usize, 7, 9, 10, 99, 100, 12345, usize::MAX] {
        assert_eq!(decimal_text(n), n.to_string());
    }
}

#[test]
fn replaces_every_occurrence() {
    for (s, pat, with) in [
        ("aXbXc", "X", "--"),
        ("aaaa", "aa", "b"),
        ("aaa", "aa", "b"),
        ("abc", "", "-"),
        ("", "", "-"),
        ("", "a", "-"),
        ("abc", "abcd", "-"),
        ("発狂発", "発", "x"),
    ] {
        assert_eq!(replace_all(s, pat, with), s.replace(pat, with), "{s} {pat}");
    }
}

#[test]
fn text_order_is_that_of_strings() {
    let texts = ["", "a", "aa", "b", "é", "発", "\u{10000}", "\u{ffff}"];
    for a in texts {
        for b in texts {
            assert_eq!(text_less(a, b), a < b);
        }
    }
}

#[test]
fn stable_sort_keeps_the_order_of_equals() {
    let items: Vec<String> = ["b1", "a1", "b2", "a2"].iter().map(|s| s.to_string()).collect();
    let keys: Vec<String> = items.iter().map(|s| s[..1].to_string()).collect();
    assert_eq!(stable_sort(items, keys), ["a1", "a2", "b1", "b2"]);
}

#[test]
fn map_is_walked_in_key_order() {
    let mut map: SortedMap<String> = SortedMap::new();
    for key in ["c", "a", "b", "a"] {
        map.insert(key.to_string(), key.to_uppercase());
    }
    assert_eq!(map.len(), 3);
    assert_eq!(map.key_at(0), "a");
    assert_eq!(map.value_at(2), "C");
    assert_eq!(map.remove("b"), Some("B".to_string()));
    assert_eq!(map.remove("b"), None);
    assert_eq!(map.len(), 2);
    assert!(map.get("b").is_none());
    assert_eq!(map.get("c").map(|s| s.as_str()), Some("C"));
}

#[test]
fn set_is_walked_in_order() {
    let mut set = NameSet::new();
    for name in ["b", "a", "b"] {
        set.insert(name.to_string());
    }
    assert_eq!(set.len(), 2);
    assert_eq!(set.name_at(0), "a");
    assert_eq!(set.name_at(1), "b");
    assert!(set.contains("a"));
    assert!(!set.contains("c"));
}
