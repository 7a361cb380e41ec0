use bms_table_fetch::ordered::NameSet;
use bms_table_fetch::state::{
    check_table, compute_state, unreadable_file, Sha3Hash, Sha3Hashes, SyncState, Timestamp,
    TrackedTable,
};

fn url(path: &str) -> String {
    format!("https://example.com/{path}")
}

fn table(path: &str, info: &str, header: &str, data: &str) -> TrackedTable {
    TrackedTable {
        url: url(path),
        info: Some(info.to_string()),
        header: Some(header.to_string()),
        data: Some(data.to_string()),
    }
}

fn active(paths: &[&str]) -> NameSet {
    let mut set = NameSet::new();
    for path in paths {
        set.insert(url(path));
    }
    set
}

fn at(millis: i64) -> Timestamp {
    Timestamp { secs: 1_700_000_000 + millis / 1000, nanos: (millis % 1000) as u32 * 1_000_000 }
}

#[test]
fn test_creates_state_toml() {
    let entry = table("foo", r#"{"v":1}"#, r"[]", r"{}");
    let state = compute_state(&active(&["foo"]), &vec![entry], None, at(0));
    assert_eq!(state.tables.len(), 1);

    let ts = state.tables.get(&url("foo")).unwrap();
    let hex = ts.sha3_256.info.to_hex();
    assert_eq!(hex.len(), 64);
    assert!(hex.chars().all(|c| c.is_ascii_hexdigit()));
    assert_eq!(ts.last_check, ts.last_change);
    assert_eq!(state.global.last_sync, at(0));
}

#[test]
fn test_tracks_change() {
    let urls = active(&["bar"]);
    let entries = vec![table("bar", r#"{"k":"a"}"#, r"[]", r"{}")];

    let state1 = compute_state(&urls, &entries, None, at(0));
    let ts1 = *state1.tables.get(&url("bar")).unwrap();

    // Same content: last_change is preserved.
    let state2 = compute_state(&urls, &entries, Some(&state1), at(1));
    let ts2 = *state2.tables.get(&url("bar")).unwrap();
    assert_eq!(ts1.last_change, ts2.last_change);
    assert_eq!(ts2.last_check, at(1));
    assert_ne!(ts2.last_check, ts1.last_check);

    // Changed info.json content.
    let entries = vec![table("bar", r#"{"k":"b"}"#, r"[]", r"{}")];
    let state3 = compute_state(&urls, &entries, Some(&state2), at(11));
    let ts3 = *state3.tables.get(&url("bar")).unwrap();
    assert_ne!(ts3.last_change, ts2.last_change);
    assert_eq!(ts3.last_change, at(11));
    assert_eq!(ts3.last_change, ts3.last_check);
}

#[test]
fn test_skips_inactive() {
    let entries = vec![table("active", r"{}", r"[]", r"{}"), table("inactive", r"{}", r"[]", r"{}")];
    let state = compute_state(&active(&["active"]), &entries, None, at(0));
    assert_eq!(state.tables.len(), 1);
    assert!(state.tables.contains_key(&url("active")));
    assert!(!state.tables.contains_key(&url("inactive")));
}

#[test]
fn test_handles_missing_files() {
    let partial = TrackedTable {
        url: url("partial"),
        info: Some(r"{}".to_string()),
        header: None,
        data: None,
    };
    assert_eq!(unreadable_file(&partial).as_deref(), Some("header.json"));
    let entries = vec![partial, table("complete", r"{}", r"[]", r"{}")];
    let state = compute_state(&active(&["partial", "complete"]), &entries, None, at(0));
    assert_eq!(state.tables.len(), 1);
    assert!(state.tables.contains_key(&url("complete")));
}

#[test]
fn names_the_first_unreadable_file() {
    let mut t = table("x", "{}", "{}", "{}");
    assert_eq!(unreadable_file(&t), None);
    t.data = None;
    assert_eq!(unreadable_file(&t).as_deref(), Some("data.json"));
    t.info = None;
    assert_eq!(unreadable_file(&t).as_deref(), Some("info.json"));
}

#[test]
fn hashes_known_inputs() {
    assert_eq!(
        Sha3Hash::new(b"").to_hex(),
        "a7ffc6f8bf1ed76651c14756a061d662f580ff4de43b49fa82d80a4b80f8434a"
    );
    assert_eq!(
        Sha3Hash::new(b"abc").to_hex(),
        "3a985da74fe225b2045c172d6bd390bd855f086e3e9d525b46bfe24511431532"
    );
}

#[test]
fn hex_round_trip() {
    for data in ["", "a", "difficulty", "発狂"] {
        let hash = Sha3Hash::new(data.as_bytes());
        assert_eq!(Sha3Hash::from_hex(&hash.to_hex()), Ok(hash));
        assert_eq!(Sha3Hash::from_hex(&hash.to_hex().to_uppercase()), Ok(hash));
    }
}

#[test]
fn lowercase_hex_is_written_back() {
    let text = "0123456789abcdef".repeat(4);
    assert_eq!(Sha3Hash::from_hex(&text).unwrap().to_hex(), text);
}

#[test]
fn hex_of_wrong_length() {
    assert_eq!(Sha3Hash::from_hex("abc"), Err("expected 64 hex characters, got 3".to_string()));
    assert_eq!(Sha3Hash::from_hex(""), Err("expected 64 hex characters, got 0".to_string()));
    let long = "0".repeat(100);
    assert_eq!(Sha3Hash::from_hex(&long), Err("expected 64 hex characters, got 100".to_string()));
}

#[test]
fn hex_with_wrong_digits() {
    let zeros = "0".repeat(62);
    assert_eq!(Sha3Hash::from_hex(&format!("zz{zeros}")), Err("invalid hex: zz".to_string()));
    assert_eq!(Sha3Hash::from_hex(&format!("{zeros}0g")), Err("invalid hex: 0g".to_string()));
    assert_eq!(Sha3Hash::from_hex(&format!("+f{zeros}")), Err("invalid hex: +f".to_string()));
    assert_eq!(Sha3Hash::from_hex(&format!("é{zeros}")), Err("invalid hex: é".to_string()));
}

#[test]
fn hex_with_a_split_character() {
    let rest = "0".repeat(61);
    assert_eq!(
        Sha3Hash::from_hex(&format!("aé{rest}")),
        Err("invalid UTF-8 in hex string".to_string())
    );
    let rest = "0".repeat(61);
    assert_eq!(
        Sha3Hash::from_hex(&format!("あ{rest}")),
        Err("invalid UTF-8 in hex string".to_string())
    );
}

#[test]
fn any_changed_file_counts() {
    let now = at(5);
    let old = check_table(Sha3Hashes::of_contents("i", "h", "d"), None, at(1));
    assert_eq!(old.last_change, at(1));
    let same = check_table(Sha3Hashes::of_contents("i", "h", "d"), Some(&old), now);
    assert_eq!(same.last_change, at(1));
    assert_eq!(same.last_check, now);
    for changed in [
        Sha3Hashes::of_contents("I", "h", "d"),
        Sha3Hashes::of_contents("i", "H", "d"),
        Sha3Hashes::of_contents("i", "h", "D"),
    ] {
        assert_eq!(check_table(changed, Some(&old), now).last_change, now);
    }
}

#[test]
fn old_state_without_the_table_counts_as_new() {
    let entries = vec![table("a", "{}", "{}", "{}")];
    let old: SyncState = compute_state(&active(&["b"]), &vec![table("b", "{}", "{}", "{}")], None, at(0));
    let state = compute_state(&active(&["a"]), &entries, Some(&old), at(9));
    assert_eq!(state.tables.get(&url("a")).unwrap().last_change, at(9));
}

#[test]
fn later_directory_of_the_same_table_wins() {
    let entries = vec![table("a", "1", "h", "d"), table("a", "2", "h", "d")];
    let state = compute_state(&active(&["a"]), &entries, None, at(0));
    assert_eq!(state.tables.len(), 1);
    assert_eq!(state.tables.get(&url("a")).unwrap().sha3_256.info, Sha3Hash::new(b"2"));
}
