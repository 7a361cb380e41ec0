use bms_table_fetch::filesystem::{
    deep_sort_json_value, is_changed, json_values_differ, unparsed_json, OldFile, Unparsed,
};
use bms_table_fetch::json::Json;

fn parse(text: &str) -> Json {
    Json::parse(text).unwrap()
}

fn sorted_text(text: &str) -> String {
    let mut value = parse(text);
    deep_sort_json_value(&mut value);
    value.text()
}

fn content(text: &str) -> OldFile {
    OldFile::Content(text.to_string())
}

#[test]
fn prints_as_the_json_crate_does() {
    for text in [
        "null",
        "true",
        "[1, -2, 3.50, 1e3, -0.0, 18446744073709551615]",
        r#"{"b": [], "a": {}, "c": "\"\\\n\u0001/é発"}"#,
        r#"[{"z":1,"a":[null,false]},"x"]"#,
    ] {
        let expected = serde_json::from_str::<serde_json::Value>(text).unwrap().to_string();
        assert_eq!(parse(text).text(), expected);
    }
}

#[test]
fn numbers_print_as_they_were_read() {
    for text in [
        "0", "-1", "18446744073709551615", "-9223372036854775808", "1e400", "123456789012345678901234567890",
        "0.1", "2.2250738585072014e-308", "0.30000000000000004", "5e-324", "1.7976931348623157e308",
        "9007199254740993.0", "-0", "1E2", "3.141592653589793238462643",
    ] {
        match serde_json::from_str::<serde_json::Value>(text) {
            Ok(value) => {
                assert_eq!(parse(text).text(), value.to_string());
                assert_eq!(parse(&format!("[{text}]")).text(), format!("[{value}]"));
            }
            Err(_) => assert!(Json::parse(text).is_none()),
        }
    }
}

#[test]
fn what_is_no_number_prints_as_a_string() {
    assert_eq!(Json::Number("x".to_string()).text(), "\"x\"");
}

#[test]
fn rejects_what_is_not_json() {
    for text in ["", "{", "[1,]", "nul", "{\"a\" 1}", "1 2"] {
        assert!(Json::parse(text).is_none());
    }
}

#[test]
fn last_of_a_repeated_key_is_kept() {
    assert_eq!(parse(r#"{"a":1,"b":2,"a":3}"#).text(), r#"{"a":3,"b":2}"#);
}

#[test]
fn finds_fields() {
    let value = parse(r#"{"title":"T","level":3,"empty":""}"#);
    assert_eq!(value.text_field("title").map(|s| s.as_str()), Some("T"));
    assert_eq!(value.text_field("empty").map(|s| s.as_str()), Some(""));
    assert!(value.text_field("level").is_none());
    assert_eq!(value.get("level").map(|v| v.text()), Some("3".to_string()));
    assert!(value.get("none").is_none());
    assert!(parse("[1]").get("0").is_none());
}

#[test]
fn equality_ignores_field_order_only() {
    assert!(parse(r#"{"a":1,"b":[1,2]}"#).same(&parse(r#"{"b":[1,2],"a":1}"#)));
    assert!(!parse(r#"{"a":1}"#).same(&parse(r#"{"a":1,"b":2}"#)));
    assert!(!parse(r#"{"a":1,"b":2}"#).same(&parse(r#"{"a":1}"#)));
    assert!(!parse(r#"{"a":1}"#).same(&parse(r#"{"b":1}"#)));
    assert!(!parse("[1,2]").same(&parse("[2,1]")));
    assert!(!parse("[1,2]").same(&parse("[1,2,3]")));
    assert!(!parse("1").same(&parse("1.0")));
    assert!(parse("0.0").same(&parse("-0.0")));
    assert!(!parse("0").same(&parse("0.0")));
    assert!(!parse("\"1\"").same(&parse("1")));
    assert!(parse("null").same(&parse("null")));
    assert!(!parse("null").same(&parse("false")));
}

#[test]
fn equality_agrees_with_the_json_crate() {
    let texts = [
        "null", "true", "0", "0.0", "-0.0", "1", "1.0", "\"1\"", "[]", "{}", "[0.0]", "[-0.0]",
        r#"{"a":[1,{"b":2,"c":3}]}"#, r#"{"a":[1,{"c":3,"b":2}]}"#, r#"{"a":[{"b":2,"c":3},1]}"#,
    ];
    for a in texts {
        for b in texts {
            let expected = serde_json::from_str::<serde_json::Value>(a).unwrap()
                == serde_json::from_str::<serde_json::Value>(b).unwrap();
            assert_eq!(parse(a).same(&parse(b)), expected, "{a} {b}");
        }
    }
}

#[test]
fn copies_are_the_same() {
    let value = parse(r#"{"a":[1,{"b":null}],"c":"x"}"#);
    assert!(value.dup().same(&value));
    assert_eq!(value.dup().text(), value.text());
}

#[test]
fn sorts_through_and_through() {
    assert_eq!(sorted_text("[3,1,2]"), "[1,2,3]");
    assert_eq!(sorted_text("[10,9,\"a\",null]"), "[\"a\",10,9,null]");
    assert_eq!(sorted_text(r#"{"b":1,"a":2}"#), r#"{"a":2,"b":1}"#);
    assert_eq!(
        sorted_text(r#"[{"z":[2,1],"a":0},{"a":0,"b":[]}]"#),
        r#"[{"a":0,"b":[]},{"a":0,"z":[1,2]}]"#
    );
    assert_eq!(sorted_text("\"x\""), "\"x\"");
}

#[test]
fn sorting_twice_changes_nothing() {
    for text in ["[3,[2,1],{\"b\":0,\"a\":[9,8]}]", "{\"x\":[\"b\",\"a\"]}", "7"] {
        let once = parse(text).sorted();
        assert_eq!(once.sorted().text(), once.text());
    }
}

#[test]
fn rearranged_items_are_the_same_once_sorted() {
    assert_eq!(sorted_text("[1,[2,3],{\"a\":1}]"), sorted_text("[{\"a\":1},[3,2],1]"));
    assert_eq!(sorted_text(r#"{"a":1,"b":2,"c":3}"#), sorted_text(r#"{"c":3,"a":1,"b":2}"#));
}

#[test]
fn prints_indented_as_the_json_crate_does() {
    for text in ["null", "[]", "{}", "[1,2.5]", r#"{"b":[{"c":null}],"a":"x"}"#] {
        let value = serde_json::from_str::<serde_json::Value>(text).unwrap();
        assert_eq!(parse(text).pretty(), serde_json::to_string_pretty(&value).ok());
    }
    assert_eq!(parse(r#"{"a":[1]}"#).pretty().as_deref(), Some("{\n  \"a\": [\n    1\n  ]\n}"));
}

#[test]
fn missing_and_unreadable_files_need_writing() {
    assert!(is_changed(&OldFile::Missing, "[]"));
    assert!(is_changed(&OldFile::Unreadable, "[]"));
}

#[test]
fn equal_content_needs_no_writing() {
    assert!(!is_changed(&content("[1]"), "[1]"));
    assert!(!is_changed(&content("not json"), "not json"));
}

#[test]
fn content_that_is_not_json_needs_writing() {
    assert!(is_changed(&content("not json"), "[]"));
    assert!(is_changed(&content("[]"), "not json"));
}

#[test]
fn says_which_side_is_not_json() {
    assert!(unparsed_json(&content("no"), "no").is_none());
    assert!(unparsed_json(&content("[1]"), "[2]").is_none());
    assert!(unparsed_json(&OldFile::Missing, "no").is_none());
    assert!(unparsed_json(&content("no"), "never") == Some(Unparsed::Old));
    assert!(unparsed_json(&content("[]"), "no") == Some(Unparsed::New));
}

#[test]
fn values_that_print_alike_are_alike() {
    let texts = [
        "1", "1.0", "\"1\"", "-0.0", "0.0", "0", "1e3", "1000.0", "null", "\"null\"", "[]", "{}", "[[]]",
        r#"{"a":1,"b":2}"#, r#"{"b":2,"a":1}"#, r#"["a\"b"]"#, r#"["a","b"]"#, r#"["a,b"]"#,
    ];
    for a in texts {
        for b in texts {
            let (x, y) = (parse(a), parse(b));
            if x.text() == y.text() {
                assert!(x.same(&y), "{a} {b}");
            }
        }
        assert_eq!(parse(&parse(a).text()).text(), parse(a).text());
    }
}

#[test]
fn order_and_layout_need_no_writing() {
    assert!(!is_changed(&content("[1,2]"), "[ 2, 1 ]"));
    assert!(!is_changed(&content(r#"{"a":1,"b":[{"x":1},{"y":2}]}"#), r#"{"b":[{"y":2},{"x":1}],"a":1}"#));
    assert!(!is_changed(
        &content(r#"[{"x":[1,[3,2]],"y":[]},{"z":{"a":[5,4],"b":6}}]"#),
        r#"[{"z":{"b":6,"a":[4,5]}},{"y":[],"x":[[2,3],1]}]"#
    ));
}

#[test]
fn other_values_need_writing() {
    assert!(is_changed(&content("[1,2]"), "[1,3]"));
    assert!(is_changed(&content("[1,1]"), "[1]"));
    assert!(is_changed(&content(r#"{"a":1}"#), r#"{"a":1,"b":null}"#));
    assert!(json_values_differ(&parse("1"), &parse("1.0")));
    assert!(!json_values_differ(&parse("[1,[2]]"), &parse("[[2],1]")));
}
