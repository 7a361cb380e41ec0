use bms_table_fetch::fetch::{
    data_to_write, header_to_write, is_data_changed, is_header_changed, patch_data_url,
    plan_data_file, plan_fetch, plan_header_file, plan_save, plan_save_with_domain, raw_or_printed, read_around_patch, replace_data_url,
    unparsed_data, unparsed_header, ChartFields, HeaderFields, Response,
};
use bms_table_fetch::filesystem::{OldFile, Unparsed};
use bms_table_fetch::json::Json;
use bms_table_fetch::ordered::SortedMap;
use bms_table_fetch::table::TableInfo;

fn content(text: &str) -> OldFile {
    OldFile::Content(text.to_string())
}

fn info(name: &str, url: &str) -> TableInfo {
    TableInfo {
        name: name.to_string(),
        symbol: "S".to_string(),
        url: url.to_string(),
        extra: SortedMap::new(),
    }
}

#[test]
fn patches_the_data_address() {
    assert_eq!(
        patch_data_url(r#"{"name":"n","data_url" : "https:\/\/x.com\/d.json","symbol":"s"}"#),
        r#"{"name":"n","data_url" : "./data.json","symbol":"s"}"#
    );
    assert_eq!(patch_data_url(r#"{"data_url":""}"#), r#"{"data_url":"./data.json"}"#);
    assert_eq!(patch_data_url(r#"{"data_url":"a\"b\\"}"#), r#"{"data_url":"./data.json"}"#);
    assert_eq!(patch_data_url(r#"発{"data_url":"発"}狂"#), r#"発{"data_url":"./data.json"}狂"#);
}

#[test]
fn the_key_at_the_top_is_patched() {
    assert_eq!(
        patch_data_url(r#"{"x":"data_url","name":"foo","data_url":"y"}"#),
        r#"{"x":"data_url","name":"foo","data_url":"./data.json"}"#
    );
    assert_eq!(
        patch_data_url(r#"{"course":[{"data_url":"c"}],"data_url":"y"}"#),
        r#"{"course":[{"data_url":"c"}],"data_url":"./data.json"}"#
    );
    assert_eq!(
        patch_data_url(r#"{"comment":"\"data_url\":\"z\"}","data_url":"y"}"#),
        r#"{"comment":"\"data_url\":\"z\"}","data_url":"./data.json"}"#
    );
    for header in [
        r#"{"data_url":null,"name":"x"}"#,
        r#"{"data_url":1,"a":{"data_url":"x"}}"#,
        r#"{"x":"data_url","name":"foo"}"#,
        r#"["data_url","x"]"#,
    ] {
        assert_eq!(patch_data_url(header), header);
    }
}

#[test]
fn a_deeper_key_is_patched_where_there_is_none_at_the_top() {
    assert_eq!(patch_data_url(r#"{"a":{"data_url":"x"}}"#), r#"{"a":{"data_url":"./data.json"}}"#);
    assert_eq!(
        patch_data_url(r#"[{"data_url":"x"},{"data_url":"y"}]"#),
        r#"[{"data_url":"./data.json"},{"data_url":"y"}]"#
    );
    assert_eq!(patch_data_url(r#""data_url" : "x""#), r#""data_url" : "./data.json""#);
    let once = patch_data_url(r#"{"a":{"data_url":"x"}}"#);
    assert_eq!(patch_data_url(&once), once);
}

#[test]
fn a_patched_header_reads_the_same_but_for_its_address() {
    for header in [
        r#"{"name":"n","symbol":"s","data_url":"https://d.com/x.json","course":[{"data_url":"c"}]}"#,
        "{\n  \"data_url\" :\t\"a\\u0022b\", \"x\": \"data_url\" }",
    ] {
        let mut expected = serde_json::from_str::<serde_json::Value>(header).unwrap();
        expected["data_url"] = serde_json::Value::String("./data.json".to_string());
        assert_eq!(
            serde_json::from_str::<serde_json::Value>(&patch_data_url(header)).unwrap(),
            expected
        );
        let (before, after) = read_around_patch(header);
        assert_eq!(before.unwrap().text(), serde_json::from_str::<serde_json::Value>(header).unwrap().to_string());
        assert_eq!(after.unwrap().text(), expected.to_string());
    }
}

#[test]
fn a_key_spelled_twice_is_read_from_its_last_spelling() {
    let (before, after) = read_around_patch(r#"{"data_url":"a","data\u005furl":"b"}"#);
    assert_eq!(before.unwrap().text(), r#"{"data_url":"b"}"#);
    assert_eq!(after.unwrap().text(), r#"{"data_url":"b"}"#);
    let (before, after) = read_around_patch(r#"{"data_url":"a""#);
    assert!(before.is_none() && after.is_none());
}

#[test]
fn headers_without_a_data_address_are_kept() {
    for header in ["", "{}", r#"{"data_url"}"#, r#"{"data_url":}"#, r#"{"data_url":"open"#, r#"{"data_url":"a\"#] {
        assert_eq!(patch_data_url(header), header);
    }
}

#[test]
fn patching_twice_changes_nothing() {
    let once = patch_data_url(r#"{"data_url":"x","y":"data_url"}"#);
    assert_eq!(patch_data_url(&once), once);
}

#[test]
fn replaces_the_data_address_everywhere() {
    assert_eq!(replace_data_url(r#"{"data_url":"d","x":"d"}"#, "d\""), r#"{"data_url":"data.json,"x":"data.json}"#);
    assert_eq!(replace_data_url("abc", "zzz"), "abc");
    assert_eq!(replace_data_url("ab", ""), "data.jsonadata.jsonbdata.json");
}

const HEADER: &str = r#"{"name":"n","symbol":"s","data_url":"./data.json","level_order":[1,"2"],"course":[{"name":"c","constraint":[],"trophy":[{"name":"g","missrate":5.0,"scorerate":70.0}],"md5":["00"]}],"tag":1}"#;

#[test]
fn headers_are_compared_by_known_fields() {
    let old = content(HEADER);
    assert!(!is_header_changed(&old, HEADER));
    assert!(!is_header_changed(&old, &HEADER.replace(r#","tag":1"#, r#","tag":2,"more":[]"#)));
    assert!(is_header_changed(&old, &HEADER.replace(r#""name":"n""#, r#""name":"m""#)));
    assert!(is_header_changed(&old, &HEADER.replace(r#""symbol":"s""#, r#""symbol":"t""#)));
    assert!(is_header_changed(&old, &HEADER.replace("./data.json", "d.json")));
    assert!(is_header_changed(&old, &HEADER.replace(r#"[1,"2"]"#, r#"["2",1]"#)));
    assert!(is_header_changed(&old, &HEADER.replace("70.0", "71.0")));
    assert!(!is_header_changed(&old, &HEADER.replace("70.0", "70")));
    assert!(is_header_changed(&old, "{}"));
    assert!(is_header_changed(&content("{}"), HEADER));
    assert!(!is_header_changed(&content("{}"), "{}"));
    assert!(is_header_changed(&OldFile::Missing, HEADER));
    assert!(is_header_changed(&OldFile::Unreadable, HEADER));
}

#[test]
fn reads_headers() {
    let header = HeaderFields::parse(HEADER).unwrap();
    assert_eq!(header.name, "n");
    assert_eq!(header.symbol, "s");
    assert_eq!(header.data_url, "./data.json");
    assert_eq!(header.level_order, ["1", "2"]);
    assert!(header.course.text().contains("\"missrate\":5.0"));
    assert!(HeaderFields::parse("[]").is_none());
    assert!(HeaderFields::parse(r#"{"name":"n"}"#).is_none());
}

const DATA: &str = r#"[{"level":"1","md5":"m","title":"t","url_diff":null,"comment":"x"},{"level":2}]"#;

#[test]
fn charts_are_compared_by_known_fields() {
    let old = content(DATA);
    assert!(!is_data_changed(&old, DATA));
    assert!(!is_data_changed(&old, &DATA.replace(r#""comment":"x""#, r#""comment":"y","z":1"#)));
    assert!(!is_data_changed(&old, &DATA.replace(r#""level":2"#, r#""level":"2""#)));
    assert!(is_data_changed(&old, &DATA.replace(r#""title":"t""#, r#""title":"u""#)));
    assert!(is_data_changed(&old, &DATA.replace(r#""md5":"m""#, r#""sha256":"m""#)));
    assert!(is_data_changed(&old, &DATA.replace(r#",{"level":2}"#, "")));
    assert!(is_data_changed(&old, "no"));
    assert!(is_data_changed(&content("no"), DATA));
    assert!(!is_data_changed(&content("no"), "no"));
    assert!(is_data_changed(&OldFile::Missing, DATA));
    assert!(is_data_changed(&OldFile::Unreadable, DATA));
}

#[test]
fn reads_charts() {
    let charts = ChartFields::parse_list(DATA).unwrap();
    assert_eq!(charts.len(), 2);
    assert_eq!(charts[0].md5.as_deref(), Some("m"));
    assert_eq!(charts[0].title.as_deref(), Some("t"));
    assert_eq!(charts[0].url_diff, None);
    assert_eq!(charts[1].level, "2");
    assert!(!charts[0].same(&charts[1]));
    assert!(ChartFields::parse_list("7").is_none());
}

#[test]
fn raw_text_is_written_where_it_can_be_read() {
    let printed = || "printed".to_string();
    assert_eq!(header_to_write(HEADER.to_string(), printed()), HEADER);
    assert_eq!(header_to_write("{}".to_string(), printed()), "printed");
    assert_eq!(data_to_write(DATA.to_string(), printed()), DATA);
    assert_eq!(data_to_write("no".to_string(), printed()), "printed");
    assert_eq!(raw_or_printed(true, "raw".to_string(), printed()), "raw");
    assert_eq!(raw_or_printed(false, "raw".to_string(), printed()), "printed");
}

#[test]
fn files_are_written_where_they_changed() {
    let printed = || "printed".to_string();
    let header = |old: &OldFile, new: &str| plan_header_file(old, new.to_string(), printed());
    assert_eq!(header(&content(HEADER), HEADER), None);
    assert_eq!(header(&OldFile::Missing, HEADER).as_deref(), Some(HEADER));
    assert_eq!(header(&content(HEADER), "{}").as_deref(), Some("printed"));
    let data = |old: &OldFile, new: &str| plan_data_file(old, new.to_string(), printed());
    assert_eq!(data(&content(DATA), DATA), None);
    assert_eq!(data(&OldFile::Unreadable, DATA).as_deref(), Some(DATA));
    assert_eq!(data(&content(DATA), "no").as_deref(), Some("printed"));
}

#[test]
fn says_which_side_is_not_read() {
    assert!(unparsed_header(&content(HEADER), HEADER).is_none());
    assert!(unparsed_header(&content("{}"), "{}").is_none());
    assert!(unparsed_header(&OldFile::Missing, "{}").is_none());
    assert!(unparsed_header(&content("{}"), HEADER) == Some(Unparsed::Old));
    assert!(unparsed_header(&content("{}"), "[]") == Some(Unparsed::Old));
    assert!(unparsed_header(&content(HEADER), "{}") == Some(Unparsed::New));
    assert!(unparsed_data(&content(DATA), "[]").is_none());
    assert!(unparsed_data(&content("no"), DATA) == Some(Unparsed::Old));
    assert!(unparsed_data(&content(DATA), "no") == Some(Unparsed::New));
    assert!(unparsed_data(&OldFile::Unreadable, "no").is_none());
}

#[test]
fn plans_the_directory_before_the_fetch() {
    let i = info("N", "https://a.com/t");
    let plan = plan_fetch(&i, None);
    assert_eq!(plan.pre_dir_name, "[a.com] N");
    assert!(plan.rename.is_none());
    let plan = plan_fetch(&i, Some("[a.com] N"));
    assert!(plan.rename.is_none());
    let plan = plan_fetch(&i, Some("[a.com] Old"));
    let rename = plan.rename.unwrap();
    assert_eq!((rename.old_path.as_str(), rename.new_path.as_str()), ("[a.com] Old", "[a.com] N"));
}

fn response() -> Response {
    Response {
        name: "Real: Name".to_string(),
        symbol: "R".to_string(),
        header_raw: r#"{"data_url":"https://d.com/x.json"}"#.to_string(),
        header_json_url: "https://head.com/header.json".to_string(),
        data_json_url: "https://d.com/x.json".to_string(),
    }
}

#[test]
fn plans_what_is_saved() {
    let mut i = info("N", "https://a.com/t");
    i.extra.insert("tag".to_string(), Json::Bool(true));
    i.extra.insert("url_data_json".to_string(), Json::Null);
    let plan = plan_save(i, "[a.com] N", &response());
    assert_eq!(plan.dir_name, "[head.com] Real： Name");
    let rename = plan.rename.unwrap();
    assert_eq!((rename.old_path.as_str(), rename.new_path.as_str()), ("[a.com] N", "[head.com] Real： Name"));
    assert_eq!(plan.header, r#"{"data_url":"./data.json"}"#);
    assert_eq!(plan.info.name, "Real: Name");
    assert_eq!(plan.info.symbol, "R");
    assert_eq!(plan.info.url, "https://a.com/t");
    let field = |k: &str| plan.info.extra.get(k).map(|v| v.text());
    assert_eq!(field("tag").as_deref(), Some("true"));
    assert_eq!(field("url_header_json").as_deref(), Some("\"https://head.com/header.json\""));
    assert_eq!(field("url_data_json").as_deref(), Some("\"https://d.com/x.json\""));
}

#[test]
fn plans_without_a_header_domain() {
    let plan = plan_save_with_domain(info("N", "https://a.com/t"), "[unknown.domain] Real： Name", None, &response());
    assert_eq!(plan.dir_name, "[unknown.domain] Real： Name");
    assert!(plan.rename.is_none());
    let mut r = response();
    r.header_json_url = "http://127.0.0.1/header.json".to_string();
    assert_eq!(plan_save(info("N", "https://a.com/t"), "x", &r).dir_name, "[unknown.domain] Real： Name");
}
