//! Differences between configurations.
use blend::diff::diff_configs;
use blend::diff::semantic::{
    collect_key_changes, diff_values, filter_keys, format_value, join_path, semantic_diff,
    semantic_diff_keys, semantic_diff_keys_styled, semantic_diff_styled, KeyChangeType,
};
use blend::diff::text::{diff_lines, keep_lines, text_diff};
use blend::formats::Format;
use blend::json::{same_value, Json};

fn text(s: &str) -> Json {
    Json::Text(s.to_string())
}

fn number(s: &str) -> Json {
    Json::Number(s.to_string())
}

fn object(entries: Vec<(&str, Json)>) -> Json {
    Json::Object(entries.into_iter().map(|(k, v)| (k.to_string(), v)).collect())
}

#[test]
fn test_filter_keys() {
    let value = object(vec![
        ("keep", text("this")),
        ("remove", text("this")),
        ("nested", object(vec![("keep", text("nested")), ("remove", text("also"))])),
    ]);

    let filtered = filter_keys(&value, &["remove".to_string()]);
    assert!(filtered.get("keep").is_some());
    assert!(filtered.get("remove").is_none());
    assert!(filtered.get("nested").unwrap().get("keep").is_some());
    assert!(filtered.get("nested").unwrap().get("remove").is_none());
}

#[test]
fn test_semantic_diff_no_changes() {
    let config = r#"{"key": "value"}"#;
    let result = semantic_diff(Format::Json, config, config, &[]);
    assert!(!result.has_changes);
}

#[test]
fn test_semantic_diff_with_changes() {
    let generated = r#"{"key": "new"}"#;
    let deployed = r#"{"key": "old"}"#;
    let result = semantic_diff(Format::Json, generated, deployed, &[]);
    assert!(result.has_changes);
    assert!(result.output.contains("key"));
}

#[test]
fn test_semantic_diff_keys_no_changes() {
    let config = r#"{"key": "value"}"#;
    let changes = semantic_diff_keys(Format::Json, config, config, &[]);
    assert!(changes.is_empty());
}

#[test]
fn test_semantic_diff_keys_modified() {
    let generated = r#"{"key": "new", "other": 1}"#;
    let deployed = r#"{"key": "old", "other": 1}"#;
    let changes = semantic_diff_keys(Format::Json, generated, deployed, &[]);
    assert_eq!(changes.len(), 1);
    assert_eq!(changes[0].path, "key");
    assert_eq!(changes[0].change_type, KeyChangeType::Modified);
    assert_eq!(changes[0].repo_value, Some(text("new")));
    assert_eq!(changes[0].deployed_value, Some(text("old")));
}

#[test]
fn test_semantic_diff_keys_added_and_removed() {
    let generated = r#"{"repo_only": 1, "shared": true}"#;
    let deployed = r#"{"deployed_only": 2, "shared": true}"#;
    let changes = semantic_diff_keys(Format::Json, generated, deployed, &[]);
    assert_eq!(changes.len(), 2);

    let added = changes.iter().find(|c| c.path == "repo_only").unwrap();
    assert_eq!(added.change_type, KeyChangeType::Added);
    assert!(added.deployed_value.is_none());

    let removed = changes.iter().find(|c| c.path == "deployed_only").unwrap();
    assert_eq!(removed.change_type, KeyChangeType::Removed);
    assert!(removed.repo_value.is_none());
}

#[test]
fn test_semantic_diff_keys_nested() {
    let generated = r#"{"section": {"a": 1, "b": 2}}"#;
    let deployed = r#"{"section": {"a": 1, "b": 3}}"#;
    let changes = semantic_diff_keys(Format::Json, generated, deployed, &[]);
    assert_eq!(changes.len(), 1);
    assert_eq!(changes[0].path, "section.b");
    assert_eq!(changes[0].change_type, KeyChangeType::Modified);
}

#[test]
fn test_semantic_diff_keys_ignores_keys() {
    let generated = r#"{"keep": "new", "skip": "new"}"#;
    let deployed = r#"{"keep": "old", "skip": "old"}"#;
    let changes = semantic_diff_keys(Format::Json, generated, deployed, &["skip".to_string()]);
    assert_eq!(changes.len(), 1);
    assert_eq!(changes[0].path, "keep");
}

fn strings(list: &[&str]) -> Vec<String> {
    list.iter().map(|s| s.to_string()).collect()
}

#[test]
fn changes_are_shown_with_their_values() {
    let changes = semantic_diff_keys_styled(
        Format::Json,
        r#"{"a": "x", "b": 1, "c": [1, 2]}"#,
        r#"{"b": 2, "d": null}"#,
        &[],
        false,
    );
    let shown: Vec<&str> = changes.iter().map(|c| c.display.as_str()).collect();
    assert_eq!(shown, ["+ a = \"x\"", "~ b = 2 -> 1", "+ c = [1, 2]", "- d = null"]);
    assert_eq!(changes[3].path, "d");
    assert_eq!(changes[3].change_type, KeyChangeType::Removed);
    assert_eq!(changes[3].deployed_value, Some(Json::Null));
}

#[test]
fn values_are_formatted() {
    assert_eq!(format_value(&Json::Null), "null");
    assert_eq!(format_value(&Json::Bool(false)), "false");
    assert_eq!(format_value(&number("12")), "12");
    assert_eq!(format_value(&text("hi")), "\"hi\"");
    assert_eq!(format_value(&object(vec![("a", Json::Null)])), "{...}");
    let items = |n: usize| Json::Array((0..n).map(|_| text("x")).collect());
    assert_eq!(format_value(&items(3)), "[\"x\", \"x\", \"x\"]");
    assert_eq!(format_value(&items(4)), "[...4 items]");
}

#[test]
fn paths_are_joined_with_dots() {
    assert_eq!(join_path("", "key"), "key");
    assert_eq!(join_path("a.b", "key"), "a.b.key");
}

#[test]
fn numbers_with_one_value_are_equal() {
    let result = semantic_diff(Format::Json, r#"{"n": 12}"#, r#"{"n": 12.0}"#, &[]);
    assert!(!result.has_changes);
    let result = semantic_diff(Format::Json, r#"{"n": 12}"#, r#"{"n": 13}"#, &[]);
    assert!(result.has_changes);
    assert!(same_value("0.0", "-0.0"));
    assert!(!same_value("0.1", "0.2"));
}

#[test]
fn ignored_keys_are_left_out_at_every_depth() {
    let value = object(vec![
        ("a", object(vec![("skip", number("1")), ("b", number("2"))])),
        ("list", Json::Array(vec![object(vec![("skip", Json::Null)])])),
    ]);
    let kept = filter_keys(&value, &strings(&["skip"]));
    assert_eq!(kept.get("a").unwrap(), &object(vec![("b", number("2"))]));
    assert_eq!(kept.get("list").unwrap(), &Json::Array(vec![object(vec![])]));
    assert_eq!(filter_keys(&value, &[]), value);
}

#[test]
fn ignored_keys_may_be_paths() {
    let generated = r#"{"section": {"a": 1, "b": 1}, "b": 1}"#;
    let deployed = r#"{"section": {"a": 1, "b": 2}, "b": 1}"#;
    let ignored = strings(&["section.b"]);
    assert!(semantic_diff_keys(Format::Json, generated, deployed, &ignored).is_empty());
    assert!(!semantic_diff(Format::Json, generated, deployed, &ignored).has_changes);
    let top = r#"{"section": {"a": 1, "b": 1}, "b": 3}"#;
    let changes = semantic_diff_keys(Format::Json, top, deployed, &ignored);
    assert_eq!(changes.len(), 1);
    assert_eq!(changes[0].path, "b");
    let value = object(vec![("section", object(vec![("a", number("1")), ("b", number("2"))]))]);
    assert_eq!(
        filter_keys(&value, &ignored),
        object(vec![("section", object(vec![("a", number("1"))]))])
    );
    let listed = object(vec![("l", Json::Array(vec![object(vec![("x", number("1"))])]))]);
    assert_eq!(
        filter_keys(&listed, &strings(&["l.x"])),
        object(vec![("l", Json::Array(vec![object(vec![])]))])
    );
}

#[test]
fn items_of_lists_are_compared_as_values() {
    let keys = |a: &str, b: &str| semantic_diff_keys(Format::Json, a, b, &[]).len();
    assert_eq!(keys(r#"{"a": [12]}"#, r#"{"a": [12.0]}"#), 0);
    assert_eq!(keys(r#"{"a": [[12], 1]}"#, r#"{"a": [[12.0], 1.0]}"#), 0);
    assert_eq!(keys(r#"{"a": [{"x": 1, "y": 2}]}"#, r#"{"a": [{"y": 2.0, "x": 1}]}"#), 0);
    assert_eq!(keys(r#"{"a": [12]}"#, r#"{"a": [13.0]}"#), 1);
    assert_eq!(keys(r#"{"a": [12]}"#, r#"{"a": [12, 12]}"#), 1);
    assert_eq!(keys(r#"{"a": [{"x": 1}]}"#, r#"{"a": [{"x": 1, "y": 2}]}"#), 1);
    assert!(!semantic_diff(Format::Json, r#"{"a": [12]}"#, r#"{"a": [12.0]}"#, &[]).has_changes);
}

#[test]
fn the_other_way_round_added_and_removed_change_places() {
    let a = r#"{"k": 1, "only_a": 2, "s": {"x": [1], "in_a": true}}"#;
    let b = r#"{"k": 2, "only_b": 3, "s": {"x": [2]}}"#;
    let there = semantic_diff_keys(Format::Json, a, b, &[]);
    let back = semantic_diff_keys(Format::Json, b, a, &[]);
    assert_eq!(there.len(), 5);
    assert_eq!(back.len(), 5);
    for c in &there {
        let mirrored = match c.change_type {
            KeyChangeType::Added => KeyChangeType::Removed,
            KeyChangeType::Removed => KeyChangeType::Added,
            KeyChangeType::Modified => KeyChangeType::Modified,
        };
        assert!(back.iter().any(|d| d.path == c.path
            && d.change_type == mirrored
            && d.repo_value == c.deployed_value
            && d.deployed_value == c.repo_value));
    }
}

#[test]
fn no_key_is_reported_of_unreadable_text() {
    assert!(semantic_diff_keys(Format::Json, "{", "{\"a\": 1}", &[]).is_empty());
    assert!(semantic_diff_keys(Format::Json, "{\"a\": 1}", "{", &[]).is_empty());
    assert!(semantic_diff(Format::Json, "{", "{\"a\": 1}", &[]).has_changes);
}

#[test]
fn unreadable_text_is_compared_by_lines() {
    let result = semantic_diff_styled(Format::Json, "{ nope\nb", "{ nope\nc", &[], false);
    assert!(result.has_changes);
    assert_eq!(result.output, "-c\n+b");
    assert!(semantic_diff_keys(Format::Json, "{ nope", "{}", &[]).is_empty());
}

#[test]
fn toml_is_compared_by_what_it_holds() {
    let result = semantic_diff(Format::Toml, "a = 1\nb = \"x\"\n", "b   = 'x'\na = 1\n", &[]);
    assert!(!result.has_changes);
    let changes = semantic_diff_keys(Format::Toml, "[s]\na = 1\n", "[s]\na = 2\n", &[]);
    assert_eq!(changes.len(), 1);
    assert_eq!(changes[0].path, "s.a");
    assert_eq!(changes[0].repo_value, Some(number("1")));
}

#[test]
fn lines_are_compared_outside_their_shared_ends() {
    let generated = strings(&["same", "new", "end"]);
    let deployed = strings(&["same", "old", "end"]);
    assert_eq!(diff_lines(&generated, &deployed, false), strings(&["-old", "+new"]));
    assert!(diff_lines(&generated, &generated, false).is_empty());
}

#[test]
fn lines_of_both_sides_are_never_shown() {
    let shown = |generated: &[&str], deployed: &[&str]| {
        diff_lines(&strings(generated), &strings(deployed), false)
    };
    assert_eq!(
        shown(&["x", "b", "y"], &["a", "b", "c"]),
        strings(&["-a", "+x", "-c", "+y"])
    );
    assert_eq!(
        shown(&["a", "b", "c", "a", "b", "b", "a"], &["c", "b", "a", "b", "a", "c"]).len(),
        5
    );
    assert_eq!(shown(&["a", "new", "b"], &["a", "b"]), strings(&["+new"]));
    assert_eq!(shown(&["a", "b"], &["a", "old", "b"]), strings(&["-old"]));
    assert_eq!(shown(&["a", "a"], &["a"]), strings(&["+a"]));
    assert_eq!(shown(&["a", "b"], &["b", "a"]), strings(&["-b", "+b"]));
    assert_eq!(shown(&[], &["a"]), strings(&["-a"]));
    assert_eq!(shown(&["a"], &[]), strings(&["+a"]));
}

#[test]
fn lines_that_match_a_pattern_are_ignored() {
    let patterns = strings(&["^set geometry"]);
    assert_eq!(keep_lines("set geometry 1\nkeep\n", &patterns), strings(&["keep"]));
    let result = text_diff("set geometry 1\nkeep\n", "set geometry 2\nkeep\n", &patterns);
    assert!(!result.has_changes);
    let result = text_diff("a\n", "b\n", &[]);
    assert!(result.has_changes);
}

#[test]
fn colours_change_no_outcome() {
    let plain = semantic_diff_styled(Format::Json, r#"{"k": 1}"#, r#"{"k": 2}"#, &[], false);
    let styled = semantic_diff_styled(Format::Json, r#"{"k": 1}"#, r#"{"k": 2}"#, &[], true);
    assert_eq!(plain.has_changes, styled.has_changes);
    assert_ne!(plain.output, styled.output);
    assert!(styled.output.contains("\u{1b}["));
    assert!(!plain.output.contains("\u{1b}["));
}

#[test]
fn a_text_is_equal_to_itself_in_every_format() {
    let formats = [
        Format::Toml,
        Format::Json,
        Format::Jsonc,
        Format::Yaml,
        Format::SpaceDelimitedPairs,
        Format::SpaceDelimitedRecord,
        Format::EqualDelimitedRecord,
        Format::Plaintext,
    ];
    for format in formats {
        for content in ["", "{\"a\": [1, {\"b\": null}]}", "a = 1\n", "not { json", "k v\nk w\n"] {
            assert!(!diff_configs(format, content, content, &[]).has_changes);
        }
    }
}

#[test]
fn collected_changes_are_appended() {
    let mut changes = Vec::new();
    collect_key_changes(&number("1"), &number("2"), "here", false, &mut changes);
    collect_key_changes(&number("1"), &number("1"), "there", false, &mut changes);
    assert_eq!(changes.len(), 1);
    assert_eq!(changes[0].path, "here");
    let mut shown = Vec::new();
    assert!(diff_values(&number("1"), &number("2"), "here", false, &mut shown));
    assert_eq!(shown[0], changes[0].display);
}
