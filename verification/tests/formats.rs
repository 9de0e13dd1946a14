//! Formats, text and JSON values.
use blend::formats::{get_renderer, strip_jsonc, Format};
use blend::json::Json;
use blend::text::{
    comes_before, decimal, hexadecimal, lines_of, pad, repeat, replace, sort_texts, trim,
};

fn text(s: &str) -> Json {
    Json::Text(s.to_string())
}

fn number(s: &str) -> Json {
    Json::Number(s.to_string())
}

fn object(entries: Vec<(&str, Json)>) -> Json {
    Json::Object(entries.into_iter().map(|(k, v)| (k.to_string(), v)).collect())
}

fn pair(key: &str, value: &str) -> Json {
    Json::Array(vec![text(key), text(value)])
}

#[test]
fn the_extension_tells_the_format() {
    assert_eq!(Format::from_path("starship.toml"), Format::Toml);
    assert_eq!(Format::from_path("dir.json/settings.jsonc"), Format::Jsonc);
    assert_eq!(Format::from_path("settings.json"), Format::Json);
    assert_eq!(Format::from_path("a.yaml"), Format::Yaml);
    assert_eq!(Format::from_path("a.yml"), Format::Yaml);
    assert_eq!(Format::from_path("kitty.conf"), Format::Plaintext);
    assert_eq!(Format::from_path(".toml"), Format::Plaintext);
    assert_eq!(Format::from_path(""), Format::Plaintext);
}

#[test]
fn orders_name_formats() {
    assert_eq!(Format::from_name("toml"), Some(Format::Toml));
    assert_eq!(Format::from_name("space_delimited_pairs"), Some(Format::SpaceDelimitedPairs));
    assert_eq!(Format::from_name("space_delimited_record"), Some(Format::SpaceDelimitedRecord));
    assert_eq!(Format::from_name("equal_delimited_record"), Some(Format::EqualDelimitedRecord));
    assert_eq!(Format::from_name("plaintext"), Some(Format::Plaintext));
    assert_eq!(Format::from_name("xml"), None);
}

#[test]
fn comments_and_trailing_commas_are_stripped() {
    assert_eq!(strip_jsonc("{\"a\": 1, // one\n}"), "{\"a\": 1 \n}");
    assert_eq!(strip_jsonc("[1, /* two */ 2, ]"), "[1,  2 ]");
    assert_eq!(strip_jsonc("{\"a\": \"// no, ]\"}"), "{\"a\": \"// no, ]\"}");
    assert_eq!(strip_jsonc("\"\\\"// x\""), "\"\\\"// x\"");
    assert_eq!(strip_jsonc("1 /* open"), "1 ");
}

#[test]
fn json_falls_back_to_comments() {
    let value = object(vec![("a", number("1"))]);
    assert_eq!(get_renderer(Format::Json).parse("{\"a\": 1, /* x */}"), Some(value.copy()));
    assert_eq!(get_renderer(Format::Jsonc).parse("{\"a\": 1,}"), Some(value.copy()));
    assert_eq!(get_renderer(Format::Json).parse("{\"a\": 1}"), Some(value));
    assert_eq!(get_renderer(Format::Json).parse("{"), None);
}

#[test]
fn json_is_printed_and_read_back() {
    let value = object(vec![
        ("b", Json::Array(vec![Json::Null, Json::Bool(true)])),
        ("a", text("x \"y\"")),
        ("n", number("1.5")),
    ]);
    let json = get_renderer(Format::Json);
    let printed = json.render(&value).unwrap();
    assert_eq!(
        printed,
        "{\n  \"b\": [\n    null,\n    true\n  ],\n  \"a\": \"x \\\"y\\\"\",\n  \"n\": 1.5\n}"
    );
    assert_eq!(json.parse(&printed), Some(value.copy()));
    assert_eq!(get_renderer(Format::Jsonc).render(&value), Ok(printed));
    assert!(json.render(&number("one")).is_err());
}

#[test]
fn toml_is_printed_and_read() {
    let value = object(vec![
        ("command_timeout", number("10000")),
        ("git_branch", object(vec![("style", text("bold bright-green"))])),
    ]);
    let toml = get_renderer(Format::Toml);
    let printed = toml.render(&value).unwrap();
    assert_eq!(printed, "command_timeout = 10000\n\n[git_branch]\nstyle = \"bold bright-green\"\n");
    assert_eq!(toml.parse(&printed), Some(value));
    assert_eq!(toml.parse("a = "), None);
    let nulled = object(vec![("a", Json::Null)]);
    assert!(!toml.render(&nulled).unwrap_err().is_empty());
}

#[test]
fn delimited_records_are_read_back() {
    let value = object(vec![("key", text("some value")), ("empty", text("")), ("k2", text("a=b"))]);
    let space = get_renderer(Format::SpaceDelimitedRecord);
    assert_eq!(space.render(&value).unwrap(), "key some value\nempty \nk2 a=b\n");
    assert_eq!(space.parse(&space.render(&value).unwrap()), Some(value.copy()));
    let equal = get_renderer(Format::EqualDelimitedRecord);
    assert_eq!(equal.render(&value).unwrap(), "key=some value\nempty=\nk2=a=b\n");
    assert_eq!(equal.parse(&equal.render(&value).unwrap()), Some(value));
    let spaced = object(vec![("k", text("v"))]);
    assert_eq!(equal.parse("  k = v \n\n"), Some(spaced));
}

#[test]
fn a_repeated_key_keeps_its_last_value() {
    let equal = get_renderer(Format::EqualDelimitedRecord);
    assert_eq!(equal.parse("k=1\nj=2\nk=3"), Some(object(vec![("k", text("3")), ("j", text("2"))])));
}

#[test]
fn delimited_pairs_are_read_back() {
    let value = Json::Array(vec![
        pair("font_size", "16.0"),
        pair("map", "cmd+v paste_from_clipboard"),
        pair("map", "cmd+c copy"),
    ]);
    let pairs = get_renderer(Format::SpaceDelimitedPairs);
    let printed = pairs.render(&value).unwrap();
    assert_eq!(printed, "font_size 16.0\nmap cmd+v paste_from_clipboard\nmap cmd+c copy\n");
    assert_eq!(pairs.parse(&printed), Some(value));
    assert!(pairs.render(&object(vec![])).is_err());
}

#[test]
fn values_without_a_line_are_not_rendered() {
    let nested = object(vec![("a", object(vec![]))]);
    assert!(get_renderer(Format::SpaceDelimitedRecord).render(&nested).is_err());
    assert!(get_renderer(Format::EqualDelimitedRecord).render(&number("1")).is_err());
    assert!(get_renderer(Format::Plaintext).render(&number("1")).is_err());
    assert_eq!(get_renderer(Format::Plaintext).render(&text("x")), Ok("x".to_string()));
    let short = Json::Array(vec![Json::Array(vec![text("alone")])]);
    assert!(get_renderer(Format::SpaceDelimitedPairs).render(&short).is_err());
}

#[test]
fn values_are_equal_whatever_the_order_of_their_keys() {
    let a = object(vec![("x", number("1")), ("y", number("2"))]);
    let b = object(vec![("y", number("2")), ("x", number("1"))]);
    assert_eq!(a, b);
    assert_eq!(a, a.copy());
    assert_ne!(a, object(vec![("x", number("1"))]));
    assert_ne!(number("1"), text("1"));
    assert!(a.is_object());
    assert!(!number("1").is_object());
    assert_eq!(a.get("y"), Some(&number("2")));
    assert_eq!(a.get("z"), None);
    assert_eq!(number("1").get("z"), None);
}

#[test]
fn text_helpers() {
    assert_eq!(decimal(0), "0");
    assert_eq!(decimal(1205), "1205");
    assert_eq!(hexadecimal(0xe76f), "e76f");
    assert_eq!(repeat("ab", 3), "ababab");
    assert_eq!(replace("a-b-a", "a", "xy"), "xy-b-xy");
    assert_eq!(replace("aaa", "aa", "b"), "ba");
    assert_eq!(replace("none", "zz", "y"), "none");
    assert_eq!(trim(" \t x y \u{a0}\n"), "x y");
    assert_eq!(lines_of("a\r\nb\n\nc"), ["a", "b", "", "c"]);
    assert_eq!(lines_of("a\n"), ["a"]);
    assert!(lines_of("").is_empty());
    assert_eq!(pad("\u{2713}", 3), "\u{2713}  ");
    assert_eq!(pad("long", 3), "long");
}

#[test]
fn texts_are_sorted() {
    let list: Vec<String> =
        ["zsh", "git", "Git", "gi", "\u{e9}t\u{e9}", ""].iter().map(|s| s.to_string()).collect();
    let mut expected = list.clone();
    expected.sort();
    assert_eq!(sort_texts(&list), expected);
    assert!(comes_before("git", "gitk"));
    assert!(!comes_before("git", "git"));
    assert!(!comes_before("gitk", "git"));
    assert!(comes_before("a", "b"));
}
