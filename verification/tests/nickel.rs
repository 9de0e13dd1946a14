//! Orders: where their values stand, and how they are rewritten.
use blend::formats::Format;
use blend::json::Json;
use blend::metadata::Metadata;
use blend::nickel::ast_utils::{
    find_rewritable_value, locate_from_config, locate_in_term, EntryFailure, LeafSpan,
    RewriteResult, SingleFieldResult,
};
use blend::nickel::literal::{
    escape_nickel_string, format_nickel_key, is_reserved, is_valid_nickel_ident, json_to_nickel,
};
use blend::nickel::loader::NickelEvaluator;
use blend::nickel::rewrite::{
    apply_edits, checked_rewrite, detect_indent_level, surgical_rewrite, Edit, RewriteError,
};
use blend::nickel::schema::{BlendConfig, Condition, EntryError, FileEntry, OrderPackage};
use blend::nickel::term::{Kind, Span, Term};

fn test_metadata(os: &str) -> Metadata {
    Metadata {
        os: os.to_string(),
        arch: "aarch64".to_string(),
        hostname: "testhost".to_string(),
        desktop: None,
        home: "/home/test".to_string(),
        user: "test".to_string(),
    }
}

fn text(s: &str) -> Json {
    Json::Text(s.to_string())
}

fn number(s: &str) -> Json {
    Json::Number(s.to_string())
}

fn object(entries: Vec<(&str, Json)>) -> Json {
    Json::Object(entries.into_iter().map(|(k, v)| (k.to_string(), v)).collect())
}

#[test]
fn test_locate_plain_data() {
    let source = r#"{
  blend = {
    files = [
      {
        name = "test.toml",
        from_config = {
          key = "value",
          number = 42,
        },
      },
    ],
  },
}"#;
    let meta = test_metadata("darwin");
    let result = locate_from_config(source, 0, &meta).unwrap();
    assert!(
        result.is_rewritable(),
        "Plain data should be fully rewritable"
    );

    let spans = result.rewritable_spans();
    assert_eq!(spans.len(), 2);
    assert_eq!(spans[0].name, "key");
    assert_eq!(spans[1].name, "number");
    // Plain data should have empty branch context
    assert!(spans[0].branch_context.is_empty());
}

#[test]
fn test_locate_match_expression() {
    let source = r#"let metadata = { os = "darwin", arch = "aarch64", hostname = "test", user = "test", home = "/home/test" } in {
  blend = {
    files = [
      {
        name = "test.toml",
        from_config = {
          font_size = metadata.os |> match {
            "darwin" => 14,
            _ => 12,
          },
          name = "hello",
        },
      },
    ],
  },
}"#;
    let meta = test_metadata("darwin");
    let result = locate_from_config(source, 0, &meta).unwrap();
    assert!(
        result.is_rewritable(),
        "Match resolving to literal should be rewritable"
    );

    let spans = result.rewritable_spans();
    assert_eq!(spans.len(), 2);

    // font_size resolved through match
    let font_span = &spans[0];
    assert_eq!(font_span.name, "font_size");
    assert!(
        !font_span.branch_context.is_empty(),
        "Should have branch context"
    );
    assert!(font_span.branch_context[0].contains("darwin"));

    // Check the span points to "14"
    let value_text = &source[font_span.value_start..font_span.value_end];
    assert_eq!(value_text, "14");
}

#[test]
fn test_locate_match_wildcard_branch() {
    let source = r#"let metadata = { os = "linux", arch = "x86_64", hostname = "test", user = "test", home = "/home/test" } in {
  blend = {
    files = [
      {
        name = "test.toml",
        from_config = {
          font_size = metadata.os |> match {
            "darwin" => 14,
            _ => 12,
          },
        },
      },
    ],
  },
}"#;
    let meta = test_metadata("linux");
    let result = locate_from_config(source, 0, &meta).unwrap();
    assert!(result.is_rewritable());

    let spans = result.rewritable_spans();
    let font_span = &spans[0];
    let value_text = &source[font_span.value_start..font_span.value_end];
    assert_eq!(value_text, "12");
}

#[test]
fn test_locate_with_variable_ref_not_rewritable() {
    let source = r#"let x = 42 in {
  blend = {
    files = [
      {
        name = "test.toml",
        from_config = {
          key = x,
        },
      },
    ],
  },
}"#;
    let meta = test_metadata("darwin");
    let result = locate_from_config(source, 0, &meta).unwrap();
    assert!(!result.has_any_rewritable());
}

#[test]
fn test_locate_no_from_config() {
    let source = r#"{
  blend = {
    files = [
      {
        name = "test.txt",
        from_file = "test.txt",
      },
    ],
  },
}"#;
    let meta = test_metadata("darwin");
    let result = locate_from_config(source, 0, &meta).unwrap();
    assert!(matches!(result, RewriteResult::NotRewritable));
}

#[test]
fn test_locate_partial_rewritability() {
    let source = r#"let base = 10 in
let metadata = { os = "darwin", arch = "aarch64", hostname = "test", user = "test", home = "/home/test" } in {
  blend = {
    files = [
      {
        name = "test.toml",
        from_config = {
          plain_key = "value",
          computed_key = base,
        },
      },
    ],
  },
}"#;
    let meta = test_metadata("darwin");
    let result = locate_from_config(source, 0, &meta).unwrap();

    match &result {
        RewriteResult::Partial {
            rewritable,
            non_rewritable,
        } => {
            assert_eq!(rewritable.len(), 1);
            assert_eq!(rewritable[0].name, "plain_key");
            assert_eq!(non_rewritable.len(), 1);
            assert_eq!(non_rewritable[0].name, "computed_key");
        }
        other => panic!(
            "Expected Partial, got {:?}",
            matches!(other, RewriteResult::NotRewritable)
        ),
    }
}

#[test]
fn test_locate_if_then_else() {
    let source = r#"let metadata = { os = "darwin", arch = "aarch64", hostname = "test", user = "test", home = "/home/test" } in {
  blend = {
    files = [
      {
        name = "test.toml",
        from_config = {
          font_size = if metadata.os == "darwin" then 14 else 12,
        },
      },
    ],
  },
}"#;
    let meta = test_metadata("darwin");
    let result = locate_from_config(source, 0, &meta).unwrap();
    assert!(
        result.has_any_rewritable(),
        "if-then-else resolving to literal should be rewritable"
    );

    let spans = result.rewritable_spans();
    let value_text = &source[spans[0].value_start..spans[0].value_end];
    assert_eq!(value_text, "14");
    assert!(!spans[0].branch_context.is_empty());
}

#[test]
fn test_locate_if_then_else_false_branch() {
    let source = r#"let metadata = { os = "linux", arch = "x86_64", hostname = "test", user = "test", home = "/home/test" } in {
  blend = {
    files = [
      {
        name = "test.toml",
        from_config = {
          font_size = if metadata.os == "darwin" then 14 else 12,
        },
      },
    ],
  },
}"#;
    let meta = test_metadata("linux");
    let result = locate_from_config(source, 0, &meta).unwrap();
    assert!(result.has_any_rewritable());

    let spans = result.rewritable_spans();
    let value_text = &source[spans[0].value_start..spans[0].value_end];
    assert_eq!(value_text, "12");
}

#[test]
fn test_locate_match_three_branches() {
    let source = r#"let metadata = { os = "darwin", arch = "aarch64", hostname = "test", user = "test", home = "/home/test" } in {
  blend = {
    files = [
      {
        name = "test.toml",
        from_config = {
          shell = metadata.os |> match {
            "darwin" => "/bin/zsh",
            "linux" => "/bin/bash",
            _ => "/bin/sh",
          },
        },
      },
    ],
  },
}"#;
    // Test darwin → "/bin/zsh"
    let meta_darwin = test_metadata("darwin");
    let result = locate_from_config(source, 0, &meta_darwin).unwrap();
    let spans = result.rewritable_spans();
    let value_text = &source[spans[0].value_start..spans[0].value_end];
    assert_eq!(value_text, "\"/bin/zsh\"");

    // Test linux → "/bin/bash"
    let meta_linux = test_metadata("linux");
    let result = locate_from_config(source, 0, &meta_linux).unwrap();
    let spans = result.rewritable_spans();
    let value_text = &source[spans[0].value_start..spans[0].value_end];
    assert_eq!(value_text, "\"/bin/bash\"");

    // Test windows → wildcard → "/bin/sh"
    let meta_win = test_metadata("windows");
    let result = locate_from_config(source, 0, &meta_win).unwrap();
    let spans = result.rewritable_spans();
    let value_text = &source[spans[0].value_start..spans[0].value_end];
    assert_eq!(value_text, "\"/bin/sh\"");
}

#[test]
fn test_locate_metadata_arch() {
    let source = r#"let metadata = { os = "darwin", arch = "aarch64", hostname = "test", user = "test", home = "/home/test" } in {
  blend = {
    files = [
      {
        name = "test.toml",
        from_config = {
          prefix = metadata.arch |> match {
            "aarch64" => "/opt/homebrew",
            _ => "/usr/local",
          },
        },
      },
    ],
  },
}"#;
    let meta = test_metadata("darwin");
    let result = locate_from_config(source, 0, &meta).unwrap();
    let spans = result.rewritable_spans();
    let value_text = &source[spans[0].value_start..spans[0].value_end];
    assert_eq!(value_text, "\"/opt/homebrew\"");
}

#[test]
fn test_locate_nested_record_value() {
    let source = r#"{
  blend = {
    files = [
      {
        name = "test.toml",
        from_config = {
          section = {
            inner_key = "inner_val",
            inner_num = 99,
          },
        },
      },
    ],
  },
}"#;
    let meta = test_metadata("darwin");
    let result = locate_from_config(source, 0, &meta).unwrap();
    assert!(result.is_rewritable());
    let spans = result.rewritable_spans();
    assert_eq!(spans.len(), 1);
    assert_eq!(spans[0].name, "section");
    // The span should cover the entire nested record
    let value_text = &source[spans[0].value_start..spans[0].value_end];
    assert!(value_text.contains("inner_key"));
    assert!(value_text.contains("99"));
}

#[test]
fn test_surgical_rewrite_with_leaf_spans() {
    let source = "header from_config = { key = \"old_value\", num = 10 } trailer";

    let leaf_spans = vec![
        LeafSpan {
            name: "key".to_string(),
            value_start: 29, // start of "old_value"
            value_end: 40,   // end of "old_value"
            branch_context: vec![],
        },
        LeafSpan {
            name: "num".to_string(),
            value_start: 48, // start of 10
            value_end: 50,   // end of 10
            branch_context: vec![],
        },
    ];

    let current = object(vec![("key", text("old_value")), ("num", number("10"))]);
    let deployed = object(vec![("key", text("new_value")), ("num", number("20"))]);

    let result = surgical_rewrite(source, &leaf_spans, &current, &deployed, 0).unwrap();
    assert!(result.contains("\"new_value\""));
    assert!(result.contains("20"));
    assert!(result.contains("header"));
    assert!(result.contains("trailer"));
}

#[test]
fn test_json_to_nickel_simple() {
    assert_eq!(json_to_nickel(&Json::Null, 0), "null");
    assert_eq!(json_to_nickel(&Json::Bool(true), 0), "true");
    assert_eq!(json_to_nickel(&number("42"), 0), "42");
    assert_eq!(json_to_nickel(&text("hello"), 0), "\"hello\"");
}

#[test]
fn test_json_to_nickel_record() {
    let val = object(vec![("key", text("value"))]);
    assert_eq!(json_to_nickel(&val, 0), "{ key = \"value\" }");
}

#[test]
fn test_json_to_nickel_unicode_escape() {
    let val = text("\u{e76f} ");
    assert_eq!(json_to_nickel(&val, 0), "\"\\u{e76f} \"");
}

#[test]
fn test_escape_nickel_string() {
    assert_eq!(escape_nickel_string("hello"), "hello");
    assert_eq!(escape_nickel_string("he\"llo"), "he\\\"llo");
    assert_eq!(escape_nickel_string("\u{e76f}"), "\\u{e76f}");
}

#[test]
fn test_format_nickel_key() {
    assert_eq!(format_nickel_key("simple"), "simple");
    assert_eq!(format_nickel_key("$schema"), "\"$schema\"");
}

#[test]
fn test_detect_indent_level() {
    assert_eq!(detect_indent_level("    from_config = {\n", 18), 2);
    assert_eq!(detect_indent_level("top = {\n", 6), 0);
}

#[test]
fn test_inject_metadata() {
    let metadata = Metadata {
        os: "darwin".to_string(),
        arch: "aarch64".to_string(),
        hostname: "myhost".to_string(),
        desktop: None,
        home: "/Users/test".to_string(),
        user: "test".to_string(),
    };

    let evaluator = NickelEvaluator::new(&metadata);
    let source = r#"let metadata = import "blend://metadata" in { os = metadata.os }"#;
    let result = evaluator.inject_metadata(source);

    // Should use Nickel syntax (=) not JSON syntax (:)
    assert!(result.contains(r#"os = "darwin""#));
    assert!(!result.contains("blend://metadata"));
}

fn eval(source: &str) -> Result<serde_json::Value, String> {
    let mut ctx = nickel_lang::Context::new();
    let expr = ctx.eval_deep(source).map_err(|e| format!("eval error: {e:?}"))?;
    let json = ctx.expr_to_json(&expr).map_err(|e| format!("export error: {e:?}"))?;
    serde_json::from_str(&json).map_err(|e| e.to_string())
}

fn value(json: &str) -> serde_json::Value {
    serde_json::from_str(json).unwrap()
}

#[test]
fn test_nickel_merge_rejects_distinct_leaf_values() {
    let msg = eval("{a = 1} & {a = 2}").unwrap_err();
    assert!(
        msg.contains("merge") || msg.to_lowercase().contains("conflict"),
        "expected merge conflict error, got: {msg}"
    );
}

#[test]
fn test_nickel_merge_accepts_identical_leaf_values() {
    assert_eq!(eval("{a = 1} & {a = 1}").unwrap(), value(r#"{"a": 1}"#));
}

#[test]
fn test_nickel_merge_combines_disjoint_fields() {
    assert_eq!(eval("{a = 1} & {b = 2}").unwrap(), value(r#"{"a": 1, "b": 2}"#));
}

#[test]
fn test_nickel_merge_recurses_into_subrecords() {
    // Nested records may share field NAMES so long as every leaf agrees.
    assert_eq!(
        eval("{x = {a = 1}} & {x = {b = 2}}").unwrap(),
        value(r#"{"x": {"a": 1, "b": 2}}"#)
    );
}

/// An order with the given fields in its only `from_config`.
fn order(fields: &str) -> String {
    format!("{{ blend = {{ files = [ {{ name = \"a.toml\", from_config = {{ {fields} }} }} ] }} }}")
}

fn only_reason(fields: &str) -> String {
    let source = order(&format!("ok = 1, {fields}"));
    let result = locate_from_config(&source, 0, &test_metadata("darwin")).unwrap();
    let blocked = result.non_rewritable_fields();
    assert_eq!(blocked.len(), 1);
    blocked[0].reason.clone()
}

fn failure(source: &str, index: usize) -> String {
    locate_from_config(source, index, &test_metadata("darwin")).unwrap_err().message()
}

#[test]
fn literals_are_written_as_nickel() {
    assert_eq!(json_to_nickel(&object(vec![]), 0), "{}");
    assert_eq!(json_to_nickel(&Json::Array(vec![]), 0), "[]");
    assert_eq!(json_to_nickel(&Json::Array(vec![text("a")]), 0), "[\"a\"]");
    assert_eq!(
        json_to_nickel(&Json::Array(vec![number("1"), number("2")]), 1),
        "[\n    1,\n    2,\n  ]"
    );
    let value = object(vec![("a", number("1")), ("b", object(vec![("$x", Json::Null)]))]);
    assert_eq!(
        json_to_nickel(&value, 0),
        "{\n  a = 1,\n  b = { \"$x\" = null },\n}"
    );
}

#[test]
fn what_is_written_is_read_by_nickel() {
    let written = json_to_nickel(
        &object(vec![
            ("plain", text("a \"quoted\" \\ \u{e76f}\n\t")),
            ("two words", Json::Array(vec![number("1.5"), Json::Bool(false), Json::Null])),
            ("none", object(vec![])),
            ("%", text("100% of %{x} and %%{y}")),
            ("if", object(vec![("let", Json::Bool(true)), ("_", number("2"))])),
            ("marks", Json::Array(vec![text("\u{1}\u{7f}\r'"), number("-1.5e3")])),
            ("default", object(vec![("_1", number("3")), ("include", Json::Null)])),
        ]),
        0,
    );
    assert_eq!(
        eval(&written).unwrap(),
        value(
            "{\"plain\": \"a \\\"quoted\\\" \\\\ \u{e76f}\\n\\t\", \
             \"two words\": [1.5, false, null], \"none\": {}, \
             \"%\": \"100% of %{x} and %%{y}\", \"if\": {\"let\": true, \"_\": 2}, \
             \"marks\": [\"\\u0001\u{7f}\\r'\", -1500], \
             \"default\": {\"_1\": 3, \"include\": null}}"
        )
    );
}

#[test]
fn strings_are_escaped() {
    assert_eq!(escape_nickel_string("a\\b"), "a\\\\b");
    assert_eq!(escape_nickel_string("a\nb\tc\r"), "a\\nb\\tc\\r");
    assert_ne!(escape_nickel_string("\""), escape_nickel_string("\\\""));
    assert_eq!(escape_nickel_string("%{x} 5%"), "\\%{x} 5\\%");
}

#[test]
fn reserved_words_are_quoted_in_records() {
    assert!(is_reserved("if") && is_reserved("null") && !is_reserved("iff"));
    let words = object(vec![("if", number("1")), ("a", number("2"))]);
    assert_eq!(json_to_nickel(&words, 0), "{ \"if\" = 1, a = 2 }");
    let marks = object(vec![("__", number("1")), ("_a", number("2"))]);
    assert_eq!(json_to_nickel(&marks, 0), "{ \"__\" = 1, _a = 2 }");
    for word in [
        "Dyn", "Number", "Bool", "String", "Array", "if", "then", "else", "forall", "in", "let",
        "rec", "match", "null", "true", "false", "fun", "import", "merge", "default", "doc",
        "optional", "priority", "force", "not_exported", "or", "as", "include",
    ] {
        let written = json_to_nickel(&object(vec![(word, number("1"))]), 0);
        assert_eq!(eval(&written).unwrap(), value(&format!("{{\"{word}\": 1}}")));
    }
}

#[test]
fn a_field_without_a_single_name_is_not_rewritable() {
    let source = order("a.b = \"x\", c = 2");
    let result = locate_from_config(&source, 0, &test_metadata("darwin")).unwrap();
    assert!(!result.is_rewritable());
    assert_eq!(result.rewritable_spans().len(), 1);
    assert_eq!(result.rewritable_spans()[0].name, "c");
    assert_eq!(result.non_rewritable_fields().len(), 1);
    assert_eq!(result.non_rewritable_fields()[0].name, "a.b");
    assert_eq!(
        result.non_rewritable_fields()[0].reason,
        "field name is not a single identifier"
    );
    let alone = locate_from_config(&order("a.b = 1"), 0, &test_metadata("darwin")).unwrap();
    assert!(!alone.has_any_rewritable());
    let computed = order("a.\"%{x}\" = 1, c = 2");
    let result = locate_from_config(&computed, 0, &test_metadata("darwin")).unwrap();
    assert_eq!(result.non_rewritable_fields()[0].name, "a.%{...}");
    let included = format!("let x = 1 in {}", order("include x, c = 2"));
    let result = locate_from_config(&included, 0, &test_metadata("darwin")).unwrap();
    assert!(!result.is_rewritable());
    assert_eq!(result.non_rewritable_fields()[0].name, "x");
    assert_eq!(result.non_rewritable_fields()[0].reason, "field is included");
    assert_eq!(
        failure("let blend = {} in { include blend }", 0),
        "No 'blend' field found in order.ncl"
    );
    assert_eq!(
        failure("let files = [] in { blend = { include files } }", 0),
        "No 'files' field found in blend"
    );
}

#[test]
fn spans_lie_in_the_source_in_its_order() {
    let source = order("z = \"\u{e9}\u{1f600}\", a = [1, 2], m = { k = null }, s = m%\" x \"%");
    let result = locate_from_config(&source, 0, &test_metadata("darwin")).unwrap();
    let spans = result.rewritable_spans();
    let names: Vec<&str> = spans.iter().map(|s| s.name.as_str()).collect();
    assert_eq!(names, ["z", "a", "m", "s"]);
    let values: Vec<&str> =
        spans.iter().map(|s| &source[s.value_start..s.value_end]).collect();
    assert_eq!(
        values,
        ["\"\u{e9}\u{1f600}\"", "[1, 2]", "{ k = null }", "m%\" x \"%"]
    );
    assert!(spans.windows(2).all(|w| w[0].value_end <= w[1].value_start));
}

#[test]
fn keys_are_quoted_where_needed() {
    assert!(is_valid_nickel_ident("a_b1"));
    assert!(!is_valid_nickel_ident("1a"));
    assert!(!is_valid_nickel_ident(""));
    assert!(!is_valid_nickel_ident("a b"));
    assert_eq!(format_nickel_key("two words"), "\"two words\"");
    assert_eq!(format_nickel_key("1a"), "\"1a\"");
}

#[test]
fn computed_values_are_not_rewritable() {
    assert!(!only_reason("k = some_function 1").is_empty());
    assert_eq!(only_reason("k = \"a %{ok}\""), "string with interpolation");
    assert!(!only_reason("k = if ok == 1 then 1 else 2").is_empty());
    assert!(!only_reason("k = 1 + 2").is_empty());
}

#[test]
fn conditions_may_name_the_machine_on_either_side() {
    let source = order("k = if \"darwin\" == metadata.os then 1 else 2");
    let result = locate_from_config(&source, 0, &test_metadata("linux")).unwrap();
    let span = &result.rewritable_spans()[0];
    assert_eq!(&source[span.value_start..span.value_end], "2");
    assert_eq!(span.branch_context, ["if condition \u{2192} else"]);
}

#[test]
fn nested_conditions_leave_a_trail() {
    let source = order(
        "k = metadata.os |> match { \"darwin\" => if metadata.arch == \"aarch64\" then 1 else 2, _ => 3 }",
    );
    let result = locate_from_config(&source, 0, &test_metadata("darwin")).unwrap();
    let span = &result.rewritable_spans()[0];
    assert_eq!(&source[span.value_start..span.value_end], "1");
    assert_eq!(span.branch_context, ["os == \"darwin\"", "if condition \u{2192} then"]);
}

#[test]
fn every_missing_part_of_an_order_is_reported() {
    assert!(failure("{ blend = ", 0).starts_with("Failed to parse .ncl file: "));
    assert_eq!(failure("1", 0), "Expected record at top level, found a scalar");
    assert_eq!(failure("let x = 1 in [x]", 0), "Expected record at top level, found an array");
    assert_eq!(failure("f 1", 0), "Expected record at top level, found an application");
    assert_eq!(failure("\"x\"", 0), "Expected record at top level, found a string");
    assert_eq!(failure("x", 0), "Expected record at top level, found a variable");
    assert_eq!(failure("fun x => x", 0), "Expected record at top level, found another expression");
    assert_eq!(failure("{ a = 1 }", 0), "No 'blend' field found in order.ncl");
    assert_eq!(failure("{ blend }", 0), "'blend' field has no value");
    assert_eq!(failure("{ blend = 1 }", 0), "'blend' field is not a record");
    assert_eq!(failure("{ blend = { a = 1 } }", 0), "No 'files' field found in blend");
    assert_eq!(failure("{ blend = { files } }", 0), "'files' field has no value");
    assert_eq!(failure("{ blend = { files = 1 } }", 0), "'files' is not an array");
    assert_eq!(failure("{ blend = { files = [] } }", 0), "file_entry_index out of bounds");
    assert_eq!(failure("{ blend = { files = [1] } }", 0), "file entry is not a record");
    assert_eq!(failure(&order("k = 1"), 1), "file_entry_index out of bounds");
}

#[test]
fn orders_behind_contracts_are_found() {
    let source = format!("let x = 1 in ({}) | Dyn", order("k = 1"));
    let result = locate_from_config(&source, 0, &test_metadata("darwin")).unwrap();
    assert!(result.is_rewritable());
    assert!(result.has_any_rewritable());
    assert!(result.non_rewritable_fields().is_empty());
}

#[test]
fn terms_can_be_written_down() {
    let leaf = Term { kind: Kind::Scalar, span: Some(Span { start: 3, end: 5 }) };
    let found = find_rewritable_value(&leaf, &test_metadata("linux"), vec!["here".to_string()]);
    match found {
        SingleFieldResult::Rewritable { value_start, value_end, branch_context } => {
            assert_eq!((value_start, value_end), (3, 5));
            assert_eq!(branch_context, ["here"]);
        }
        SingleFieldResult::NotRewritable { .. } => panic!("a scalar can be rewritten"),
    }
    let lost = Term { kind: Kind::Scalar, span: None };
    let found = find_rewritable_value(&lost, &test_metadata("linux"), vec![]);
    assert!(matches!(
        found,
        SingleFieldResult::NotRewritable { reason, .. } if reason == "no source position"
    ));
    let record = Term { kind: Kind::Record(vec![], vec![]), span: None };
    assert!(matches!(
        locate_in_term(&record, 0, &test_metadata("linux")),
        Err(EntryFailure::NoBlend)
    ));
}

fn span(name: &str, start: usize, end: usize) -> LeafSpan {
    LeafSpan {
        name: name.to_string(),
        value_start: start,
        value_end: end,
        branch_context: vec![],
    }
}

#[test]
fn a_rewrite_touches_only_changed_values() {
    let source = "{ \u{e9} = 1, b = \"x\", c = 3 }";
    let b = source.find("\"x\"").unwrap();
    let c = source.find('3').unwrap();
    let spans = vec![span("b", b, b + 3), span("c", c, c + 1)];
    let current = object(vec![("b", text("x")), ("c", number("3"))]);
    let deployed = object(vec![("b", text("longer")), ("c", number("3")), ("d", number("4"))]);
    assert_eq!(
        surgical_rewrite(source, &spans, &current, &deployed, 0).unwrap(),
        "{ \u{e9} = 1, b = \"longer\", c = 3 }"
    );
    assert_eq!(surgical_rewrite(source, &spans, &current, &current, 0).unwrap(), source);
    let both = object(vec![("c", number("44")), ("b", text("y"))]);
    assert_eq!(
        surgical_rewrite(source, &spans, &current, &both, 0).unwrap(),
        "{ \u{e9} = 1, b = \"y\", c = 44 }"
    );
}

#[test]
fn a_rewrite_needs_objects_and_fitting_spans() {
    let object_value = object(vec![("a", number("1"))]);
    let changed = object(vec![("a", number("2"))]);
    let one = number("1");
    assert_eq!(
        checked_rewrite("a", &[], &one, &object_value, 0).unwrap_err(),
        RewriteError::CurrentNotObject
    );
    assert_eq!(
        checked_rewrite("a", &[], &object_value, &one, 0).unwrap_err(),
        RewriteError::DeployedNotObject
    );
    assert_eq!(
        checked_rewrite("\u{e9}", &[span("a", 1, 2)], &object_value, &changed, 0).unwrap_err(),
        RewriteError::SpanOutsideSource
    );
    assert_eq!(
        checked_rewrite("1", &[span("a", 0, 9)], &object_value, &changed, 0).unwrap_err(),
        RewriteError::SpanOutsideSource
    );
    assert_eq!(
        checked_rewrite("1", &[span("a", 0, 1)], &object_value, &changed, 0).unwrap(),
        "2"
    );
}

#[test]
fn rewritten_records_are_indented() {
    let source = "  from_config = {\n    a = {},\n  }";
    let at = source.find("{}").unwrap();
    assert_eq!(detect_indent_level(source, at), 2);
    let current = object(vec![("a", object(vec![]))]);
    let deployed =
        object(vec![("a", object(vec![("x", number("1")), ("y", object(vec![]))]))]);
    assert_eq!(
        surgical_rewrite(source, &[span("a", at, at + 2)], &current, &deployed, 1).unwrap(),
        "  from_config = {\n    a = {\n      x = 1,\n      y = {},\n    },\n  }"
    );
}

#[test]
fn edits_are_applied_one_after_the_other() {
    let edits = vec![
        Edit { start: 4, end: 5, text: "Z".to_string() },
        Edit { start: 0, end: 1, text: "long".to_string() },
    ];
    assert_eq!(apply_edits("a b c", &edits), Some("long b Z".to_string()));
    let edits = vec![Edit { start: 3, end: 2, text: String::new() }];
    assert_eq!(apply_edits("a b c", &edits), None);
}

#[test]
fn a_source_without_the_import_stays() {
    let evaluator = NickelEvaluator::new(&test_metadata("linux"));
    assert_eq!(evaluator.inject_metadata("{ a = 1 }"), "{ a = 1 }");
    let source = evaluator.inject_metadata("(import \"blend://metadata\").os");
    assert_eq!(eval(&source).unwrap(), value("\"linux\""));
}

#[test]
fn the_machine_has_fields() {
    let m = Metadata { desktop: Some("sway".to_string()), ..test_metadata("linux") };
    assert_eq!(m.field("os"), Some("linux".to_string()));
    assert_eq!(m.field("arch"), Some("aarch64".to_string()));
    assert_eq!(m.field("hostname"), Some("testhost".to_string()));
    assert_eq!(m.field("desktop"), Some("sway".to_string()));
    assert_eq!(m.field("user"), Some("test".to_string()));
    assert_eq!(m.field("unknown"), None);
    assert_eq!(m.to_json().get("home"), Some(&text("/home/test")));
    assert_eq!(test_metadata("linux").to_json().get("desktop"), Some(&Json::Null));
}

fn when(os: Option<&[&str]>, arch: Option<&[&str]>, hostname: Option<&[&str]>) -> Condition {
    let list = |l: &[&str]| l.iter().map(|s| s.to_string()).collect();
    Condition { os: os.map(list), arch: arch.map(list), hostname: hostname.map(list) }
}

fn entry() -> FileEntry {
    FileEntry {
        name: String::new(),
        from_config: None,
        from_file: None,
        prefix: None,
        format: None,
        ignore: vec![],
        when: None,
        symlink: false,
        exclude: vec![],
        local: None,
        immutable: false,
    }
}

#[test]
fn conditions_choose_machines() {
    let package = |c| OrderPackage {
        blend: BlendConfig { files: vec![], prefix: vec![], when: c, ignore: vec![] },
    };
    let p = package(Some(when(Some(&["linux"]), None, Some(&["box"]))));
    assert!(p.should_apply("linux", "x86_64", "box"));
    assert!(!p.should_apply("linux", "x86_64", "other"));
    assert!(!p.should_apply("darwin", "x86_64", "box"));
    assert!(p.applies_on_platform("linux", "aarch64"));
    assert!(!p.applies_on_platform("darwin", "aarch64"));
    assert!(package(None).should_apply("any", "any", "any"));
    let e = FileEntry { when: Some(when(None, Some(&["x86_64"]), None)), ..entry() };
    assert!(e.should_apply("any", "x86_64", "any"));
    assert!(!e.should_apply("any", "arm", "any"));
}

#[test]
fn entries_are_completed() {
    let mut e = entry();
    assert_eq!(e.resolve_defaults(), Err(EntryError::NoSource));
    let mut e = FileEntry { from_config: Some(object(vec![])), ..entry() };
    assert_eq!(e.resolve_defaults(), Err(EntryError::NoName));
    let mut e = FileEntry { from_file: Some("nvim".to_string()), ..entry() };
    assert_eq!(e.resolve_defaults(), Ok(()));
    assert_eq!(e.name, "nvim");
    let mut e = FileEntry {
        name: "other".to_string(),
        from_file: Some("nvim".to_string()),
        ..entry()
    };
    assert_eq!(e.resolve_defaults(), Ok(()));
    assert_eq!(e.name, "other");
}

#[test]
fn targets_and_formats() {
    let prefix = vec!["~/.config/".to_string(), "/etc".to_string()];
    let e = FileEntry { name: "a.toml".to_string(), ..entry() };
    assert_eq!(e.target_paths(&prefix), ["~/.config/a.toml", "/etc/a.toml"]);
    assert_eq!(e.effective_format(), Format::Toml);
    let e = FileEntry {
        prefix: Some(vec!["~/".to_string()]),
        format: Some(Format::Json),
        ..e
    };
    assert_eq!(e.target_paths(&prefix), ["~/a.toml"]);
    assert_eq!(e.effective_format(), Format::Json);
}
