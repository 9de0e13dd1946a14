//! Syncing: what is merged, what is pulled, and what the user is asked.
use blend::diff::semantic::{KeyChange, KeyChangeType};
use blend::diff::DiffResult;
use blend::formats::Format;
use blend::globs::build_glob_set;
use blend::json::Json;
use blend::metadata::Metadata;
use blend::nickel::schema::FileEntry;
use blend::sync::edits::{
    build_field_edits_for_keys, build_field_edits_from_diff, has_structural_changes,
    json_path_get, FieldEdit,
};
use blend::sync::keys::{ask_keys, resolve_keys};
use blend::sync::merge::{build_merged_json, Decisions};
use blend::sync::overlay::{build_selective_deployed, is_reached};
use blend::sync::pull::{can_auto_pull, pull_from_config, pull_from_config_keys, PullOutcome};
use blend::sync::pull_files::{
    pull_directory, pull_from_file, DeployedEntry, FilePull, PullStep,
};
use blend::sync::{
    display_conflict, key_prompt, read_key_answer, read_sync_answer, shorten_path, sync_prompt,
    KeyAction, Prompter, SyncAction,
};
use std::collections::VecDeque;

fn text(s: &str) -> Json {
    Json::Text(s.to_string())
}

fn number(s: &str) -> Json {
    Json::Number(s.to_string())
}

fn object(entries: Vec<(&str, Json)>) -> Json {
    Json::Object(entries.into_iter().map(|(k, v)| (k.to_string(), v)).collect())
}

struct MockPrompter {
    answers: std::cell::RefCell<VecDeque<SyncAction>>,
    key_answers: std::cell::RefCell<VecDeque<KeyAction>>,
}

impl MockPrompter {
    fn new(answers: Vec<SyncAction>) -> Self {
        Self {
            answers: std::cell::RefCell::new(answers.into()),
            key_answers: std::cell::RefCell::new(VecDeque::new()),
        }
    }

    fn with_key_answers(answers: Vec<SyncAction>, key_answers: Vec<KeyAction>) -> Self {
        Self {
            answers: std::cell::RefCell::new(answers.into()),
            key_answers: std::cell::RefCell::new(key_answers.into()),
        }
    }
}

impl Prompter for MockPrompter {
    fn ask_sync_action(
        &self,
        _pkg: &str,
        _name: &str,
        _target: &str,
        _diff: &DiffResult,
        _can_pull: bool,
    ) -> SyncAction {
        self.answers
            .borrow_mut()
            .pop_front()
            .unwrap_or(SyncAction::Skip)
    }

    fn ask_key_action(&self, _pkg: &str, _name: &str, _change: &KeyChange) -> KeyAction {
        self.key_answers
            .borrow_mut()
            .pop_front()
            .unwrap_or(KeyAction::Skip)
    }
}

#[test]
fn sync_test_shorten_path() {
    let home = "/Users/test";
    assert_eq!(shorten_path("/Users/test/.config/foo", home), "~/.config/foo");
    assert_eq!(shorten_path("/etc/foo", home), "/etc/foo");
}

#[test]
fn test_shorten_path() {
    let home = "/Users/test";
    assert_eq!(shorten_path("/Users/test/.config/foo", home), "~/.config/foo");
    assert_eq!(shorten_path("/etc/foo", home), "/etc/foo");
    assert_eq!(shorten_path("/Users/test", home), "~");
}

#[test]
fn only_what_is_in_the_home_directory_is_shortened() {
    let home = "/Users/test";
    assert_eq!(shorten_path("/Users/tester/foo", home), "/Users/tester/foo");
    assert_eq!(shorten_path("/Users/test/", home), "~/");
    assert_eq!(shorten_path("/mnt/Users/test/x", home), "/mnt/Users/test/x");
    assert_eq!(shorten_path("/Users/test/.config/foo", "/Users/test/"), "~/.config/foo");
    assert_eq!(shorten_path("/Users/tester", "/Users/test/"), "/Users/tester");
    assert_eq!(shorten_path("/etc/foo", "/"), "~/etc/foo");
}

#[test]
fn sync_test_mock_prompter() {
    let prompter =
        MockPrompter::new(vec![SyncAction::Push, SyncAction::Pull, SyncAction::Quit]);
    let diff = DiffResult::no_changes();

    assert_eq!(
        prompter.ask_sync_action("pkg", "file", "/tmp", &diff, true),
        SyncAction::Push
    );
    assert_eq!(
        prompter.ask_sync_action("pkg", "file", "/tmp", &diff, true),
        SyncAction::Pull
    );
    assert_eq!(
        prompter.ask_sync_action("pkg", "file", "/tmp", &diff, true),
        SyncAction::Quit
    );
    // Exhausted -- defaults to Skip
    assert_eq!(
        prompter.ask_sync_action("pkg", "file", "/tmp", &diff, true),
        SyncAction::Skip
    );
}

#[test]
fn sync_test_mock_prompter_key_actions() {
    let prompter = MockPrompter::with_key_answers(
        vec![],
        vec![KeyAction::Push, KeyAction::Pull, KeyAction::AllPush],
    );
    let change = KeyChange {
        path: "key".to_string(),
        change_type: KeyChangeType::Modified,
        repo_value: Some(text("new")),
        deployed_value: Some(text("old")),
        display: "~ key".to_string(),
    };

    assert_eq!(
        prompter.ask_key_action("pkg", "file", &change),
        KeyAction::Push
    );
    assert_eq!(
        prompter.ask_key_action("pkg", "file", &change),
        KeyAction::Pull
    );
    assert_eq!(
        prompter.ask_key_action("pkg", "file", &change),
        KeyAction::AllPush
    );
    // Exhausted
    assert_eq!(
        prompter.ask_key_action("pkg", "file", &change),
        KeyAction::Skip
    );
}

#[test]
fn test_build_selective_deployed_nested_key() {
    // semantic_diff_keys produces dotted paths like "window.opacity".
    // build_selective_deployed must resolve them through nested JSON.
    let current = object(vec![("window", object(vec![("opacity", number("0.7")), ("decorations", text("Buttonless"))])), ("font", object(vec![("size", number("12"))]))]);
    let deployed = object(vec![("window", object(vec![("opacity", number("0.8")), ("decorations", text("Buttonless"))])), ("font", object(vec![("size", number("12"))]))]);
    let pulled_keys = vec!["window.opacity".to_string()];
    let result = build_selective_deployed(&current, &deployed, &pulled_keys);
    assert_eq!(
        result,
        object(vec![("window", object(vec![("opacity", number("0.8")), ("decorations", text("Buttonless"))])), ("font", object(vec![("size", number("12"))]))]),
        "Only window.opacity should adopt deployed value; got:\n{:#?}",
        result
    );
}

#[test]
fn sync_test_build_merged_json_all_push() {
    let repo = object(vec![("a", number("1")), ("b", number("2"))]);
    let deployed = object(vec![("a", number("10")), ("b", number("20"))]);
    let mut decisions = Decisions::new();
    decisions.insert("a", true); // push
    decisions.insert("b", true); // push

    let merged = build_merged_json(&repo, &deployed, &decisions);
    assert_eq!(merged, object(vec![("a", number("1")), ("b", number("2"))]));
}

#[test]
fn sync_test_build_merged_json_all_pull() {
    let repo = object(vec![("a", number("1")), ("b", number("2"))]);
    let deployed = object(vec![("a", number("10")), ("b", number("20"))]);
    let mut decisions = Decisions::new();
    decisions.insert("a", false); // pull
    decisions.insert("b", false); // pull

    let merged = build_merged_json(&repo, &deployed, &decisions);
    assert_eq!(merged, object(vec![("a", number("10")), ("b", number("20"))]));
}

#[test]
fn sync_test_build_merged_json_mixed() {
    let repo = object(vec![("a", number("1")), ("b", number("2")), ("c", number("3"))]);
    let deployed = object(vec![("a", number("10")), ("b", number("20")), ("c", number("30"))]);
    let mut decisions = Decisions::new();
    decisions.insert("a", true); // push: repo wins
    decisions.insert("b", false); // pull: deployed wins
    // c has no decision -> defaults to deployed for unchanged keys

    let merged = build_merged_json(&repo, &deployed, &decisions);
    assert_eq!(merged, object(vec![("a", number("1")), ("b", number("20")), ("c", number("30"))]));
}

#[test]
fn sync_test_build_merged_json_added_key_push() {
    let repo = object(vec![("a", number("1")), ("new_key", text("hello"))]);
    let deployed = object(vec![("a", number("1"))]);
    let mut decisions = Decisions::new();
    decisions.insert("new_key", true); // push the addition

    let merged = build_merged_json(&repo, &deployed, &decisions);
    assert_eq!(merged, object(vec![("a", number("1")), ("new_key", text("hello"))]));
}

#[test]
fn sync_test_build_merged_json_added_key_pull() {
    let repo = object(vec![("a", number("1")), ("new_key", text("hello"))]);
    let deployed = object(vec![("a", number("1"))]);
    let mut decisions = Decisions::new();
    decisions.insert("new_key", false); // pull: don't add it

    let merged = build_merged_json(&repo, &deployed, &decisions);
    assert_eq!(merged, object(vec![("a", number("1"))]));
}

#[test]
fn sync_test_build_merged_json_removed_key_push() {
    let repo = object(vec![("a", number("1"))]);
    let deployed = object(vec![("a", number("1")), ("extra", text("deployed"))]);
    let mut decisions = Decisions::new();
    decisions.insert("extra", true); // push: remove from deployed

    let merged = build_merged_json(&repo, &deployed, &decisions);
    assert_eq!(merged, object(vec![("a", number("1"))]));
}

#[test]
fn sync_test_build_merged_json_removed_key_pull() {
    let repo = object(vec![("a", number("1"))]);
    let deployed = object(vec![("a", number("1")), ("extra", text("deployed"))]);
    let mut decisions = Decisions::new();
    decisions.insert("extra", false); // pull: keep in deployed

    let merged = build_merged_json(&repo, &deployed, &decisions);
    assert_eq!(merged, object(vec![("a", number("1")), ("extra", text("deployed"))]));
}

fn strings(list: &[&str]) -> Vec<String> {
    list.iter().map(|s| s.to_string()).collect()
}

fn metadata() -> Metadata {
    Metadata {
        os: "linux".to_string(),
        arch: "x86_64".to_string(),
        hostname: "box".to_string(),
        desktop: None,
        home: "/home/me".to_string(),
        user: "me".to_string(),
    }
}

fn change(path: &str) -> KeyChange {
    KeyChange {
        path: path.to_string(),
        change_type: KeyChangeType::Modified,
        repo_value: Some(number("1")),
        deployed_value: Some(number("2")),
        display: path.to_string(),
    }
}

#[test]
fn typed_answers_are_read() {
    assert_eq!(read_sync_answer(" P\n", true).0, SyncAction::Push);
    assert_eq!(read_sync_answer("PULL\n", true).0, SyncAction::Pull);
    let (action, notes) = read_sync_answer("u\n", false);
    assert_eq!(action, SyncAction::Skip);
    assert_eq!(notes[0].text, "Cannot auto-pull this entry (from_config contains logic)");
    assert_eq!(read_sync_answer("\n", true).0, SyncAction::Skip);
    assert_eq!(read_sync_answer("quit", true).0, SyncAction::Quit);
    let (action, notes) = read_sync_answer("what", true);
    assert_eq!(action, SyncAction::Skip);
    assert_eq!(notes[0].text, "Invalid choice, skipping");
    assert_eq!(read_key_answer("A\n").0, KeyAction::AllPush);
    assert_eq!(read_key_answer("all-pull").0, KeyAction::AllPull);
    assert_eq!(read_key_answer("q").0, KeyAction::Quit);
    assert_eq!(read_key_answer("u").0, KeyAction::Pull);
    assert_eq!(read_key_answer("x").1[0].text, "Invalid choice, skipping");
}

#[test]
fn questions_offer_what_is_possible() {
    assert_eq!(sync_prompt(true, false), "  [p]ush  p[u]ll  [s]kip  [q]uit: ");
    assert_eq!(sync_prompt(false, false), "  [p]ush  [s]kip  [q]uit: ");
    assert_eq!(
        key_prompt(false),
        "    [p]ush  p[u]ll  [s]kip  [a]ll-push  a[l]l-pull  [q]uit: "
    );
}

#[test]
fn a_conflict_is_shown() {
    let diff = DiffResult::with_changes("one\ntwo".to_string());
    let lines = display_conflict("pkg", "a.toml", "/home/me/a.toml", &diff, "/home/me", false);
    assert_eq!(lines, ["\n  pkg:a.toml (~/a.toml)", "    one", "    two"]);
}

#[test]
fn keys_are_decided_one_by_one() {
    let changes = [change("a"), change("b"), change("c"), change("d")];
    let prompter = MockPrompter::with_key_answers(
        vec![],
        vec![KeyAction::Push, KeyAction::Skip, KeyAction::AllPull],
    );
    let decisions = ask_keys(&prompter, "pkg", "file", &changes).unwrap();
    assert_eq!(decisions.len(), 3);
    assert_eq!(decisions.get("a"), Some(true));
    assert_eq!(decisions.get("b"), None);
    assert_eq!(decisions.get("c"), Some(false));
    assert_eq!(decisions.get("d"), Some(false));
    assert_eq!(decisions.paths(true), ["a"]);
    assert_eq!(decisions.paths(false), ["c", "d"]);
    let quitter = MockPrompter::with_key_answers(vec![], vec![KeyAction::Push, KeyAction::Quit]);
    assert!(ask_keys(&quitter, "pkg", "file", &changes).is_none());
    assert_eq!(ask_keys(&quitter, "pkg", "file", &[]).unwrap().len(), 0);
}

/// A prompter that notes which keys it is asked about.
struct NotingPrompter {
    inner: MockPrompter,
    paths: std::cell::RefCell<Vec<String>>,
}

impl Prompter for NotingPrompter {
    fn ask_sync_action(
        &self,
        pkg: &str,
        name: &str,
        target: &str,
        diff: &DiffResult,
        can_pull: bool,
    ) -> SyncAction {
        self.inner.ask_sync_action(pkg, name, target, diff, can_pull)
    }

    fn ask_key_action(&self, pkg: &str, name: &str, change: &KeyChange) -> KeyAction {
        self.paths.borrow_mut().push(format!("{pkg}:{name}:{}", change.path));
        self.inner.ask_key_action(pkg, name, change)
    }
}

#[test]
fn each_key_is_asked_about_once_in_order() {
    let changes = [change("a"), change("b"), change("c"), change("d")];
    let noting = |answers: Vec<KeyAction>| NotingPrompter {
        inner: MockPrompter::with_key_answers(vec![], answers),
        paths: std::cell::RefCell::new(vec![]),
    };
    let all = noting(vec![KeyAction::Skip, KeyAction::AllPush]);
    let decisions = ask_keys(&all, "p", "f", &changes).unwrap();
    assert_eq!(*all.paths.borrow(), ["p:f:a", "p:f:b"]);
    assert_eq!(decisions.paths(true), ["b", "c", "d"]);
    let quitting = noting(vec![KeyAction::Pull, KeyAction::Push, KeyAction::Quit]);
    assert!(ask_keys(&quitting, "p", "f", &changes).is_none());
    assert_eq!(*quitting.paths.borrow(), ["p:f:a", "p:f:b", "p:f:c"]);
    let each = noting(vec![KeyAction::Pull, KeyAction::Push, KeyAction::Pull, KeyAction::Push]);
    assert_eq!(ask_keys(&each, "p", "f", &changes).unwrap().paths(false), ["a", "c"]);
    assert_eq!(each.paths.borrow().len(), 4);
}

#[test]
fn every_change_gets_the_side_that_was_chosen() {
    let repo = object(vec![
        ("pushed", number("1")),
        ("skipped", number("2")),
        ("s", object(vec![("pulled", number("3")), ("new", number("4")), ("kept", number("5"))])),
    ]);
    let deployed = object(vec![
        ("gone", number("6")),
        ("s", object(vec![("pulled", number("30")), ("kept", number("50"))])),
    ]);
    let mut decisions = Decisions::new();
    decisions.insert("pushed", true);
    decisions.insert("gone", true);
    decisions.insert("s.pulled", false);
    decisions.insert("s.new", true);
    assert_eq!(
        build_merged_json(&repo, &deployed, &decisions),
        object(vec![
            (
                "s",
                object(vec![("pulled", number("30")), ("kept", number("50")), ("new", number("4"))]),
            ),
            ("pushed", number("1")),
        ])
    );
    assert_eq!(build_merged_json(&repo, &deployed, &Decisions::new()), deployed);
}

fn entries_of(v: &Json) -> &Vec<(String, Json)> {
    match v {
        Json::Object(entries) => entries,
        _ => panic!("not an object"),
    }
}

fn set_at(v: &Json, path: &str, new: Option<&Json>) -> Json {
    let mut entries: Vec<(String, Json)> =
        entries_of(v).iter().map(|(k, x)| (k.clone(), x.copy())).collect();
    match path.split_once('.') {
        Some((head, rest)) => {
            for entry in entries.iter_mut().filter(|e| e.0 == head) {
                entry.1 = set_at(&entry.1, rest, new);
            }
        }
        None => {
            entries.retain(|e| e.0 != path);
            if let Some(x) = new {
                entries.push((path.to_string(), x.copy()));
            }
        }
    }
    Json::Object(entries)
}

#[test]
fn edits_lead_from_one_object_to_the_other() {
    let current = object(vec![
        ("a", number("1")),
        ("s", object(vec![("x", number("1")), ("t", object(vec![("y", number("2"))]))])),
        ("gone", text("g")),
        ("shape", object(vec![("z", number("1"))])),
    ]);
    let deployed = object(vec![
        ("a", number("2")),
        ("s", object(vec![("t", object(vec![("y", number("3")), ("n", Json::Null)]))])),
        ("shape", number("7")),
        ("new", Json::Array(vec![number("1")])),
    ]);
    let mut now = current.copy();
    for edit in build_field_edits_from_diff(&current, &deployed) {
        now = match &edit {
            FieldEdit::Modify { path, new_value } => set_at(&now, path, Some(new_value)),
            FieldEdit::Insert { path, value } => set_at(&now, path, Some(value)),
            FieldEdit::Delete { path } => set_at(&now, path, None),
        };
    }
    assert_eq!(now, deployed);
}

#[test]
fn each_path_that_differs_is_edited_once() {
    let current = object(vec![
        ("same", number("1")),
        ("s", object(vec![("x", number("1")), ("y", number("2")), ("only", Json::Null)])),
        ("shape", object(vec![("z", number("1"))])),
    ]);
    let deployed = object(vec![
        ("s", object(vec![("x", number("1")), ("y", number("3")), ("new", text("n"))])),
        ("shape", number("7")),
        ("same", number("1")),
    ]);
    let edits: Vec<(&str, String)> = build_field_edits_from_diff(&current, &deployed)
        .into_iter()
        .map(|edit| match edit {
            FieldEdit::Modify { path, .. } => ("modify", path),
            FieldEdit::Insert { path, .. } => ("insert", path),
            FieldEdit::Delete { path } => ("delete", path),
        })
        .collect();
    let expected = [
        ("modify", "s.y"),
        ("delete", "s.only"),
        ("insert", "s.new"),
        ("modify", "shape"),
    ];
    assert_eq!(edits.len(), expected.len());
    for (edit, (kind, path)) in edits.iter().zip(expected) {
        assert_eq!((edit.0, edit.1.as_str()), (kind, path));
    }
}

#[test]
fn given_answers_decide_keys() {
    let changes = [change("a"), change("b")];
    let all = resolve_keys(&changes, &[KeyAction::AllPush, KeyAction::Quit]).unwrap();
    assert_eq!(all.paths(true), ["a", "b"]);
    assert!(resolve_keys(&changes, &[KeyAction::Skip, KeyAction::Quit]).is_none());
    let none = resolve_keys(&changes, &[KeyAction::Skip, KeyAction::Skip]).unwrap();
    assert_eq!(none.len(), 0);
}

#[test]
fn nested_keys_are_merged() {
    let repo = object(vec![("s", object(vec![("a", number("1")), ("b", number("2"))]))]);
    let deployed = object(vec![("s", object(vec![("a", number("10")), ("b", number("20"))]))]);
    let mut decisions = Decisions::new();
    decisions.insert("s.a", true);
    assert_eq!(
        build_merged_json(&repo, &deployed, &decisions),
        object(vec![("s", object(vec![("a", number("1")), ("b", number("20"))]))])
    );
    decisions.insert("s.a", false);
    assert_eq!(build_merged_json(&repo, &deployed, &decisions), deployed);
    assert_eq!(decisions.len(), 1);
}

#[test]
fn a_merge_gives_each_change_its_side() {
    let repo = object(vec![
        ("same", number("1")),
        ("s", object(vec![("a", number("1")), ("b", number("2")), ("mine", number("3"))])),
        ("kept", number("5")),
    ]);
    let deployed = object(vec![
        ("s", object(vec![("b", number("20")), ("a", number("10")), ("theirs", number("30"))])),
        ("same", number("1")),
        ("kept", number("50")),
    ]);
    let mut decisions = Decisions::new();
    decisions.insert("s.a", true);
    decisions.insert("s.b", false);
    decisions.insert("s.mine", true);
    decisions.insert("s.theirs", true);
    assert_eq!(
        build_merged_json(&repo, &deployed, &decisions),
        object(vec![
            ("s", object(vec![("b", number("20")), ("a", number("1")), ("mine", number("3"))])),
            ("same", number("1")),
            ("kept", number("50")),
        ])
    );
    let mut pulled = Decisions::new();
    for path in ["s.a", "s.b", "s.mine", "s.theirs"] {
        pulled.insert(path, false);
    }
    assert_eq!(build_merged_json(&repo, &deployed, &pulled), deployed);
}

#[test]
fn pulled_keys_are_laid_over() {
    let current = object(vec![("a", number("1")), ("s", object(vec![("x", number("1"))]))]);
    let deployed = object(vec![
        ("a", number("2")),
        ("s", object(vec![("x", number("3")), ("y", number("4"))])),
        ("new", number("5")),
    ]);
    assert_eq!(build_selective_deployed(&current, &deployed, &[]), current);
    assert_eq!(
        build_selective_deployed(&current, &deployed, &strings(&["s.y", "new"])),
        object(vec![
            ("a", number("1")),
            ("s", object(vec![("x", number("1")), ("y", number("4"))])),
            ("new", number("5")),
        ])
    );
    let window = object(vec![("win", object(vec![("a", number("1")), ("b", number("2"))]))]);
    assert_eq!(
        build_selective_deployed(&object(vec![]), &window, &strings(&["win.a"])),
        object(vec![("win", object(vec![("a", number("1"))]))])
    );
    assert_eq!(build_selective_deployed(&object(vec![]), &window, &strings(&["win"])), window);
    let plain = object(vec![("win", number("1"))]);
    assert_eq!(
        build_selective_deployed(&object(vec![]), &plain, &strings(&["win.a"])),
        object(vec![])
    );
    assert!(is_reached(&strings(&["s.y"]), "s"));
    assert!(!is_reached(&strings(&["sy"]), "s"));
}

#[test]
fn field_edits_tell_what_to_do() {
    let current = object(vec![("a", number("1")), ("b", number("2")), ("c", number("3"))]);
    let deployed = object(vec![("a", number("1")), ("b", number("20")), ("d", number("4"))]);
    let edits = build_field_edits_from_diff(&current, &deployed);
    assert_eq!(edits.len(), 3);
    assert!(edits.iter().any(
        |e| matches!(e, FieldEdit::Modify { path, new_value } if path == "b" && *new_value == number("20"))
    ));
    assert!(edits.iter().any(|e| matches!(e, FieldEdit::Delete { path } if path == "c")));
    assert!(edits.iter().any(
        |e| matches!(e, FieldEdit::Insert { path, value } if path == "d" && *value == number("4"))
    ));
    assert!(build_field_edits_from_diff(&current, &current).is_empty());
    assert!(has_structural_changes(&current, &deployed, &strings(&["d"]), &[]));
    assert!(!has_structural_changes(&current, &deployed, &strings(&["b"]), &[]));
    let edits = build_field_edits_for_keys(&current, &deployed, &strings(&["b"]), &[]);
    assert_eq!(edits.len(), 1);
    assert!(matches!(&edits[0], FieldEdit::Modify { path, .. } if path == "b"));
    let nested = object(vec![("x", object(vec![("y", number("7"))]))]);
    assert_eq!(json_path_get(&nested, "x.y"), Some(&number("7")));
    assert_eq!(json_path_get(&nested, "x.z"), None);
}

const ORDER: &str = "let metadata = { os = \"linux\" } in {
  blend = {
    files = [
      {
        name = \"a.json\",
        from_config = {
          size = metadata.os |> match { \"linux\" => 12, _ => 14 },
          name = \"old\",
          made = metadata,
        },
      },
    ],
  },
}";

fn order_entry() -> FileEntry {
    FileEntry {
        name: "a.json".to_string(),
        from_config: Some(object(vec![
            ("size", number("12")),
            ("name", text("old")),
            ("made", object(vec![])),
        ])),
        from_file: None,
        prefix: None,
        format: None,
        ignore: vec![],
        when: None,
        symlink: false,
        exclude: vec![],
        local: None,
        immutable: false,
    }
}

#[test]
fn a_pull_rewrites_the_active_branch() {
    let deployed = "{\"size\": 16, \"name\": \"old\", \"made\": {}}";
    let e = order_entry();
    let outcome = pull_from_config(
        ORDER, "order.ncl", 0, &metadata(), deployed, Format::Json, Some(&e), false, false,
    );
    match outcome.unwrap() {
        PullOutcome::Rewritten { source, warnings } => {
            assert_eq!(source, ORDER.replace("12", "16"));
            assert_eq!(warnings.len(), 1);
            assert!(warnings[0].text.starts_with("Cannot auto-pull made: "));
        }
        other => panic!("unexpected {other:?}"),
    }
}

#[test]
fn a_dry_pull_only_tells() {
    let deployed = "{\"size\": 16}";
    let e = order_entry();
    let outcome = pull_from_config(
        ORDER, "order.ncl", 0, &metadata(), deployed, Format::Json, Some(&e), false, true,
    );
    match outcome.unwrap() {
        PullOutcome::WouldUpdate { notes } => {
            assert_eq!(notes[0].text, "[dry-run] Would update from_config in order.ncl");
            assert_eq!(notes[1].text, "  size scoped under: os == \"linux\"");
        }
        other => panic!("unexpected {other:?}"),
    }
    let keys = strings(&["size", "name"]);
    let outcome = pull_from_config_keys(
        ORDER, "order.ncl", 0, &metadata(), deployed, Format::Json, Some(&e), &keys, false, true,
    );
    match outcome.unwrap() {
        PullOutcome::WouldUpdate { notes } => {
            assert_eq!(notes[0].text, "[dry-run] Would update 2 keys in order.ncl");
        }
        other => panic!("unexpected {other:?}"),
    }
}

#[test]
fn single_keys_are_pulled() {
    let deployed = "{\"size\": 16, \"name\": \"new\", \"made\": {}}";
    let e = order_entry();
    let pull = |keys: &[&str]| {
        pull_from_config_keys(
            ORDER,
            "order.ncl",
            0,
            &metadata(),
            deployed,
            Format::Json,
            Some(&e),
            &strings(keys),
            false,
            false,
        )
    };
    match pull(&["name"]).unwrap() {
        PullOutcome::Rewritten { source, .. } => {
            assert_eq!(source, ORDER.replace("old", "new"));
        }
        other => panic!("unexpected {other:?}"),
    }
    assert!(matches!(pull(&[]).unwrap(), PullOutcome::Nothing));
}

#[test]
fn a_pull_of_what_is_current_changes_nothing() {
    let deployed = "{\"name\": \"old\", \"made\": {}, \"size\": 12}";
    let e = order_entry();
    let outcome = pull_from_config(
        ORDER, "order.ncl", 0, &metadata(), deployed, Format::Json, Some(&e), false, false,
    );
    match outcome.unwrap() {
        PullOutcome::Rewritten { source, .. } => assert_eq!(source, ORDER),
        other => panic!("unexpected {other:?}"),
    }
}

#[test]
fn structure_is_edited_where_it_is_known() {
    let deployed = "{\"size\": 16, \"name\": \"old\", \"made\": {}, \"extra\": 1}";
    let e = order_entry();
    let outcome = pull_from_config(
        ORDER, "order.ncl", 0, &metadata(), deployed, Format::Json, Some(&e), true, false,
    );
    match outcome.unwrap() {
        PullOutcome::Restructure { edits, base_indent, .. } => {
            assert_eq!(edits.len(), 2);
            assert_eq!(base_indent, 5);
        }
        other => panic!("unexpected {other:?}"),
    }
}

#[test]
fn pulls_fail_for_reasons() {
    let e = order_entry();
    let bare = FileEntry { from_config: None, ..order_entry() };
    let odd = FileEntry { from_config: Some(number("1")), ..order_entry() };
    let pull = |source: &str, deployed: &str, entry: Option<&FileEntry>| {
        pull_from_config(
            source, "order.ncl", 0, &metadata(), deployed, Format::Json, entry, false, false,
        )
        .unwrap_err()
        .message("/t")
    };
    assert!(pull("{", "{}", Some(&e)).starts_with("Failed to parse .ncl file: "));
    assert_eq!(pull("{}", "{}", Some(&e)), "No 'blend' field found in order.ncl");
    assert_eq!(pull(ORDER, "{", Some(&e)), "Failed to parse deployed file /t");
    assert_eq!(pull(ORDER, "{}", None), "file entry index out of bounds");
    assert_eq!(pull(ORDER, "{}", Some(&bare)), "file entry has no from_config");
    assert_eq!(pull(ORDER, "[]", Some(&e)), "deployed value is not an object");
    assert_eq!(pull(ORDER, "{}", Some(&odd)), "current from_config value is not an object");
}

#[test]
fn what_can_be_pulled() {
    assert!(can_auto_pull(true, None, 0, &metadata()));
    assert!(can_auto_pull(false, Some(ORDER), 0, &metadata()));
    assert!(!can_auto_pull(false, Some(ORDER), 1, &metadata()));
    assert!(!can_auto_pull(false, None, 0, &metadata()));
    assert!(!can_auto_pull(false, Some("{"), 0, &metadata()));
}

#[test]
fn sync_test_pull_from_file() {
    assert!(matches!(
        pull_from_file("source.txt", "deployed.txt", false, false, true, false),
        FilePull::File
    ));
}

#[test]
fn sync_test_pull_from_file_dry_run() {
    match pull_from_file("source.txt", "deployed.txt", false, false, true, true) {
        FilePull::Tell(line) => {
            assert_eq!(line.text, "[dry-run] Would pull deployed.txt -> source.txt");
        }
        other => panic!("unexpected {other:?}"),
    }
    match pull_from_file("source", "gone", false, true, false, false) {
        FilePull::Refused(reason) => assert_eq!(
            reason,
            "Cannot pull: target gone does not exist or is not a regular file/directory"
        ),
        other => panic!("unexpected {other:?}"),
    }
}

fn deployed_entry(path: &str, is_dir: bool) -> DeployedEntry {
    DeployedEntry { rel_path: path.to_string(), is_dir }
}

#[test]
fn sync_test_pull_directory() {
    assert!(matches!(
        pull_from_file("source", "deployed", true, true, false, false),
        FilePull::Directory
    ));
    let entries =
        [deployed_entry("file.txt", false), deployed_entry("sub", true), deployed_entry("sub/nested.txt", false)];
    let steps = pull_directory("/deployed", "/source", None, &[], &None, &entries);
    let copied: Vec<(String, String)> = steps
        .into_iter()
        .filter_map(|s| match s {
            PullStep::Copy { source, target } => Some((source, target)),
            _ => None,
        })
        .collect();
    assert_eq!(
        copied,
        [
            ("/deployed/file.txt".to_string(), "/source/file.txt".to_string()),
            ("/deployed/sub/nested.txt".to_string(), "/source/sub/nested.txt".to_string()),
        ]
    );
}

#[test]
fn files_of_this_machine_are_pulled_back_to_it() {
    let entries = [
        deployed_entry("sub", true),
        deployed_entry("sub/own", false),
        deployed_entry("other", false),
        deployed_entry("x.bak", false),
    ];
    let exclude = build_glob_set(&strings(&["*.bak"])).unwrap();
    let steps = pull_directory(
        "/d", "/s", Some("/l"), &strings(&["sub/own"]), &exclude, &entries,
    );
    assert_eq!(steps.len(), 6);
    assert!(matches!(&steps[0], PullStep::MakeDir(p) if p == "/s/sub"));
    assert!(matches!(&steps[1], PullStep::MakeDir(p) if p == "/l/sub"));
    assert!(matches!(&steps[2], PullStep::MakeParent(p) if p == "/l/sub/own"));
    assert!(matches!(
        &steps[3],
        PullStep::Copy { source, target } if source == "/d/sub/own" && target == "/l/sub/own"
    ));
    assert!(matches!(
        &steps[5],
        PullStep::Copy { source, target } if source == "/d/other" && target == "/s/other"
    ));
}
