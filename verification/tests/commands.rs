//! What the commands decide and show.
use blend::commands::helpers::{
    check_file_sync, compute_diff_for_result, file_state, has_inner_link,
    only_structural_symlink_changes, target_is_unexpected_symlink, DiffFacts, DirFile, FileState,
    PathLink,
};
use blend::commands::machine::{take_turn, Phase, Reply, Request};
use blend::commands::status::{
    failed_package, found_line, headings, package_rows, rule, show_entry, skipped_file,
    skipped_package, system_line, EntryStanding, Standing,
};
use blend::commands::sync::{
    choose_action, decide_step, pull_allowed, settled_content, settled_result, summary, Choice,
    EntryFacts, Event, SyncStep, Tally,
};
use blend::commands::table::{render_table, sort_rows, table_row, TableRow};
use blend::commands::view::{
    all_up_to_date, link_state, package_heading, view_entry, view_flags, LinkState,
};
use blend::compose::BuildResult;
use blend::context::Context;
use blend::formats::Format;
use blend::metadata::Metadata;
use blend::nickel::schema::{BlendConfig, Condition, FileEntry, OrderPackage};
use blend::output::{
    error, heading_info, heading_note, info, info_important, success, warn, Level,
};
use blend::sync::merge::Decisions;
use blend::sync::{SyncAction, SyncMode};

fn strings(list: &[&str]) -> Vec<String> {
    list.iter().map(|s| s.to_string()).collect()
}

fn config(content: &str) -> BuildResult {
    BuildResult {
        target: "/home/me/.config/app.json".to_string(),
        content: content.to_string(),
        is_plaintext: false,
        source_path: None,
        name: "app.json".to_string(),
        ignore_keys: vec![],
        is_symlink: false,
        canonical_source: None,
        exclude_patterns: vec![],
        local_dir: None,
        immutable: false,
    }
}

fn plaintext() -> BuildResult {
    BuildResult {
        target: "/home/me/.vimrc".to_string(),
        content: String::new(),
        is_plaintext: true,
        source_path: Some("/orders/vim/vimrc".to_string()),
        name: "vimrc".to_string(),
        ..config("")
    }
}

fn linked() -> BuildResult {
    BuildResult {
        is_symlink: true,
        canonical_source: Some("/orders/vim/vimrc".to_string()),
        ..plaintext()
    }
}

fn facts(source: Option<&str>, deployed: Option<&str>) -> DiffFacts {
    DiffFacts {
        target_exists: deployed.is_some(),
        files: None,
        source: source.map(str::to_string),
        deployed: deployed.map(str::to_string),
    }
}

fn member(path: &str, state: FileState, is_symlink: bool) -> DirFile {
    DirFile { rel_path: path.to_string(), state, is_symlink }
}

fn directory(files: Vec<DirFile>) -> DiffFacts {
    DiffFacts { target_exists: true, files: Some(files), source: None, deployed: None }
}

fn entry_facts() -> EntryFacts {
    EntryFacts {
        is_symlink: false,
        link_is_current: false,
        target_exists: true,
        has_changes: true,
        unexpected_symlink: false,
        inner_symlinks_only: false,
        is_plaintext: false,
        can_pull: true,
        deployed_parseable: true,
    }
}

fn context(verbose: bool) -> Context {
    Context {
        home_dir: "/home/me".to_string(),
        orders_dir: "/orders".to_string(),
        metadata: Metadata {
            os: "linux".to_string(),
            arch: "x86_64".to_string(),
            hostname: "box".to_string(),
            desktop: None,
            home: "/home/me".to_string(),
            user: "me".to_string(),
        },
        dry_run: false,
        verbose,
    }
}

fn on(os: &[&str]) -> Option<Condition> {
    Some(Condition { os: Some(strings(os)), arch: None, hostname: None })
}

fn file(name: &str, when: Option<Condition>) -> FileEntry {
    FileEntry {
        name: name.to_string(),
        from_config: None,
        from_file: Some(name.to_string()),
        prefix: None,
        format: None,
        ignore: vec![],
        when,
        symlink: false,
        exclude: vec![],
        local: None,
        immutable: false,
    }
}

fn order(files: Vec<FileEntry>, when: Option<Condition>) -> OrderPackage {
    OrderPackage {
        blend: BlendConfig { files, prefix: strings(&["~/.config/"]), when, ignore: vec![] },
    }
}

fn deployed() -> Standing {
    Standing {
        symlink: false,
        link: LinkState::NotLinked,
        present: true,
        exists: true,
        unexpected: false,
        in_sync: Some(true),
    }
}

// Comparing

#[test]
fn a_build_is_compared_with_its_target() {
    let same = compute_diff_for_result(&config("{\"a\": 1}"), &facts(None, Some("{\"a\":1}")), false);
    assert!(!same.has_changes);
    let other = compute_diff_for_result(&config("{\"a\": 1}"), &facts(None, Some("{\"a\":2}")), false);
    assert!(other.has_changes);
    let missing = compute_diff_for_result(&config("{\"a\": 1}"), &facts(None, None), false);
    assert!(!missing.has_changes);
    let file = compute_diff_for_result(&plaintext(), &facts(Some("new\n"), Some("old\n")), false);
    assert_eq!(file.output, "-old\n+new");
    let link = compute_diff_for_result(&linked(), &facts(Some("new\n"), Some("old\n")), false);
    assert!(!link.has_changes);
    let dir = directory(vec![
        member("a", FileState::Same, true),
        member("b", FileState::Modified, false),
        member("c", FileState::Missing, false),
    ]);
    assert_eq!(compute_diff_for_result(&plaintext(), &dir, false).output, "~ b\n+ c");
    let coloured = compute_diff_for_result(&plaintext(), &dir, true);
    assert_eq!(coloured.output, "\u{1b}[33m~ b\u{1b}[0m\n\u{1b}[32m+ c\u{1b}[0m");
}

#[test]
fn sync_state_is_told_where_it_can_be() {
    assert_eq!(check_file_sync(&plaintext(), &facts(Some("x"), Some("x"))), Some(true));
    assert_eq!(check_file_sync(&plaintext(), &facts(Some("x"), Some("y"))), Some(false));
    assert_eq!(check_file_sync(&plaintext(), &facts(None, Some("y"))), None);
    assert_eq!(check_file_sync(&config("{}"), &facts(None, Some("{ }"))), Some(true));
    assert_eq!(check_file_sync(&config("{}"), &facts(None, None)), None);
    assert_eq!(check_file_sync(&linked(), &facts(Some("x"), Some("x"))), None);
}

#[test]
fn links_inside_a_directory_are_told_from_edits() {
    assert!(only_structural_symlink_changes(&vec![
        member("a", FileState::Same, false),
        member("b", FileState::Same, true),
    ]));
    assert!(!only_structural_symlink_changes(&vec![member("a", FileState::Same, false)]));
    assert!(!only_structural_symlink_changes(&vec![
        member("a", FileState::Modified, false),
        member("b", FileState::Same, true),
    ]));
}

fn step(path: &str, is_link: bool) -> PathLink {
    PathLink { path: path.to_string(), is_link }
}

#[test]
fn a_link_above_the_target_is_unexpected() {
    let above = [step("/home/me/.config/x", false), step("/home/me/.config", true)];
    assert!(target_is_unexpected_symlink(false, &above, "/home/me"));
    assert!(!target_is_unexpected_symlink(true, &above, "/home/me"));
    let home = [step("/home/me/x", false), step("/home/me", true), step("/home", true)];
    assert!(!target_is_unexpected_symlink(false, &home, "/home/me"));
    let elsewhere = [step("/etc/x", true), step("/etc", false)];
    assert!(target_is_unexpected_symlink(false, &elsewhere, "/home/me"));
}

#[test]
fn files_are_compared_by_their_bytes() {
    assert_eq!(file_state(Some(b"a"), Some(b"a")), FileState::Same);
    assert_eq!(file_state(Some(b"a"), Some(b"b")), FileState::Modified);
    assert_eq!(file_state(Some(b"a"), Some(b"ab")), FileState::Modified);
    assert_eq!(file_state(None, Some(b"a")), FileState::Modified);
    assert_eq!(file_state(Some(b"a"), None), FileState::Missing);
    assert!(has_inner_link(&Some(vec![member("a", FileState::Same, true)])));
    assert!(!has_inner_link(&Some(vec![member("a", FileState::Same, false)])));
    assert!(!has_inner_link(&None));
}

#[test]
fn links_are_compared_with_their_source() {
    assert_eq!(link_state(Some("/a"), Some("/a")), LinkState::Current);
    assert_eq!(link_state(Some("/b"), Some("/a")), LinkState::Elsewhere);
    assert_eq!(link_state(Some("/b"), None), LinkState::Elsewhere);
    assert_eq!(link_state(None, Some("/a")), LinkState::NotLinked);
}

// Deciding

#[test]
fn every_step_has_its_facts() {
    let interactive = SyncMode::Interactive;
    let f = entry_facts();
    assert_eq!(decide_step(&f, interactive, false), SyncStep::PerKey);
    assert_eq!(decide_step(&f, interactive, true), SyncStep::WholeFile);
    assert_eq!(decide_step(&f, SyncMode::PushAll, false), SyncStep::WholeFile);
    let f = EntryFacts { is_plaintext: true, ..entry_facts() };
    assert_eq!(decide_step(&f, interactive, false), SyncStep::WholeFile);
    let f = EntryFacts { can_pull: false, ..entry_facts() };
    assert_eq!(decide_step(&f, interactive, false), SyncStep::WholeFile);
    let f = EntryFacts { deployed_parseable: false, ..entry_facts() };
    assert_eq!(decide_step(&f, interactive, false), SyncStep::WholeFile);
    let f = EntryFacts { has_changes: false, ..entry_facts() };
    assert_eq!(decide_step(&f, interactive, false), SyncStep::InSync);
    let f = EntryFacts { has_changes: false, unexpected_symlink: true, ..entry_facts() };
    assert_eq!(decide_step(&f, interactive, false), SyncStep::Redeploy);
    let f = EntryFacts { unexpected_symlink: true, ..entry_facts() };
    assert_eq!(decide_step(&f, interactive, false), SyncStep::PerKey);
    let f = EntryFacts { inner_symlinks_only: true, ..entry_facts() };
    assert_eq!(decide_step(&f, interactive, false), SyncStep::Redeploy);
    let f = EntryFacts { target_exists: false, ..entry_facts() };
    assert_eq!(decide_step(&f, interactive, false), SyncStep::PushNew);
    let f = EntryFacts { is_symlink: true, ..entry_facts() };
    assert_eq!(decide_step(&f, interactive, false), SyncStep::Link);
    let f = EntryFacts { is_symlink: true, link_is_current: true, ..entry_facts() };
    assert_eq!(decide_step(&f, interactive, false), SyncStep::Linked);
}

#[test]
fn the_mode_chooses_or_asks() {
    assert_eq!(choose_action(SyncMode::PushAll, true, false), Choice::Take(SyncAction::Push));
    assert_eq!(choose_action(SyncMode::PullAll, false, true), Choice::Take(SyncAction::Pull));
    assert_eq!(choose_action(SyncMode::PullAll, false, false), Choice::CannotPull);
    assert_eq!(choose_action(SyncMode::Interactive, true, true), Choice::WouldAsk);
    assert_eq!(choose_action(SyncMode::Interactive, false, true), Choice::Ask);
    assert!(pull_allowed(false, true));
    assert!(!pull_allowed(true, true));
    assert!(!pull_allowed(false, false));
}

#[test]
fn a_new_file_is_pushed() {
    let f = EntryFacts { target_exists: false, ..entry_facts() };
    let turn = take_turn(Phase::Start, Reply::Facts(f), SyncMode::Interactive, false, false);
    assert_eq!(turn.request, Request::Write);
    let turn = take_turn(turn.phase, Reply::Written(None), SyncMode::Interactive, false, false);
    assert_eq!(turn.request, Request::Next);
    assert_eq!(turn.events[0].tally(), Tally::Pushed);
    assert_eq!(
        turn.events[0].line("pkg", "a", "/t", false).unwrap().text,
        "Pushed pkg:a -> /t (new)"
    );
}

#[test]
fn a_dry_run_writes_nothing_new() {
    let f = EntryFacts { target_exists: false, ..entry_facts() };
    let turn = take_turn(Phase::Start, Reply::Facts(f), SyncMode::PushAll, true, false);
    assert_eq!(turn.request, Request::Next);
    assert_eq!(
        turn.events[0].line("pkg", "a", "/t", false).unwrap().text,
        "[dry-run] pkg:a -> /t (new file, would push)"
    );
    let f = EntryFacts { has_changes: false, unexpected_symlink: true, ..entry_facts() };
    let turn = take_turn(Phase::Start, Reply::Facts(f), SyncMode::PushAll, true, false);
    assert_eq!(
        turn.events[0].line("pkg", "a", "/t", false).unwrap().text,
        "[dry-run] pkg:a content matches but target is a symlink \u{2014} would re-deploy"
    );
}

#[test]
fn keys_are_settled_and_then_pulled() {
    let mode = SyncMode::Interactive;
    let turn = take_turn(Phase::Start, Reply::Facts(entry_facts()), mode, false, false);
    assert_eq!(turn.request, Request::DecideKeys);
    let reply = Reply::Decided { keys: 2, has_pulls: true };
    let turn = take_turn(turn.phase, reply, mode, false, false);
    assert_eq!(turn.request, Request::WriteSettled);
    let turn = take_turn(turn.phase, Reply::Written(None), mode, false, false);
    assert_eq!(turn.request, Request::PullKeys);
    assert_eq!(
        turn.events[0].line("p", "n", "/t", false).unwrap().text,
        "Synced p:n (2 keys resolved)"
    );
    let turn = take_turn(turn.phase, Reply::Rewritten(Ok(true)), mode, false, false);
    assert_eq!(turn.request, Request::Next);
    assert_eq!(turn.events[0].tally(), Tally::Pulled);
    assert!(turn.events[0].line("p", "n", "/t", true).is_none());
}

#[test]
fn without_rewriting_no_order_is_pulled_to() {
    let phase = Phase::Settling { keys: 1, has_pulls: true };
    let turn = take_turn(phase, Reply::Written(None), SyncMode::Interactive, false, true);
    assert_eq!(turn.request, Request::Next);
}

#[test]
fn quitting_ends_the_sync() {
    let mode = SyncMode::Interactive;
    let turn = take_turn(Phase::Deciding, Reply::Quit, mode, false, false);
    assert_eq!(turn.request, Request::Stop);
    let turn = take_turn(Phase::Asking, Reply::Answer(SyncAction::Quit), mode, false, false);
    assert_eq!(turn.request, Request::Stop);
    assert_eq!(
        turn.events[0].line("p", "n", "/t", false).unwrap().text,
        "Sync aborted by user"
    );
}

#[test]
fn a_whole_file_is_shown_before_it_is_decided() {
    let f = EntryFacts { is_plaintext: true, ..entry_facts() };
    let turn = take_turn(Phase::Start, Reply::Facts(f), SyncMode::Interactive, false, false);
    assert!(turn.show);
    assert_eq!(turn.request, Request::AskFile);
    let answer = Reply::Answer(SyncAction::Pull);
    let turn = take_turn(turn.phase, answer, SyncMode::Interactive, false, false);
    assert_eq!(turn.request, Request::Pull);
    let reply = Reply::Rewritten(Ok(false));
    let turn = take_turn(turn.phase, reply, SyncMode::Interactive, false, false);
    assert_eq!(turn.events.len(), 2);
    assert_eq!(turn.events[1].tally(), Tally::Pulled);
    let f = EntryFacts { can_pull: false, ..entry_facts() };
    let turn = take_turn(Phase::Start, Reply::Facts(f), SyncMode::PullAll, false, false);
    assert_eq!(turn.request, Request::Next);
    assert_eq!(turn.events[1].tally(), Tally::Skipped);
}

#[test]
fn failures_are_told_and_counted() {
    let cases = [
        (Event::LinkFailed("x".to_string()), "Failed to link p:n: x"),
        (Event::PushFailed("x".to_string()), "Failed to push p:n: x"),
        (Event::RedeployFailed("x".to_string()), "Failed to re-deploy p:n: x"),
        (Event::PullFailed("x".to_string()), "Failed to pull p:n: x"),
        (Event::MergeNotWritten("x".to_string()), "Failed to write merged p:n: x"),
        (Event::MergeNotRendered("x".to_string()), "Failed to render merged p:n: x"),
        (Event::KeysPullFailed("x".to_string()), "Failed to rewrite .ncl for p:n: x"),
    ];
    for (event, line) in cases {
        assert_eq!(event.tally(), Tally::Failed);
        let told = event.line("p", "n", "/t", false).unwrap();
        assert_eq!(told.text, line);
        assert_eq!(told.level, Level::Error);
        assert!(told.to_stderr());
    }
    assert!(Event::InSync.line("p", "n", "/t", false).is_none());
    assert_eq!(Event::InSync.line("p", "n", "/t", true).unwrap().text, "p:n in sync");
}

#[test]
fn the_summary_counts() {
    let tallies = [Tally::Pushed, Tally::Nothing, Tally::Pulled, Tally::Pushed, Tally::Skipped];
    assert_eq!(summary(&tallies).text, "Sync complete: 2 pushed, 1 pulled, 1 skipped");
    assert_eq!(
        summary(&[Tally::Failed]).text,
        "Sync complete: 0 pushed, 0 pulled, 0 skipped (1 errors)"
    );
}

#[test]
fn settled_keys_are_written() {
    let mut decisions = Decisions::new();
    decisions.insert("a", true);
    decisions.insert("b", false);
    let repo = "{\"a\": 1, \"b\": 2}";
    let deployed = "{\"a\": 10, \"b\": 20}";
    assert_eq!(
        settled_content(Format::Json, repo, deployed, &decisions),
        Ok("{\n  \"a\": 1,\n  \"b\": 20\n}".to_string())
    );
    let immutable = BuildResult { immutable: true, ..config(repo) };
    let settled = settled_result(&immutable, deployed, &decisions).unwrap();
    assert_eq!(settled.target, immutable.target);
    assert_eq!(settled.content, "{\n  \"a\": 1,\n  \"b\": 20\n}");
    assert!(!settled.immutable && !settled.is_plaintext && !settled.is_symlink);
    let text = BuildResult { name: "app.conf".to_string(), ..config("x") };
    assert_eq!(settled_result(&text, "y", &decisions).unwrap().content, "y");
}

#[test]
fn a_skipped_key_of_the_repo_is_not_written() {
    let repo = "{\"k1\": 1, \"k2\": 2}";
    let mut decisions = Decisions::new();
    decisions.insert("k2", true);
    assert_eq!(
        settled_content(Format::Json, repo, "{}", &decisions),
        Ok("{\n  \"k2\": 2\n}".to_string())
    );
}

// Viewing

#[test]
fn flags_choose_what_is_shown() {
    let f = view_flags(true, false, false, false);
    assert!(f.content && !f.diff);
    let f = view_flags(false, true, true, false);
    assert!(f.content && f.diff && f.short);
    let f = view_flags(false, false, false, true);
    assert!(!f.content && f.diff && f.styled);
    assert!(all_up_to_date(true, false, 1));
    assert!(!all_up_to_date(true, true, 1));
    assert!(!all_up_to_date(true, false, 0));
    assert!(!all_up_to_date(false, false, 1));
    assert_eq!(package_heading("git", false), "\ngit");
    assert_eq!(package_heading("git", true), "\n\u{1b}[36m\u{1b}[1mgit\u{1b}[0m");
}

#[test]
fn a_file_is_viewed() {
    let v = view_flags(false, false, false, false);
    let home = "/home/me";
    let none = LinkState::NotLinked;
    let (lines, changed) =
        view_entry(&plaintext(), home, &facts(Some("new\n"), Some("old\n")), none, false, &v);
    assert_eq!(lines, ["  vimrc -> ~/.vimrc", "    -old", "    +new"]);
    assert!(changed);
    let (lines, changed) =
        view_entry(&plaintext(), home, &facts(Some("x"), Some("x")), none, false, &v);
    assert_eq!(lines, ["  vimrc -> ~/.vimrc (no changes)"]);
    assert!(!changed);
    let (lines, changed) = view_entry(&plaintext(), home, &facts(Some("x"), None), none, false, &v);
    assert_eq!(lines, ["  vimrc -> ~/.vimrc (not deployed)"]);
    assert!(changed);
}

#[test]
fn a_link_in_the_way_is_annotated() {
    let v = view_flags(false, false, false, false);
    let none = LinkState::NotLinked;
    let (lines, changed) =
        view_entry(&plaintext(), "/home/me", &facts(Some("x"), Some("x")), none, true, &v);
    assert_eq!(lines, ["  vimrc -> ~/.vimrc (symlinked, needs re-deploy)"]);
    assert!(changed);
    let (lines, _) =
        view_entry(&plaintext(), "/home/me", &facts(Some("x"), Some("y")), none, true, &v);
    assert_eq!(
        lines,
        ["  vimrc -> ~/.vimrc (symlinked, needs re-deploy)", "    -y", "    +x"]
    );
}

#[test]
fn a_link_is_viewed() {
    let v = view_flags(false, false, false, false);
    let f = facts(Some("x"), Some("x"));
    let show = |link| view_entry(&linked(), "/home/me", &f, link, false, &v).0;
    assert_eq!(show(LinkState::Current), ["  vimrc -> ~/.vimrc (symlink) (linked)"]);
    assert_eq!(show(LinkState::Elsewhere), ["  vimrc -> ~/.vimrc (symlink) (wrong target)"]);
    assert_eq!(show(LinkState::NotLinked), ["  vimrc -> ~/.vimrc (symlink) (not linked)"]);
}

#[test]
fn a_directory_is_viewed_file_by_file() {
    let f = directory(vec![
        member("file1.txt", FileState::Same, true),
        member("sub/b", FileState::Modified, false),
        member("c", FileState::Same, false),
    ]);
    let none = LinkState::NotLinked;
    let v = view_flags(false, false, false, false);
    let (lines, changed) = view_entry(&plaintext(), "/home/me", &f, none, false, &v);
    assert_eq!(
        lines,
        [
            "  vimrc -> ~/.vimrc (directory)",
            "    file1.txt (unexpected symlink)",
            "    sub/b (modified)",
            "    c (no changes)",
        ]
    );
    assert!(changed);
    let v = view_flags(false, false, true, false);
    let (lines, _) = view_entry(&plaintext(), "/home/me", &f, none, false, &v);
    assert_eq!(lines.len(), 3);
}

#[test]
fn configuration_is_viewed() {
    let none = LinkState::NotLinked;
    let home = "/home/me";
    let c = config("{\"a\": 1}");
    let v = view_flags(true, false, false, false);
    let (lines, changed) = view_entry(&c, home, &facts(None, Some("{}")), none, false, &v);
    assert_eq!(lines, ["  app.json -> ~/.config/app.json", "    {\"a\": 1}"]);
    assert!(!changed);
    let v = view_flags(false, false, false, false);
    let (lines, changed) = view_entry(&c, home, &facts(None, Some("{\"a\":1}")), none, false, &v);
    assert_eq!(lines, ["  app.json -> ~/.config/app.json (no changes)"]);
    assert!(!changed);
    let (lines, changed) = view_entry(&c, home, &facts(None, Some("{\"a\":2}")), none, false, &v);
    assert_eq!(lines.len(), 2);
    assert!(changed);
    let v = view_flags(false, true, false, false);
    let (lines, changed) = view_entry(&c, home, &facts(None, None), none, false, &v);
    assert_eq!(lines, ["  app.json -> ~/.config/app.json (not deployed)", "    {\"a\": 1}"]);
    assert!(changed);
}

#[test]
fn a_short_view_leaves_out_what_is_up_to_date() {
    let v = view_flags(false, false, true, false);
    let none = LinkState::Current;
    let f = facts(Some("x"), Some("x"));
    assert!(view_entry(&plaintext(), "/home/me", &f, none, false, &v).0.is_empty());
    assert!(view_entry(&linked(), "/home/me", &f, none, false, &v).0.is_empty());
    let f = facts(None, Some("{}"));
    assert!(view_entry(&config("{}"), "/home/me", &f, none, false, &v).0.is_empty());
}

// Status

#[test]
fn the_status_has_headings() {
    assert_eq!(found_line(12), "Found 12 packages in orders/");
    assert_eq!(
        headings(false),
        "PACKAGE              FILE                 STATUS     DIFF  TARGET"
    );
    assert_eq!(rule(), "-".repeat(95));
    assert_eq!(system_line("linux", "x86_64", "box"), "System: linux / x86_64 / box");
}

#[test]
fn rows_show_how_entries_stand() {
    let row = |s: &Standing| show_entry("git", "config", "/home/me/x", "/home/me", false, true, s, false);
    let head = "git                  config               ";
    assert_eq!(row(&deployed()), format!("{head}deployed   \u{2713}     ~/x"));
    let s = Standing { in_sync: Some(false), ..deployed() };
    assert_eq!(row(&s), format!("{head}deployed   \u{2260}     ~/x"));
    let s = Standing { in_sync: None, ..deployed() };
    assert_eq!(row(&s), format!("{head}deployed   \u{b7}     ~/x"));
    let s = Standing { unexpected: true, ..deployed() };
    assert_eq!(row(&s), format!("{head}symlinked  \u{2260}     ~/x"));
    let s = Standing { exists: false, present: false, ..deployed() };
    assert_eq!(row(&s), format!("{head}pending    \u{b7}     ~/x"));
    let s = Standing { symlink: true, link: LinkState::Current, ..deployed() };
    assert_eq!(row(&s), format!("{head}linked     \u{2713}     ~/x"));
    let s = Standing { symlink: true, ..deployed() };
    assert_eq!(row(&s), format!("{head}linked     \u{2260}     ~/x"));
    let s = Standing { symlink: true, present: false, exists: false, ..deployed() };
    assert_eq!(row(&s), format!("{head}pending    \u{b7}     ~/x"));
}

#[test]
fn long_names_are_cut() {
    let name = "a-very-long-configuration-file";
    let row = show_entry("p", name, "/x", "/home/me", true, false, &deployed(), false);
    assert_eq!(row, "                     a-very-long-confi... deployed   \u{2713}     /x");
    let row = show_entry("p", "dir", "/x", "/home/me", true, false, &deployed(), false);
    assert_eq!(row, "                     dir/                 deployed   \u{2713}     /x");
}

#[test]
fn packages_have_rows() {
    let o = order(
        vec![file("a", on(&["darwin"])), file("b", None)],
        on(&["linux", "darwin"]),
    );
    let standings = || {
        vec![
            EntryStanding { directory: false, targets: vec![deployed()] },
            EntryStanding { directory: true, targets: vec![deployed()] },
        ]
    };
    let rows = package_rows(&context(false), "pkg", &o, &standings(), false);
    assert_eq!(rows.len(), 1);
    assert!(rows[0].starts_with("                     b/ "));
    assert!(rows[0].ends_with("~/.config/b"));
    let rows = package_rows(&context(true), "pkg", &o, &standings(), false);
    assert_eq!(rows.len(), 2);
    assert_eq!(rows[0], skipped_file("pkg", "a", true, true, false).unwrap());
    assert!(rows[0].starts_with("pkg "));
    let o = order(vec![file("a", None)], on(&["darwin"]));
    let one = vec![EntryStanding { directory: false, targets: vec![deployed()] }];
    let rows = package_rows(&context(true), "pkg", &o, &one, false);
    assert_eq!(rows, [skipped_package("pkg", false)]);
    assert!(rows[0].ends_with("skipped    \u{b7}     (condition not met)"));
    let accented = "a-very-long-conf\u{e9}guration-file";
    let o = order(vec![file(accented, None)], on(&["darwin"]));
    let rows = package_rows(&context(true), "pkg", &o, &one, false);
    assert_eq!(rows, [skipped_package("pkg", false)]);
    let o = order(vec![file(accented, on(&["darwin"])), file("b", None)], None);
    let rows = package_rows(&context(false), "pkg", &o, &standings(), false);
    assert_eq!(rows.len(), 1);
    assert!(rows[0].starts_with("                     b/ "));
    assert!(skipped_file("pkg", "a", false, false, false).is_none());
    assert!(failed_package("pkg", "boom", false).ends_with("error      \u{b7}     boom"));
}

// The table

#[test]
fn the_table_lists_packages_by_platforms() {
    let all = order(vec![], None);
    let mac = order(vec![], on(&["darwin"]));
    let linux = order(vec![], on(&["linux"]));
    let rows = sort_rows(vec![
        table_row("zsh", &all),
        table_row("i3", &linux),
        table_row("aerospace", &mac),
        table_row("git", &all),
    ]);
    let names: Vec<&str> = rows.iter().map(|r| r.name.as_str()).collect();
    assert_eq!(names, ["git", "zsh", "aerospace", "i3"]);
    assert_eq!(rows[2].matches, [false, true, true]);
    assert_eq!(
        render_table(&vec![table_row("i3", &linux)]),
        "<table><thead><tr><th>package</th><th colspan=\"3\">profiles</th></tr></thead><tbody>\
         \n<tr><td><a href=\"orders/i3\">i3</a></td><td><code>linux-x86_64</code></td>\
         <td><code>&nbsp;...</code></td><td><code>&nbsp;...</code></td></tr>\
         \n</tbody></table>\n"
    );
    let none: Vec<TableRow> = vec![];
    assert!(render_table(&none).ends_with("<tbody>\n</tbody></table>\n"));
}

// Messages

#[test]
fn messages_have_levels() {
    assert_eq!(info("x").render(true), "\u{1b}[2mx\u{1b}[0m");
    assert_eq!(info_important("x").render(true), "x");
    assert_eq!(warn("x").render(true), "\u{1b}[33mx\u{1b}[0m");
    assert_eq!(error("x").render(true), "\u{1b}[31mx\u{1b}[0m");
    assert_eq!(success("x").render(true), "\u{1b}[32mx\u{1b}[0m");
    assert_eq!(success("x").render(false), "x");
    assert!(error("x").to_stderr());
    assert!(!warn("x").to_stderr());
}

#[test]
fn headings_are_set_off() {
    assert_eq!(heading_note("Up", false), "  Up  \u{e0b0}");
    assert_eq!(
        heading_note("Up", true),
        "\u{1b}[42m  \u{1b}[0m\u{1b}[37m\u{1b}[42m\u{1b}[1mUp\u{1b}[0m\u{1b}[42m  \u{1b}[0m\
         \u{1b}[32m\u{e0b0}\u{1b}[0m"
    );
    assert_eq!(heading_info("Go", false), "  \u{2b1d}Go   \u{e0b0}");
    assert_eq!(
        heading_info("Go", true),
        "\u{1b}[37m\u{1b}[48;5;12m\u{1b}[1m  \u{2b1d}\u{1b}[0m\
         \u{1b}[37m\u{1b}[48;5;12m\u{1b}[1mGo\u{1b}[0m\u{1b}[48;5;12m   \u{1b}[0m\
         \u{1b}[38;5;12m\u{e0b0}\u{1b}[0m"
    );
}
