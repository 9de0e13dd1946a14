//! Building packages.
use blend::compose::merged::{collect_merged_files, MergedFile};
use blend::compose::write::{
    link_to_remove, write_result, PathKind, TargetFacts, WayPath, WriteStep,
};
use blend::compose::{
    build_file_entry_pub, build_package, build_package_with_indices, discover_packages,
    select_packages, skipped_entries, BuildResult, OrdersEntry, SourceFacts,
};
use blend::context::{join_dir, Context};
use blend::formats::Format;
use blend::globs::{build_glob_set, is_excluded};
use blend::json::Json;
use blend::metadata::Metadata;
use blend::nickel::schema::{BlendConfig, Condition, FileEntry, OrderPackage};

fn files(list: &[(&str, &str)]) -> Vec<(String, String)> {
    list.iter().map(|(path, source)| (path.to_string(), source.to_string())).collect()
}

fn find<'a>(merged: &'a [MergedFile], path: &str) -> &'a MergedFile {
    merged.iter().find(|m| m.rel_path == path).unwrap()
}

#[test]
fn test_discover_packages() {
    let packages = discover_packages(&[
        OrdersEntry { name: "package1".to_string(), is_dir: true, has_order: true },
        OrdersEntry { name: "package2".to_string(), is_dir: true, has_order: false },
    ]);
    assert!(packages.contains(&"package1".to_string()));
    assert!(!packages.contains(&"package2".to_string()));
}

#[test]
fn test_build_glob_set_empty() {
    let result = build_glob_set(&[]).unwrap();
    assert!(result.is_none());
}

#[test]
fn test_build_glob_set_patterns() {
    let patterns = vec!["*.bak".to_string(), ".gitignore".to_string()];
    let gs = build_glob_set(&patterns).unwrap().unwrap();
    assert!(gs.is_match("file.bak"));
    assert!(gs.is_match(".gitignore"));
    assert!(!gs.is_match("file.txt"));
}

#[test]
fn test_build_glob_set_nested_pattern() {
    let patterns = vec!["lib/tmp/**".to_string()];
    let gs = build_glob_set(&patterns).unwrap().unwrap();
    assert!(gs.is_match("lib/tmp/foo.txt"));
    assert!(gs.is_match("lib/tmp/sub/bar.txt"));
    assert!(!gs.is_match("lib/foo.txt"));
}

#[test]
fn test_collect_merged_files_no_overlay() {
    let source = files(&[("a.txt", "/source/a.txt"), ("sub/b.txt", "/source/sub/b.txt")]);
    let merged = collect_merged_files(&source, &[], &None);
    assert_eq!(merged.len(), 2);
    assert!(merged.iter().all(|m| !m.is_local));
}

#[test]
fn test_collect_merged_files_with_exclude() {
    let source = files(&[
        ("keep.txt", "/source/keep.txt"),
        ("skip.bak", "/source/skip.bak"),
        (".gitignore", "/source/.gitignore"),
    ]);
    let patterns = vec!["*.bak".to_string(), ".gitignore".to_string()];
    let gs = build_glob_set(&patterns).unwrap();
    let merged = collect_merged_files(&source, &[], &gs);

    assert_eq!(merged.len(), 1);
    assert_eq!(merged[0].rel_path, "keep.txt");
}

#[test]
fn test_collect_merged_files_with_local_overlay() {
    // Source files
    let source = files(&[
        ("tracked.txt", "/source/tracked.txt"),
        ("sub/shared.txt", "/source/sub/shared.txt"),
    ]);
    // Local overlay: overrides sub/shared.txt and adds new.txt
    let local = files(&[
        ("sub/shared.txt", "/local/sub/shared.txt"),
        ("new.txt", "/local/new.txt"),
    ]);
    let merged = collect_merged_files(&source, &local, &None);
    assert_eq!(merged.len(), 3);

    // new.txt (local)
    assert!(find(&merged, "new.txt").is_local);

    // sub/shared.txt (local override)
    let shared = find(&merged, "sub/shared.txt");
    assert!(shared.is_local);
    assert_eq!(shared.source, "/local/sub/shared.txt");

    // tracked.txt (from source)
    assert!(!find(&merged, "tracked.txt").is_local);
}

#[test]
fn test_collect_merged_files_exclude_applies_to_local() {
    let source = files(&[("a.txt", "/source/a.txt")]);
    let local = files(&[("skip.bak", "/local/skip.bak"), ("keep.txt", "/local/keep.txt")]);
    let patterns = vec!["*.bak".to_string()];
    let gs = build_glob_set(&patterns).unwrap();
    let merged = collect_merged_files(&source, &local, &gs);

    // Should have a.txt and keep.txt, but not skip.bak
    assert_eq!(merged.len(), 2);
    assert!(!merged.iter().any(|m| m.rel_path == "skip.bak"));
}

fn context() -> Context {
    Context {
        home_dir: "/home/me".to_string(),
        orders_dir: "/orders".to_string(),
        metadata: Metadata {
            os: "linux".to_string(),
            arch: "x86_64".to_string(),
            hostname: "box".to_string(),
            desktop: None,
            home: "/home/me".to_string(),
            user: "me".to_string(),
        },
        dry_run: false,
        verbose: true,
    }
}

fn strings(list: &[&str]) -> Vec<String> {
    list.iter().map(|s| s.to_string()).collect()
}

fn entry(name: &str) -> FileEntry {
    FileEntry {
        name: name.to_string(),
        from_config: None,
        from_file: Some(name.to_string()),
        prefix: None,
        format: None,
        ignore: strings(&["own"]),
        when: None,
        symlink: false,
        exclude: strings(&["*.bak"]),
        local: Some("local".to_string()),
        immutable: false,
    }
}

fn configured(name: &str, value: Json) -> FileEntry {
    FileEntry { from_file: None, from_config: Some(value), ..entry(name) }
}

fn on(os: &str) -> Option<Condition> {
    Some(Condition { os: Some(strings(&[os])), arch: None, hostname: None })
}

fn order(files: Vec<FileEntry>, when: Option<Condition>) -> OrderPackage {
    OrderPackage {
        blend: BlendConfig {
            files,
            prefix: strings(&["~/.config/", "/etc"]),
            when,
            ignore: strings(&["shared"]),
        },
    }
}

fn there(canonical: Option<&str>) -> SourceFacts {
    SourceFacts { exists: true, canonical: canonical.map(str::to_string) }
}

fn empty() -> Json {
    Json::Object(vec![])
}

#[test]
fn packages_are_built_for_every_target() {
    let o = order(
        vec![
            FileEntry { when: on("darwin"), ..entry("skipped") },
            configured("a.json", empty()),
            FileEntry { prefix: Some(strings(&["~/"])), ..entry("vimrc") },
        ],
        on("linux"),
    );
    let facts = vec![there(None), there(None), there(None)];
    let built = build_package_with_indices(&context(), "pkg", &o, &facts).unwrap();
    let targets: Vec<(&str, usize)> =
        built.iter().map(|(b, i)| (b.target.as_str(), *i)).collect();
    assert_eq!(
        targets,
        [("/home/me/.config/a.json", 1), ("/etc/a.json", 1), ("/home/me/vimrc", 2)]
    );
    assert_eq!(built[0].0.content, "{}");
    assert_eq!(built[0].0.ignore_keys, ["shared", "own"]);
    assert!(!built[0].0.is_plaintext);
    assert_eq!(built[2].0.source_path.as_deref(), Some("/orders/pkg/vimrc"));
    assert_eq!(built[2].0.local_dir.as_deref(), Some("/orders/pkg/local"));
    assert!(built[2].0.is_plaintext);
    let names: Vec<String> =
        build_package(&context(), "pkg", &o, &facts).unwrap().into_iter().map(|b| b.name).collect();
    assert_eq!(names, ["a.json", "a.json", "vimrc"]);
    let notes = skipped_entries(&context(), &o);
    assert_eq!(notes.len(), 1);
    assert_eq!(notes[0].text, "Skipping file skipped (when condition not met)");
    let o = order(vec![entry("vimrc")], on("darwin"));
    assert!(build_package(&context(), "pkg", &o, &vec![there(None)]).unwrap().is_empty());
}

#[test]
fn builds_fail_for_reasons() {
    let build = |e: &FileEntry, facts: &SourceFacts| {
        build_file_entry_pub("/orders/p", e, "/t".to_string(), vec![], facts)
            .unwrap_err()
            .message()
    };
    let gone = SourceFacts { exists: false, canonical: None };
    assert_eq!(
        build(&entry("x"), &gone),
        "File entry 'x': source file not found at /orders/p/x"
    );
    let linked = FileEntry { symlink: true, ..entry("x") };
    assert_eq!(
        build(&linked, &there(None)),
        "Failed to canonicalize source path /orders/p/x"
    );
    let bare = FileEntry { from_file: None, ..entry("x") };
    assert_eq!(build(&bare, &gone), "File entry 'x' has neither 'from_file' nor 'from_config'");
    let unfit = FileEntry {
        format: Some(Format::SpaceDelimitedPairs),
        ..configured("x", empty())
    };
    assert_eq!(build(&unfit, &gone), "expected an array of pairs of scalars");
    let nulled = Json::Object(vec![("a".to_string(), Json::Null)]);
    let untold = FileEntry { format: Some(Format::Toml), ..configured("x", nulled) };
    assert!(!build(&untold, &gone).is_empty());
}

fn built(e: &FileEntry) -> BuildResult {
    build_file_entry_pub("/o/p", e, "/t".to_string(), vec![], &there(Some("/real/x"))).unwrap()
}

fn at(exists: bool, is_symlink: bool, source_is_dir: bool) -> TargetFacts {
    TargetFacts { exists, is_symlink, source_is_dir }
}

/// The steps of a plan, one word and the path for each.
fn plan(
    b: &BuildResult,
    dry_run: bool,
    facts: TargetFacts,
    files: &Vec<MergedFile>,
) -> Vec<String> {
    write_result(b, dry_run, &facts, files)
        .unwrap()
        .into_iter()
        .map(|step| match step {
            WriteStep::Log(line) => line.text,
            WriteStep::ClearImmutable(p) => format!("clear {p}"),
            WriteStep::EnsureParent(p) => format!("parent {p}"),
            WriteStep::RemoveLink(p) => format!("unlink {p}"),
            WriteStep::RemoveExisting(p) => format!("remove {p}"),
            WriteStep::Link { source, target } => format!("link {target} {source}"),
            WriteStep::Copy { source, target } => format!("copy {target} {source}"),
            WriteStep::Write { target, content } => format!("write {target} {content}"),
            WriteStep::SetImmutable(p) => format!("lock {p}"),
        })
        .collect()
}

#[test]
fn configuration_is_written() {
    let b = built(&configured("a.json", empty()));
    assert_eq!(
        plan(&b, false, at(true, true, false), &vec![]),
        ["parent /t", "unlink /t", "write /t {}"]
    );
    assert_eq!(
        plan(&b, true, at(true, true, false), &vec![]),
        ["Would remove symlink /t", "Would write to /t"]
    );
}

#[test]
fn immutable_targets_are_opened_and_closed() {
    let b = built(&FileEntry { immutable: true, ..configured("a.json", empty()) });
    assert_eq!(
        plan(&b, false, at(true, false, false), &vec![]),
        ["clear /t", "parent /t", "unlink /t", "write /t {}", "lock /t"]
    );
    assert_eq!(
        plan(&b, true, at(true, false, false), &vec![]),
        [
            "Would remove immutable flag from /t",
            "Would write to /t",
            "Would set immutable flag on /t",
        ]
    );
}

#[test]
fn files_and_links_are_deployed() {
    let b = built(&entry("x"));
    assert_eq!(
        plan(&b, false, at(false, false, false), &vec![]),
        ["parent /t", "unlink /t", "copy /t /o/p/x"]
    );
    assert_eq!(plan(&b, true, at(false, false, false), &vec![]), ["Would copy /o/p/x to /t"]);
    let b = built(&FileEntry { symlink: true, ..entry("x") });
    assert_eq!(
        plan(&b, false, at(true, false, false), &vec![]),
        ["parent /t", "remove /t", "link /t /real/x"]
    );
    assert_eq!(
        plan(&b, true, at(true, false, false), &vec![]),
        ["Would symlink /t -> /real/x"]
    );
    let lost = BuildResult { canonical_source: None, ..b };
    assert!(write_result(&lost, false, &at(true, false, false), &vec![]).is_none());
}

#[test]
fn test_copy_directory_with_exclude() {
    let source = files(&[("keep.txt", "/o/p/x/keep.txt"), ("skip.bak", "/o/p/x/skip.bak")]);
    let gs = build_glob_set(&strings(&["*.bak"])).unwrap();
    let merged = collect_merged_files(&source, &[], &gs);
    assert_eq!(
        plan(&built(&entry("x")), false, at(false, false, true), &merged),
        [
            "unlink /t",
            "parent /t/keep.txt",
            "unlink /t/keep.txt",
            "copy /t/keep.txt /o/p/x/keep.txt",
        ]
    );
}

#[test]
fn test_copy_directory_with_local_overlay() {
    let source = files(&[("tracked.txt", "/source/tracked.txt"), ("shared.txt", "/source/shared.txt")]);
    let local = files(&[("shared.txt", "/local/shared.txt"), ("extra.txt", "/local/extra.txt")]);
    let merged = collect_merged_files(&source, &local, &None);
    let steps = plan(&built(&entry("x")), false, at(false, false, true), &merged);
    assert!(steps.contains(&"copy /t/tracked.txt /source/tracked.txt".to_string()));
    assert!(steps.contains(&"copy /t/shared.txt /local/shared.txt".to_string()));
    assert!(steps.contains(&"copy /t/extra.txt /local/extra.txt".to_string()));
    assert_eq!(
        plan(&built(&entry("x")), true, at(false, true, true), &merged),
        [
            "Would remove symlink /t",
            "Would copy to /t/extra.txt (local)",
            "Would copy to /t/shared.txt (local)",
            "Would copy to /t/tracked.txt",
        ]
    );
}

#[test]
fn merged_files_are_in_the_order_of_paths() {
    let source = files(&[("a.txt", "1"), ("a/z", "2"), ("a", "3"), ("a-b", "4")]);
    let paths: Vec<String> =
        collect_merged_files(&source, &[], &None).into_iter().map(|m| m.rel_path).collect();
    let mut sorted: Vec<std::path::PathBuf> =
        paths.iter().map(std::path::PathBuf::from).collect();
    sorted.sort();
    assert_eq!(paths.iter().map(std::path::PathBuf::from).collect::<Vec<_>>(), sorted);
}

#[test]
fn a_link_in_the_way_is_found() {
    let (missing, link, other) = (PathKind::Missing, PathKind::Link, PathKind::Other);
    let inside = |kinds: &[PathKind]| {
        let paths = ["/home/me/a/b", "/home/me/a", "/home/me", "/home", "/"];
        link_to_remove(&way(&paths, kinds), "/home/me")
    };
    assert_eq!(inside(&[missing, link, other, other, other]), Some(1));
    assert_eq!(inside(&[link, link, other, other, other]), Some(0));
    assert_eq!(inside(&[other, link, other, other, other]), Some(1));
    assert_eq!(inside(&[other, other, link, link, other]), None);
    assert_eq!(inside(&[missing, missing, link, other, other]), None);
    let outside = |kinds: &[PathKind]| {
        link_to_remove(&way(&["/var/a/b", "/var/a", "/var", "/"], kinds), "/home/me")
    };
    assert_eq!(outside(&[missing, link, other, other]), Some(1));
    assert_eq!(outside(&[missing, other, link, other]), None);
    assert_eq!(outside(&[other, link, link, other]), None);
    assert_eq!(outside(&[missing, missing, missing, missing]), None);
    assert_eq!(link_to_remove(&[], "/home/me"), None);
}

fn way(paths: &[&str], kinds: &[PathKind]) -> Vec<WayPath> {
    paths
        .iter()
        .zip(kinds)
        .map(|(path, kind)| WayPath { path: path.to_string(), kind: *kind })
        .collect()
}

#[test]
fn bad_patterns_are_refused() {
    let message = build_glob_set(&strings(&["*.bak", "[a"])).unwrap_err().message();
    assert!(message.contains("[a"));
    let set = build_glob_set(&strings(&["*.bak"])).unwrap();
    assert!(is_excluded(&set, "a.bak"));
    assert!(!is_excluded(&set, "a.txt"));
    assert!(!is_excluded(&None, "a.bak"));
}

#[test]
fn packages_are_chosen() {
    let found = discover_packages(&[
        OrdersEntry { name: ".git".to_string(), is_dir: true, has_order: true },
        OrdersEntry { name: "file".to_string(), is_dir: false, has_order: true },
        OrdersEntry { name: "git".to_string(), is_dir: true, has_order: true },
    ]);
    assert_eq!(found, ["git"]);
    let all = strings(&["git", "zsh"]);
    let (chosen, notes) = select_packages(&all, &[]);
    assert_eq!(chosen, all);
    assert!(notes.is_empty());
    let (chosen, notes) = select_packages(&all, &strings(&["zsh", "nope"]));
    assert_eq!(chosen, ["zsh"]);
    assert_eq!(notes[0].text, "Package 'nope' not found");
}

#[test]
fn paths_are_expanded_and_joined() {
    assert_eq!(context().expand_path("~/.config/x"), "/home/me/.config/x");
    assert_eq!(context().expand_path("~"), "/home/me");
    assert_eq!(context().expand_path("~other/x"), "~other/x");
    assert_eq!(context().expand_path("/etc/x"), "/etc/x");
    assert_eq!(context().package_dir("git"), "/orders/git");
    assert_eq!(join_dir("/a/", "b"), "/a/b");
    assert_eq!(join_dir("/a", "/b"), "/b");
    assert_eq!(join_dir("", "b"), "b");
}
