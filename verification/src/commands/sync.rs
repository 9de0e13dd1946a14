//! The decisions of the sync command.
use crate::compose;
use crate::compose::merged::MergedFile;
use crate::compose::{BuildModel, BuildResult};
use crate::formats;
use crate::formats::{get_renderer, Format};
use crate::json::{Json, JsonModel};
use crate::output::{Level, LogLine};
use crate::sync::merge;
use crate::sync::merge::Decisions;
use crate::sync::{SyncAction, SyncMode};
use crate::text;
use vstd::prelude::*;
use vstd::string::*;

verus! {

// ---------------------------------------------------------------------------
// What to do with an entry
// ---------------------------------------------------------------------------

/// What is known of a built entry and its target.
#[derive(Debug, Clone, Copy)]
pub struct EntryFacts {
    /// The entry is to be linked.
    pub is_symlink: bool,
    /// The target is a link to where it should point.
    pub link_is_current: bool,
    /// Something is at the target.
    pub target_exists: bool,
    /// The target differs from what was built.
    pub has_changes: bool,
    /// The target is reached through a link that the entry does not ask for.
    pub unexpected_symlink: bool,
    /// All that differs in a directory is that files of it are links.
    pub inner_symlinks_only: bool,
    /// The entry is a plaintext copy.
    pub is_plaintext: bool,
    /// The deployed version can be pulled.
    pub can_pull: bool,
    /// The deployed file is in its format.
    pub deployed_parseable: bool,
}

/// What is done with a built entry.
#[derive(Debug, Clone, Copy, PartialEq, Eq, Structural)]
pub enum SyncStep {
    /// Make the link.
    Link,
    /// The link is there.
    Linked,
    /// Push a file that is not deployed yet.
    PushNew,
    /// Replace links by real files.
    Redeploy,
    /// Nothing differs.
    InSync,
    /// Decide key by key.
    PerKey,
    /// Decide on the whole file.
    WholeFile,
}

/// The deployed version of an entry can be pulled: rewriting is allowed, and
/// the entry allows it.
pub fn pull_allowed(no_rewrite: bool, auto_pull: bool) -> (r: bool)
    ensures
        r == (!no_rewrite && auto_pull),
{
    !no_rewrite && auto_pull
}

/// What is done with a built entry: a link is made where it is missing; a new
/// file is pushed; a target that differs only by being a link is deployed again;
/// a difference is settled key by key where a user can be asked and the keys can
/// be pulled, and for the whole file otherwise.
pub open spec fn sync_step(f: EntryFacts, mode: SyncMode, dry_run: bool) -> SyncStep {
    if f.is_symlink {
        if f.link_is_current {
            SyncStep::Linked
        } else {
            SyncStep::Link
        }
    } else if !f.target_exists {
        SyncStep::PushNew
    } else if (!f.has_changes && f.unexpected_symlink) || f.inner_symlinks_only {
        SyncStep::Redeploy
    } else if !f.has_changes {
        SyncStep::InSync
    } else if !f.is_plaintext && mode == SyncMode::Interactive && !dry_run && f.can_pull
        && f.deployed_parseable {
        SyncStep::PerKey
    } else {
        SyncStep::WholeFile
    }
}

/// Decides what is done with a built entry.
pub fn decide_step(f: &EntryFacts, mode: SyncMode, dry_run: bool) -> (r: SyncStep)
    ensures
        r == sync_step(*f, mode, dry_run),
{
    if f.is_symlink {
        if f.link_is_current {
            SyncStep::Linked
        } else {
            SyncStep::Link
        }
    } else if !f.target_exists {
        SyncStep::PushNew
    } else if (!f.has_changes && f.unexpected_symlink) || f.inner_symlinks_only {
        SyncStep::Redeploy
    } else if !f.has_changes {
        SyncStep::InSync
    } else if !f.is_plaintext && mode == SyncMode::Interactive && !dry_run && f.can_pull
        && f.deployed_parseable {
        SyncStep::PerKey
    } else {
        SyncStep::WholeFile
    }
}

/// How the action for a whole file comes about.
#[derive(Debug, Clone, Copy, PartialEq, Eq, Structural)]
pub enum Choice {
    /// The mode decides.
    Take(SyncAction),
    /// Everything is to be pulled, but this cannot be: it is skipped.
    CannotPull,
    /// A dry run: the user would be asked.
    WouldAsk,
    /// The user is asked.
    Ask,
}

/// How the action for a whole file comes about.
pub open spec fn whole_file_choice(mode: SyncMode, dry_run: bool, can_pull: bool) -> Choice {
    match mode {
        SyncMode::PushAll => Choice::Take(SyncAction::Push),
        SyncMode::PullAll => if can_pull {
            Choice::Take(SyncAction::Pull)
        } else {
            Choice::CannotPull
        },
        SyncMode::Interactive => if dry_run {
            Choice::WouldAsk
        } else {
            Choice::Ask
        },
    }
}

/// Decides how the action for a whole file comes about.
pub fn choose_action(mode: SyncMode, dry_run: bool, can_pull: bool) -> (r: Choice)
    ensures
        r == whole_file_choice(mode, dry_run, can_pull),
{
    match mode {
        SyncMode::PushAll => Choice::Take(SyncAction::Push),
        SyncMode::PullAll => if can_pull {
            Choice::Take(SyncAction::Pull)
        } else {
            Choice::CannotPull
        },
        SyncMode::Interactive => if dry_run {
            Choice::WouldAsk
        } else {
            Choice::Ask
        },
    }
}

// ---------------------------------------------------------------------------
// What happened, and what it counts
// ---------------------------------------------------------------------------

/// Something that happened to an entry.
#[derive(Debug)]
pub enum Event {
    AlreadyLinked,
    InSync,
    KeysInSync,
    LinkDone,
    LinkFailed(String),
    NewWouldPush,
    NewPushed,
    PushFailed(String),
    WouldRedeploy,
    Redeployed,
    RedeployFailed(String),
    WouldPrompt { can_pull: bool },
    CannotPull,
    Pushed,
    NotRewritable,
    Pulled,
    PullFailed(String),
    Skipped,
    Merged { keys: usize },
    MergeNotWritten(String),
    MergeNotRendered(String),
    KeysPulled,
    KeysNotRewritten,
    KeysPullFailed(String),
    Aborted,
}

/// What an event counts as.
#[derive(Debug, Clone, Copy, PartialEq, Eq, Structural)]
pub enum Tally {
    Nothing,
    Pushed,
    Pulled,
    Skipped,
    Failed,
}

/// What an event counts as.
pub open spec fn event_tally(e: Event) -> Tally {
    match e {
        Event::LinkDone => Tally::Pushed,
        Event::NewPushed => Tally::Pushed,
        Event::Redeployed => Tally::Pushed,
        Event::Pushed => Tally::Pushed,
        Event::Merged { .. } => Tally::Pushed,
        Event::Pulled => Tally::Pulled,
        Event::KeysPulled => Tally::Pulled,
        Event::Skipped => Tally::Skipped,
        Event::LinkFailed(_) => Tally::Failed,
        Event::PushFailed(_) => Tally::Failed,
        Event::RedeployFailed(_) => Tally::Failed,
        Event::PullFailed(_) => Tally::Failed,
        Event::MergeNotWritten(_) => Tally::Failed,
        Event::MergeNotRendered(_) => Tally::Failed,
        Event::KeysPullFailed(_) => Tally::Failed,
        _ => Tally::Nothing,
    }
}

/// The message about an event, where it has one. What is as it should be is
/// told in a verbose run only.
pub open spec fn event_line(
    e: Event,
    pkg: Seq<char>,
    name: Seq<char>,
    target: Seq<char>,
    verbose: bool,
) -> Option<(Level, Seq<char>)> {
    let entry = pkg + ":"@ + name;
    match e {
        Event::AlreadyLinked => if verbose {
            Some((Level::Info, entry + " already linked"@))
        } else {
            None
        },
        Event::InSync => if verbose {
            Some((Level::Info, entry + " in sync"@))
        } else {
            None
        },
        Event::KeysInSync => if verbose {
            Some((Level::Info, entry + " in sync (per-key)"@))
        } else {
            None
        },
        Event::LinkDone => Some((Level::Success, "Linked "@ + entry + " -> "@ + target)),
        Event::LinkFailed(m) => Some((Level::Error, "Failed to link "@ + entry + ": "@ + m@)),
        Event::NewWouldPush => Some(
            (
                Level::Important,
                "[dry-run] "@ + entry + " -> "@ + target + " (new file, would push)"@,
            ),
        ),
        Event::NewPushed => Some(
            (Level::Success, "Pushed "@ + entry + " -> "@ + target + " (new)"@),
        ),
        Event::PushFailed(m) => Some((Level::Error, "Failed to push "@ + entry + ": "@ + m@)),
        Event::WouldRedeploy => Some(
            (
                Level::Important,
                "[dry-run] "@ + entry
                    + " content matches but target is a symlink \u{2014} would re-deploy"@,
            ),
        ),
        Event::Redeployed => Some(
            (
                Level::Success,
                "Re-deployed "@ + entry + " (replaced symlink with real file/directory)"@,
            ),
        ),
        Event::RedeployFailed(m) => Some(
            (Level::Error, "Failed to re-deploy "@ + entry + ": "@ + m@),
        ),
        Event::WouldPrompt { can_pull } => Some(
            (
                Level::Important,
                if can_pull {
                    "[dry-run] would prompt, pullable"@
                } else {
                    "[dry-run] would prompt, manual merge needed"@
                },
            ),
        ),
        Event::CannotPull => Some(
            (
                Level::Warn,
                "Cannot auto-pull "@ + entry + " (from_config contains logic), skipping"@,
            ),
        ),
        Event::Pushed => Some((Level::Success, "Pushed "@ + entry)),
        Event::NotRewritable => Some((Level::Warn, "Cannot auto-pull (from_config has logic)"@)),
        Event::Pulled => Some((Level::Success, "Pulled "@ + entry)),
        Event::PullFailed(m) => Some((Level::Error, "Failed to pull "@ + entry + ": "@ + m@)),
        Event::Skipped => None,
        Event::Merged { keys } => Some(
            (
                Level::Success,
                "Synced "@ + entry + " ("@ + text::digits(keys as nat, 10) + " keys resolved)"@,
            ),
        ),
        Event::MergeNotWritten(m) => Some(
            (Level::Error, "Failed to write merged "@ + entry + ": "@ + m@),
        ),
        Event::MergeNotRendered(m) => Some(
            (Level::Error, "Failed to render merged "@ + entry + ": "@ + m@),
        ),
        Event::KeysPulled => None,
        Event::KeysNotRewritten => Some(
            (
                Level::Warn,
                "Some pulled keys in "@ + entry + " could not be auto-rewritten"@,
            ),
        ),
        Event::KeysPullFailed(m) => Some(
            (Level::Error, "Failed to rewrite .ncl for "@ + entry + ": "@ + m@),
        ),
        Event::Aborted => Some((Level::Info, "Sync aborted by user"@)),
    }
}

impl Event {
    /// What the event counts as.
    pub fn tally(&self) -> (r: Tally)
        ensures
            r == event_tally(*self),
    {
        match self {
            Event::LinkDone => Tally::Pushed,
            Event::NewPushed => Tally::Pushed,
            Event::Redeployed => Tally::Pushed,
            Event::Pushed => Tally::Pushed,
            Event::Merged { .. } => Tally::Pushed,
            Event::Pulled => Tally::Pulled,
            Event::KeysPulled => Tally::Pulled,
            Event::Skipped => Tally::Skipped,
            Event::LinkFailed(_) => Tally::Failed,
            Event::PushFailed(_) => Tally::Failed,
            Event::RedeployFailed(_) => Tally::Failed,
            Event::PullFailed(_) => Tally::Failed,
            Event::MergeNotWritten(_) => Tally::Failed,
            Event::MergeNotRendered(_) => Tally::Failed,
            Event::KeysPullFailed(_) => Tally::Failed,
            _ => Tally::Nothing,
        }
    }

    /// The message about the event.
    pub fn line(&self, pkg: &str, name: &str, target: &str, verbose: bool) -> (r: Option<LogLine>)
        ensures
            match r {
                Some(l) => event_line(*self, pkg@, name@, target@, verbose) == Some(l@),
                None => event_line(*self, pkg@, name@, target@, verbose) is None,
            },
    {
        let entry = text::concat3(pkg, ":", name);
        let (level, line) = match self {
            Event::AlreadyLinked => {
                if !verbose {
                    return None;
                }
                (Level::Info, text::concat2(&entry, " already linked"))
            },
            Event::InSync => {
                if !verbose {
                    return None;
                }
                (Level::Info, text::concat2(&entry, " in sync"))
            },
            Event::KeysInSync => {
                if !verbose {
                    return None;
                }
                (Level::Info, text::concat2(&entry, " in sync (per-key)"))
            },
            Event::LinkDone => (
                Level::Success,
                text::concat2(&text::concat3("Linked ", &entry, " -> "), target),
            ),
            Event::LinkFailed(m) => (Level::Error, failed("Failed to link ", &entry, m)),
            Event::NewWouldPush => (
                Level::Important,
                text::concat3(
                    &text::concat3("[dry-run] ", &entry, " -> "),
                    target,
                    " (new file, would push)",
                ),
            ),
            Event::NewPushed => (
                Level::Success,
                text::concat3(&text::concat3("Pushed ", &entry, " -> "), target, " (new)"),
            ),
            Event::PushFailed(m) => (Level::Error, failed("Failed to push ", &entry, m)),
            Event::WouldRedeploy => (
                Level::Important,
                text::concat3(
                    "[dry-run] ",
                    &entry,
                    " content matches but target is a symlink \u{2014} would re-deploy",
                ),
            ),
            Event::Redeployed => (
                Level::Success,
                text::concat3(
                    "Re-deployed ",
                    &entry,
                    " (replaced symlink with real file/directory)",
                ),
            ),
            Event::RedeployFailed(m) => (Level::Error, failed("Failed to re-deploy ", &entry, m)),
            Event::WouldPrompt { can_pull } => (
                Level::Important,
                if *can_pull {
                    text::owned("[dry-run] would prompt, pullable")
                } else {
                    text::owned("[dry-run] would prompt, manual merge needed")
                },
            ),
            Event::CannotPull => (
                Level::Warn,
                text::concat3(
                    "Cannot auto-pull ",
                    &entry,
                    " (from_config contains logic), skipping",
                ),
            ),
            Event::Pushed => (Level::Success, text::concat2("Pushed ", &entry)),
            Event::NotRewritable => (
                Level::Warn,
                text::owned("Cannot auto-pull (from_config has logic)"),
            ),
            Event::Pulled => (Level::Success, text::concat2("Pulled ", &entry)),
            Event::PullFailed(m) => (Level::Error, failed("Failed to pull ", &entry, m)),
            Event::Skipped => {
                return None;
            },
            Event::Merged { keys } => (
                Level::Success,
                text::concat3(
                    &text::concat3("Synced ", &entry, " ("),
                    &text::decimal(*keys),
                    " keys resolved)",
                ),
            ),
            Event::MergeNotWritten(m) => (
                Level::Error,
                failed("Failed to write merged ", &entry, m),
            ),
            Event::MergeNotRendered(m) => (
                Level::Error,
                failed("Failed to render merged ", &entry, m),
            ),
            Event::KeysPulled => {
                return None;
            },
            Event::KeysNotRewritten => (
                Level::Warn,
                text::concat3(
                    "Some pulled keys in ",
                    &entry,
                    " could not be auto-rewritten",
                ),
            ),
            Event::KeysPullFailed(m) => (
                Level::Error,
                failed("Failed to rewrite .ncl for ", &entry, m),
            ),
            Event::Aborted => (Level::Info, text::owned("Sync aborted by user")),
        };
        Some(LogLine::new(level, line))
    }
}

fn failed(what: &str, entry: &str, reason: &str) -> (r: String)
    ensures
        r@ == what@ + entry@ + ": "@ + reason@,
{
    text::concat2(&text::concat3(what, entry, ": "), reason)
}

// ---------------------------------------------------------------------------
// Settling keys
// ---------------------------------------------------------------------------

/// What a text holds in a format, or `null` where it cannot be read.
pub open spec fn parsed_or_null(format: Format, s: Seq<char>) -> JsonModel {
    match formats::parsed(format, s) {
        Some(v) => v,
        None => JsonModel::Null,
    }
}

/// The content of a target whose keys are settled by decisions, or why the format
/// cannot hold it.
pub fn settled_content(
    format: Format,
    content: &str,
    deployed: &str,
    decisions: &Decisions,
) -> (r: Result<String, String>)
    ensures
        formats::yields(
            r,
            formats::rendered(
                format,
                merge::merged(
                    parsed_or_null(format, content@),
                    parsed_or_null(format, deployed@),
                    decisions@,
                    seq![],
                ),
            ),
        ),
{
    let renderer = get_renderer(format);
    let repo_json = match renderer.parse(content) {
        Some(v) => v,
        None => Json::Null,
    };
    let deployed_json = match renderer.parse(deployed) {
        Some(v) => v,
        None => Json::Null,
    };
    renderer.render(&merge::build_merged_json(&repo_json, &deployed_json, decisions))
}

/// The build that writes the settled content of an entry to its target.
pub open spec fn settled_build(b: BuildModel, content: Seq<char>) -> BuildModel {
    BuildModel {
        target: b.target,
        content,
        is_plaintext: false,
        source_path: None,
        name: b.name,
        ignore_keys: b.ignore_keys,
        is_symlink: false,
        canonical_source: None,
        exclude_patterns: seq![],
        local_dir: None,
        immutable: false,
    }
}

/// The build that writes the settled content of an entry to its target, or why
/// the format cannot hold it.
pub fn settled_result(result: &BuildResult, deployed: &str, decisions: &Decisions) -> (r: Result<
    BuildResult,
    String,
>)
    ensures
        ({
            let format = formats::format_of(formats::extension(result.name@));
            let content = formats::rendered(
                format,
                merge::merged(
                    parsed_or_null(format, result.content@),
                    parsed_or_null(format, deployed@),
                    decisions@,
                    seq![],
                ),
            );
            match r {
                Ok(b) => content is Ok && b@ == settled_build(result@, content->Ok_0),
                Err(m) => content == Err::<Seq<char>, Seq<char>>(m@),
            }
        }),
{
    let format = Format::from_path(&result.name);
    match settled_content(format, &result.content, deployed, decisions) {
        Ok(content) => {
            let exclude_patterns: Vec<String> = Vec::new();
            assert(text::texts(exclude_patterns@) =~= seq![]);
            Ok(
                BuildResult {
                    target: text::owned(&result.target),
                    content,
                    is_plaintext: false,
                    source_path: None,
                    name: text::owned(&result.name),
                    ignore_keys: text::copy_texts(&result.ignore_keys),
                    is_symlink: false,
                    canonical_source: None,
                    exclude_patterns,
                    local_dir: None,
                    immutable: false,
                },
            )
        },
        Err(message) => Err(message),
    }
}

// ---------------------------------------------------------------------------
// The summary
// ---------------------------------------------------------------------------

/// How often something was counted among the first `n` tallies.
pub open spec fn counted(tallies: Seq<Tally>, t: Tally, n: nat) -> nat
    decreases n,
{
    if n == 0 || n > tallies.len() {
        0
    } else {
        counted(tallies, t, (n - 1) as nat) + if tallies[n - 1] == t {
            1nat
        } else {
            0
        }
    }
}

fn count(tallies: &[Tally], t: Tally) -> (r: usize)
    ensures
        r == counted(tallies@, t, tallies@.len()),
{
    let mut r: usize = 0;
    let mut i: usize = 0;
    while i < tallies.len()
        invariant
            i <= tallies@.len(),
            r == counted(tallies@, t, i as nat),
            r <= i,
        decreases tallies@.len() - i,
    {
        if tallies[i] == t {
            r = r + 1;
        }
        i = i + 1;
    }
    r
}

/// The line that sums a sync up.
pub open spec fn summary_text(pushed: nat, pulled: nat, skipped: nat, failed: nat) -> Seq<char> {
    "Sync complete: "@ + text::digits(pushed, 10) + " pushed, "@ + text::digits(pulled, 10)
        + " pulled, "@ + text::digits(skipped, 10) + " skipped"@ + if failed > 0 {
        " ("@ + text::digits(failed, 10) + " errors)"@
    } else {
        ""@
    }
}

/// The message that sums a sync up: what was pushed, pulled and skipped, and the
/// errors where there were any.
pub fn summary(tallies: &[Tally]) -> (r: LogLine)
    ensures
        r@ == (
            Level::Success,
            summary_text(
                counted(tallies@, Tally::Pushed, tallies@.len()),
                counted(tallies@, Tally::Pulled, tallies@.len()),
                counted(tallies@, Tally::Skipped, tallies@.len()),
                counted(tallies@, Tally::Failed, tallies@.len()),
            ),
        ),
{
    let errors = count(tallies, Tally::Failed);
    let error_note = if errors > 0 {
        text::concat3(" (", &text::decimal(errors), " errors)")
    } else {
        text::owned("")
    };
    let pushed = text::decimal(count(tallies, Tally::Pushed));
    let pulled = text::decimal(count(tallies, Tally::Pulled));
    let skipped = text::decimal(count(tallies, Tally::Skipped));
    let head = text::concat3("Sync complete: ", &pushed, " pushed, ");
    let middle = text::concat3(&head, &pulled, " pulled, ");
    let tail = text::concat3(&middle, &skipped, " skipped");
    LogLine::new(Level::Success, text::concat2(&tail, &error_note))
}

// ---------------------------------------------------------------------------
// Laws of the command
// ---------------------------------------------------------------------------

/// Without rewriting, nothing is pulled key by key, and where everything is to
/// be pulled, nothing is.
pub proof fn law_no_rewrite(f: EntryFacts, mode: SyncMode, dry_run: bool)
    requires
        !f.can_pull,
    ensures
        sync_step(f, mode, dry_run) != SyncStep::PerKey,
        whole_file_choice(mode, dry_run, f.can_pull) != Choice::Take(SyncAction::Pull),
{
}

/// Pushing everything never asks and never pulls, and nothing is pushed that is
/// in sync.
pub proof fn law_push_all(f: EntryFacts, dry_run: bool)
    ensures
        whole_file_choice(SyncMode::PushAll, dry_run, f.can_pull) == Choice::Take(
            SyncAction::Push,
        ),
        sync_step(f, SyncMode::PushAll, dry_run) != SyncStep::PerKey,
        sync_step(f, SyncMode::PushAll, dry_run) == SyncStep::WholeFile ==> f.has_changes,
{
}

/// Pulling everything never asks and never overwrites a deployed file that
/// differs: it is pulled where that is possible, and skipped otherwise.
pub proof fn law_pull_all(f: EntryFacts, dry_run: bool)
    ensures
        whole_file_choice(SyncMode::PullAll, dry_run, f.can_pull) == if f.can_pull {
            Choice::Take(SyncAction::Pull)
        } else {
            Choice::CannotPull
        },
        sync_step(f, SyncMode::PullAll, dry_run) != SyncStep::PerKey,
        !f.is_symlink && f.target_exists && f.has_changes && !f.inner_symlinks_only ==> sync_step(
            f,
            SyncMode::PullAll,
            dry_run,
        ) == SyncStep::WholeFile,
{
}

/// A file that is not deployed is pushed whatever the mode.
pub proof fn law_new_file(f: EntryFacts, mode: SyncMode, dry_run: bool)
    requires
        !f.is_symlink,
        !f.target_exists,
    ensures
        sync_step(f, mode, dry_run) == SyncStep::PushNew,
{
}

/// The summary counts every tally: as often as it was made.
pub proof fn law_counted(tallies: Seq<Tally>, t: Tally, n: nat)
    requires
        n <= tallies.len(),
    ensures
        counted(tallies, t, n) == tallies.take(n as int).to_multiset().count(t),
    decreases n,
{
    broadcast use vstd::seq_lib::group_to_multiset_ensures;

    if n > 0 {
        law_counted(tallies, t, (n - 1) as nat);
        assert(tallies.take(n as int) =~= tallies.take(n - 1).push(tallies[n - 1]));
    }
}

/// A step that touches the target: it makes a link, or writes the file, or asks
/// for a decision that may.
pub open spec fn touches(s: SyncStep) -> bool {
    s != SyncStep::Linked && s != SyncStep::InSync
}

/// A link is made exactly where one is asked for and is not there. An entry that
/// is not to be linked is left alone exactly where its target is there, does not
/// differ and is reached without a link, and so are its files. A difference is settled key by key
/// exactly where a user can be asked and the file can be pulled and read.
pub proof fn law_step_taken(f: EntryFacts, mode: SyncMode, dry_run: bool)
    ensures
        sync_step(f, mode, dry_run) == SyncStep::Link <==> f.is_symlink && !f.link_is_current,
        sync_step(f, mode, dry_run) == SyncStep::Linked <==> f.is_symlink && f.link_is_current,
        !f.is_symlink ==> (!touches(sync_step(f, mode, dry_run)) <==> f.target_exists
            && !f.has_changes && !f.unexpected_symlink && !f.inner_symlinks_only),
        sync_step(f, mode, dry_run) == SyncStep::Redeploy ==> f.target_exists && (
        f.unexpected_symlink || f.inner_symlinks_only),
        sync_step(f, mode, dry_run) == SyncStep::PerKey <==> {
            &&& !f.is_symlink && f.target_exists && f.has_changes && !f.inner_symlinks_only
            &&& mode == SyncMode::Interactive && !dry_run
            &&& f.can_pull && f.deployed_parseable && !f.is_plaintext
        },
        sync_step(f, mode, dry_run) == SyncStep::WholeFile ==> f.target_exists && f.has_changes,
{
}

/// What counts as failed is told as an error, and nothing else is; what counts as
/// pushed is told as a success, and a success counts as pushed or pulled. A file
/// that is skipped is not spoken of.
pub proof fn law_event_told(
    e: Event,
    pkg: Seq<char>,
    name: Seq<char>,
    target: Seq<char>,
    verbose: bool,
)
    ensures
        ({
            let told = event_line(e, pkg, name, target, verbose);
            let tally = event_tally(e);
            &&& tally == Tally::Failed <==> (told is Some && (told->0).0 == Level::Error)
            &&& tally == Tally::Pushed ==> told is Some && (told->0).0 == Level::Success
            &&& told is Some && (told->0).0 == Level::Success ==> tally == Tally::Pushed || tally
                == Tally::Pulled
            &&& tally == Tally::Skipped ==> told is None
        }),
{
}

/// The summary speaks of errors exactly where something failed.
pub proof fn law_summary(pushed: nat, pulled: nat, skipped: nat, failed: nat)
    ensures
        text::ends(summary_text(pushed, pulled, skipped, failed), " errors)"@) <==> failed > 0,
        text::begins(
            summary_text(pushed, pulled, skipped, failed),
            "Sync complete: "@ + text::digits(pushed, 10) + " pushed, "@,
        ),
{
    let s = summary_text(pushed, pulled, skipped, failed);
    let head = "Sync complete: "@ + text::digits(pushed, 10) + " pushed, "@;
    assert(s.take(head.len() as int) =~= head);
    reveal_strlit(" errors)");
    reveal_strlit(" skipped");
    reveal_strlit("");
    let tail = " errors)"@;
    if failed > 0 {
        assert(s.skip(s.len() - tail.len()) =~= tail);
    } else {
        assert(s.last() == " skipped"@.last());
        if text::ends(s, tail) {
            assert(s.skip(s.len() - tail.len()).last() == s.last());
        }
    }
}

/// What is settled for the keys of an entry is written, as text, to the target of
/// the entry, and nothing else is brought anywhere.
pub proof fn law_settled_written(
    b: BuildModel,
    content: Seq<char>,
    facts: compose::write::TargetFacts,
    files: Seq<MergedFile>,
)
    ensures
        compose::write::write_steps(settled_build(b, content), false, facts, files) is Some,
        compose::write::all_brought(
            compose::write::write_steps(settled_build(b, content), false, facts, files)->0,
        ) == seq![(b.target, compose::write::Brought::Text(content))],
{
    compose::write::law_deployed(settled_build(b, content), facts, files);
}

} // verus!
