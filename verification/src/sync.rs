//! Bringing generated and deployed configuration together.
use crate::context;
use crate::diff::semantic::KeyChange;
use crate::diff::DiffResult;
use crate::output;
use crate::output::{Level, LogLine, Tone};
use crate::text;
use vstd::prelude::*;
use vstd::string::*;

pub mod edits;
pub mod keys;
pub mod merge;
pub mod overlay;
pub mod pull;
pub mod pull_files;
pub mod pulled;

verus! {

/// Action to take for a file during bidirectional sync.
#[derive(Debug, Clone, Copy, PartialEq, Eq, Structural)]
pub enum SyncAction {
    /// Push the repo version to the target.
    Push,
    /// Pull the deployed version back into the repo.
    Pull,
    /// Leave both unchanged.
    Skip,
    /// Quit the sync process entirely.
    Quit,
}

/// Resolution strategy for sync conflicts.
#[derive(Debug, Clone, Copy, PartialEq, Eq, Structural)]
pub enum SyncMode {
    /// Ask for each conflict.
    Interactive,
    /// Push everything.
    PushAll,
    /// Pull everything.
    PullAll,
}

/// Action for one key of a `from_config` entry.
#[derive(Debug, Clone, Copy, PartialEq, Eq, Structural)]
pub enum KeyAction {
    /// The repo's value wins.
    Push,
    /// The deployed value wins.
    Pull,
    /// Leave the key unchanged.
    Skip,
    /// Push this key and all remaining ones of the entry.
    AllPush,
    /// Pull this key and all remaining ones of the entry.
    AllPull,
    /// Quit the sync process entirely.
    Quit,
}

/// Interactive prompts.
pub trait Prompter {
    /// Asks what to do with a conflicting file. `can_pull` is false where the
    /// deployed version cannot be pulled.
    fn ask_sync_action(
        &self,
        pkg: &str,
        name: &str,
        target: &str,
        diff: &DiffResult,
        can_pull: bool,
    ) -> SyncAction;

    /// Asks what to do with a single key change within a `from_config` entry.
    fn ask_key_action(&self, pkg: &str, name: &str, change: &KeyChange) -> KeyAction;
}

// ---------------------------------------------------------------------------
// Answers typed by the user
// ---------------------------------------------------------------------------

/// What `str::to_lowercase` gives for a text.
pub uninterp spec fn lowercase(text: Seq<char>) -> Seq<char>;

/// `str::to_lowercase` gives the lowercase equivalent of a text.
#[verifier::external_body]
fn to_lower(s: &str) -> (r: String)
    ensures
        r@ == lowercase(s@),
{
    s.to_lowercase()
}

/// What a word answers to the question about a file, with the messages that it
/// brings. An unknown word, or a pull that is not possible, skips the file.
pub open spec fn sync_answer(word: Seq<char>, can_pull: bool) -> (
    SyncAction,
    Seq<(Level, Seq<char>)>,
) {
    if word == "p"@ || word == "push"@ {
        (SyncAction::Push, seq![])
    } else if word == "u"@ || word == "pull"@ {
        if can_pull {
            (SyncAction::Pull, seq![])
        } else {
            (
                SyncAction::Skip,
                seq![
                    (Level::Warn, "Cannot auto-pull this entry (from_config contains logic)"@),
                    (Level::Info, "Update order.ncl manually using the diff shown above"@),
                ],
            )
        }
    } else if word == "s"@ || word == "skip"@ || word == ""@ {
        (SyncAction::Skip, seq![])
    } else if word == "q"@ || word == "quit"@ {
        (SyncAction::Quit, seq![])
    } else {
        (SyncAction::Skip, seq![(Level::Warn, "Invalid choice, skipping"@)])
    }
}

/// What a word answers to the question about a key.
pub open spec fn key_answer(word: Seq<char>) -> (KeyAction, Seq<(Level, Seq<char>)>) {
    if word == "p"@ || word == "push"@ {
        (KeyAction::Push, seq![])
    } else if word == "u"@ || word == "pull"@ {
        (KeyAction::Pull, seq![])
    } else if word == "s"@ || word == "skip"@ || word == ""@ {
        (KeyAction::Skip, seq![])
    } else if word == "a"@ || word == "all-push"@ {
        (KeyAction::AllPush, seq![])
    } else if word == "l"@ || word == "all-pull"@ {
        (KeyAction::AllPull, seq![])
    } else if word == "q"@ || word == "quit"@ {
        (KeyAction::Quit, seq![])
    } else {
        (KeyAction::Skip, seq![(Level::Warn, "Invalid choice, skipping"@)])
    }
}

/// What a word answers to the question about a file.
pub fn read_sync_word(word: &str, can_pull: bool) -> (r: (SyncAction, Vec<LogLine>))
    ensures
        (r.0, output::log_model(r.1@)) == sync_answer(word@, can_pull),
{
    let mut notes: Vec<LogLine> = Vec::new();
    let action = if text::str_eq(word, "p") || text::str_eq(word, "push") {
        SyncAction::Push
    } else if text::str_eq(word, "u") || text::str_eq(word, "pull") {
        if can_pull {
            SyncAction::Pull
        } else {
            notes.push(
                LogLine::new(
                    Level::Warn,
                    text::owned("Cannot auto-pull this entry (from_config contains logic)"),
                ),
            );
            notes.push(
                LogLine::new(
                    Level::Info,
                    text::owned("Update order.ncl manually using the diff shown above"),
                ),
            );
            SyncAction::Skip
        }
    } else if text::str_eq(word, "s") || text::str_eq(word, "skip") || text::str_eq(word, "") {
        SyncAction::Skip
    } else if text::str_eq(word, "q") || text::str_eq(word, "quit") {
        SyncAction::Quit
    } else {
        notes.push(LogLine::new(Level::Warn, text::owned("Invalid choice, skipping")));
        SyncAction::Skip
    };
    assert(output::log_model(notes@) =~= sync_answer(word@, can_pull).1);
    (action, notes)
}

/// What a word answers to the question about a key.
pub fn read_key_word(word: &str) -> (r: (KeyAction, Vec<LogLine>))
    ensures
        (r.0, output::log_model(r.1@)) == key_answer(word@),
{
    let mut notes: Vec<LogLine> = Vec::new();
    let action = if text::str_eq(word, "p") || text::str_eq(word, "push") {
        KeyAction::Push
    } else if text::str_eq(word, "u") || text::str_eq(word, "pull") {
        KeyAction::Pull
    } else if text::str_eq(word, "s") || text::str_eq(word, "skip") || text::str_eq(word, "") {
        KeyAction::Skip
    } else if text::str_eq(word, "a") || text::str_eq(word, "all-push") {
        KeyAction::AllPush
    } else if text::str_eq(word, "l") || text::str_eq(word, "all-pull") {
        KeyAction::AllPull
    } else if text::str_eq(word, "q") || text::str_eq(word, "quit") {
        KeyAction::Quit
    } else {
        notes.push(LogLine::new(Level::Warn, text::owned("Invalid choice, skipping")));
        KeyAction::Skip
    };
    assert(output::log_model(notes@) =~= key_answer(word@).1);
    (action, notes)
}

/// What a typed line answers to the question about a file: the line counts
/// without surrounding white space and in lower case.
pub fn read_sync_answer(input: &str, can_pull: bool) -> (r: (SyncAction, Vec<LogLine>))
    ensures
        (r.0, output::log_model(r.1@)) == sync_answer(lowercase(text::trimmed(input@)), can_pull),
{
    read_sync_word(&to_lower(&text::trim(input)), can_pull)
}

/// What a typed line answers to the question about a key.
pub fn read_key_answer(input: &str) -> (r: (KeyAction, Vec<LogLine>))
    ensures
        (r.0, output::log_model(r.1@)) == key_answer(lowercase(text::trimmed(input@))),
{
    read_key_word(&to_lower(&text::trim(input)))
}

/// The question about a file; it offers a pull where one is possible.
pub fn sync_prompt(can_pull: bool, styled: bool) -> (r: String)
    ensures
        r@ == "  "@ + output::painted(
            if can_pull {
                "[p]ush  p[u]ll  [s]kip  [q]uit:"@
            } else {
                "[p]ush  [s]kip  [q]uit:"@
            },
            Tone::Bold,
            styled,
        ) + " "@,
{
    let question = if can_pull {
        "[p]ush  p[u]ll  [s]kip  [q]uit:"
    } else {
        "[p]ush  [s]kip  [q]uit:"
    };
    text::concat3("  ", &output::paint(question, Tone::Bold, styled), " ")
}

/// The question about a key.
pub fn key_prompt(styled: bool) -> (r: String)
    ensures
        r@ == "    "@ + output::painted(
            "[p]ush  p[u]ll  [s]kip  [a]ll-push  a[l]l-pull  [q]uit:"@,
            Tone::Bold,
            styled,
        ) + " "@,
{
    let question = "[p]ush  p[u]ll  [s]kip  [a]ll-push  a[l]l-pull  [q]uit:";
    text::concat3("    ", &output::paint(question, Tone::Bold, styled), " ")
}

// ---------------------------------------------------------------------------
// Showing a conflict
// ---------------------------------------------------------------------------

/// A path in the home directory with that directory shown as `~`.
pub open spec fn shortened(path: Seq<char>, home: Seq<char>) -> Seq<char> {
    if context::lies_in(path, home) {
        "~"@ + path.skip(context::bare_dir(home).len() as int)
    } else {
        path
    }
}

/// Shortens a path by replacing the home directory with `~`.
pub fn shorten_path(path: &str, home_dir: &str) -> (r: String)
    ensures
        r@ == shortened(path@, home_dir@),
{
    if context::is_in(path, home_dir) {
        let x = text::chars_of(path);
        let home = context::strip_separators(home_dir);
        let n: usize = text::chars_of(&home).len();
        let rest = text::string_of(&x, n, x.len());
        assert(rest@ =~= path@.skip(home@.len() as int));
        text::concat2("~", &rest)
    } else {
        text::owned(path)
    }
}

/// The line that announces a file entry.
pub open spec fn conflict_header(
    pkg: Seq<char>,
    name: Seq<char>,
    target: Seq<char>,
    home: Seq<char>,
    styled: bool,
) -> Seq<char> {
    "\n  "@ + output::painted(pkg, Tone::Cyan, styled) + ":"@ + name + " ("@ + shortened(
        target,
        home,
    ) + ")"@
}

/// The line that announces a file entry.
pub fn conflict_heading(pkg: &str, name: &str, target: &str, home_dir: &str, styled: bool) -> (r:
    String)
    ensures
        r@ == conflict_header(pkg@, name@, target@, home_dir@, styled),
{
    let head = text::concat3("\n  ", &output::paint(pkg, Tone::Cyan, styled), ":");
    let named = text::concat3(&head, name, " (");
    text::concat3(&named, &shorten_path(target, home_dir), ")")
}

/// The lines that show a conflict: the announcement, then the difference,
/// indented.
pub open spec fn conflict_lines(
    pkg: Seq<char>,
    name: Seq<char>,
    target: Seq<char>,
    diff: Seq<char>,
    home: Seq<char>,
    styled: bool,
) -> Seq<Seq<char>> {
    seq![conflict_header(pkg, name, target, home, styled)] + text::lines(diff).map_values(
        |line: Seq<char>| "    "@ + line,
    )
}

/// The lines that show a conflict.
pub fn display_conflict(
    pkg: &str,
    name: &str,
    target: &str,
    diff: &DiffResult,
    home_dir: &str,
    styled: bool,
) -> (r: Vec<String>)
    ensures
        text::texts(r@) == conflict_lines(
            pkg@,
            name@,
            target@,
            diff.output@,
            home_dir@,
            styled,
        ),
{
    let lines = text::lines_of(&diff.output);
    let ghost m = text::lines(diff.output@);
    let ghost shown = conflict_lines(pkg@, name@, target@, diff.output@, home_dir@, styled);
    let mut r: Vec<String> = Vec::new();
    r.push(conflict_heading(pkg, name, target, home_dir, styled));
    assert(text::texts(r@) =~= shown.take(1));
    let mut i: usize = 0;
    while i < lines.len()
        invariant
            i <= lines@.len(),
            m == text::texts(lines@),
            shown.len() == m.len() + 1,
            forall|k: int| 0 <= k < m.len() ==> #[trigger] shown[k + 1] == "    "@ + m[k],
            text::texts(r@) == shown.take(i + 1),
        decreases lines@.len() - i,
    {
        assert(m[i as int] == lines@[i as int]@);
        let line = text::concat2("    ", &lines[i]);
        assert(shown[i + 1] == line@);
        proof {
            text::lemma_texts_push(r@, line);
        }
        r.push(line);
        i = i + 1;
        assert(text::texts(r@) =~= shown.take(i + 1));
    }
    assert(shown.take(i + 1) =~= shown);
    r
}

// ---------------------------------------------------------------------------
// Laws
// ---------------------------------------------------------------------------

/// The word that an action on a file goes by, short or long.
pub open spec fn sync_word(word: Seq<char>, action: SyncAction) -> bool {
    match action {
        SyncAction::Push => word == "p"@ || word == "push"@,
        SyncAction::Pull => word == "u"@ || word == "pull"@,
        SyncAction::Skip => word == "s"@ || word == "skip"@,
        SyncAction::Quit => word == "q"@ || word == "quit"@,
    }
}

/// The word that an action on a key goes by, short or long.
pub open spec fn key_word(word: Seq<char>, action: KeyAction) -> bool {
    match action {
        KeyAction::Push => sync_word(word, SyncAction::Push),
        KeyAction::Pull => sync_word(word, SyncAction::Pull),
        KeyAction::Skip => sync_word(word, SyncAction::Skip),
        KeyAction::AllPush => word == "a"@ || word == "all-push"@,
        KeyAction::AllPull => word == "l"@ || word == "all-pull"@,
        KeyAction::Quit => sync_word(word, SyncAction::Quit),
    }
}

proof fn lemma_words_apart()
    ensures
        "p"@ != "u"@ && "p"@ != "pull"@ && "p"@ != "s"@ && "p"@ != "skip"@ && "p"@ != "q"@,
        "p"@ != "quit"@ && "p"@ != "a"@ && "p"@ != "all-push"@ && "p"@ != "l"@ && "p"@
            != "all-pull"@,
        "push"@ != "u"@ && "push"@ != "pull"@ && "push"@ != "s"@ && "push"@ != "skip"@ && "push"@
            != "q"@,
        "push"@ != "quit"@ && "push"@ != "a"@ && "push"@ != "all-push"@ && "push"@ != "l"@
            && "push"@ != "all-pull"@,
        "u"@ != "s"@ && "u"@ != "skip"@ && "u"@ != "q"@ && "u"@ != "quit"@ && "u"@ != "a"@,
        "u"@ != "all-push"@ && "u"@ != "l"@ && "u"@ != "all-pull"@,
        "pull"@ != "s"@ && "pull"@ != "skip"@ && "pull"@ != "q"@ && "pull"@ != "quit"@ && "pull"@
            != "a"@,
        "pull"@ != "all-push"@ && "pull"@ != "l"@ && "pull"@ != "all-pull"@,
        "s"@ != "q"@ && "s"@ != "quit"@ && "s"@ != "a"@ && "s"@ != "all-push"@ && "s"@ != "l"@,
        "s"@ != "all-pull"@,
        "skip"@ != "q"@ && "skip"@ != "quit"@ && "skip"@ != "a"@ && "skip"@ != "all-push"@
            && "skip"@ != "l"@ && "skip"@ != "all-pull"@,
        "q"@ != "a"@ && "q"@ != "all-push"@ && "q"@ != "l"@ && "q"@ != "all-pull"@,
        "quit"@ != "a"@ && "quit"@ != "all-push"@ && "quit"@ != "l"@ && "quit"@ != "all-pull"@,
        "a"@ != "l"@ && "a"@ != "all-pull"@ && "all-push"@ != "l"@ && "all-push"@ != "all-pull"@,
        ""@.len() == 0,
        "p"@.len() > 0 && "push"@.len() > 0 && "u"@.len() > 0 && "pull"@.len() > 0,
        "q"@.len() > 0 && "quit"@.len() > 0 && "a"@.len() > 0 && "all-push"@.len() > 0,
        "l"@.len() > 0 && "all-pull"@.len() > 0 && "s"@.len() > 0 && "skip"@.len() > 0,
{
    reveal_strlit("p");
    reveal_strlit("push");
    reveal_strlit("u");
    reveal_strlit("pull");
    reveal_strlit("s");
    reveal_strlit("skip");
    reveal_strlit("q");
    reveal_strlit("quit");
    reveal_strlit("a");
    reveal_strlit("all-push");
    reveal_strlit("l");
    reveal_strlit("all-pull");
    reveal_strlit("");
    assert("p"@.len() == 1 && "u"@.len() == 1 && "s"@.len() == 1 && "q"@.len() == 1);
    assert("a"@.len() == 1 && "l"@.len() == 1 && "push"@.len() == 4 && "pull"@.len() == 4);
    assert("skip"@.len() == 4 && "quit"@.len() == 4 && "all-push"@.len() == 8);
    assert("all-pull"@.len() == 8);
    assert("p"@[0] == 'p' && "u"@[0] == 'u' && "s"@[0] == 's' && "q"@[0] == 'q');
    assert("a"@[0] == 'a' && "l"@[0] == 'l');
    assert("push"@[1] == 'u' && "pull"@[1] == 'u' && "push"@[2] == 's' && "pull"@[2] == 'l');
    assert("skip"@[0] == 's' && "quit"@[0] == 'q' && "push"@[0] == 'p' && "pull"@[0] == 'p');
    assert("all-push"@[6] == 's' && "all-pull"@[6] == 'l');
}

/// A file is pushed, pulled or the sync quit exactly where a word for it is typed,
/// and a pull where one is possible too. Every other word skips the file, and one
/// that is no word for anything is told to be so.
pub proof fn law_sync_words(word: Seq<char>, can_pull: bool)
    ensures
        sync_answer(word, can_pull).0 == SyncAction::Push <==> sync_word(word, SyncAction::Push),
        sync_answer(word, can_pull).0 == SyncAction::Pull <==> sync_word(word, SyncAction::Pull)
            && can_pull,
        sync_answer(word, can_pull).0 == SyncAction::Quit <==> sync_word(word, SyncAction::Quit),
        sync_answer(word, can_pull).1.len() == 0 <==> {
            ||| word.len() == 0
            ||| sync_word(word, SyncAction::Push)
            ||| sync_word(word, SyncAction::Pull) && can_pull
            ||| sync_word(word, SyncAction::Skip)
            ||| sync_word(word, SyncAction::Quit)
        },
{
    lemma_words_apart();
    if word.len() == 0 {
        assert(word =~= ""@);
    }
}

/// A key is answered by a word for an action exactly as the word says, and by
/// every other word it is skipped. One that is no word for anything is told to be
/// so.
pub proof fn law_key_words(word: Seq<char>, action: KeyAction)
    ensures
        action != KeyAction::Skip ==> (key_answer(word).0 == action <==> key_word(word, action)),
        key_answer(word).1.len() == 0 <==> {
            ||| word.len() == 0
            ||| key_word(word, KeyAction::Push)
            ||| key_word(word, KeyAction::Pull)
            ||| key_word(word, KeyAction::Skip)
            ||| key_word(word, KeyAction::AllPush)
            ||| key_word(word, KeyAction::AllPull)
            ||| key_word(word, KeyAction::Quit)
        },
{
    lemma_words_apart();
    if word.len() == 0 {
        assert(word =~= ""@);
    }
}

/// A path that is shown with `~` for the home directory is the path that it stands
/// for: expanding it gives the path back.
pub proof fn law_shortened(path: Seq<char>, home: Seq<char>)
    requires
        home.len() == 0 || home.last() != '/',
        path.len() == 0 || path[0] != '~' || context::lies_in(path, home),
    ensures
        context::expanded(shortened(path, home), home) == path,
        context::lies_in(path, home) ==> text::begins(shortened(path, home), "~"@),
        !context::lies_in(path, home) ==> shortened(path, home) == path,
{
    reveal_strlit("~");
    reveal_strlit("/");
    assert(context::bare_dir(home) == home);
    if context::lies_in(path, home) {
        let rest = path.skip(home.len() as int);
        let short = "~"@ + rest;
        assert(short.take(1) =~= "~"@);
        if path == home {
            assert(short =~= "~"@);
            context::law_expanded(home, rest);
        } else {
            let dir = home + "/"@;
            assert(path.take(dir.len() as int) == dir);
            assert(path[home.len() as int] == dir[home.len() as int]);
            let below = path.skip(dir.len() as int);
            reveal_strlit("~/");
            assert(short =~= "~/"@ + below);
            context::law_expanded(home, below);
            assert(home + "/"@ + below =~= path);
        }
    } else {
        context::law_expanded(home, path);
    }
}

/// A conflict is shown by a line that names the entry and its target, and one line
/// for each line of the difference, indented and in their order.
pub proof fn law_conflict_shown(
    pkg: Seq<char>,
    name: Seq<char>,
    target: Seq<char>,
    diff: Seq<char>,
    home: Seq<char>,
    i: int,
)
    requires
        0 <= i < text::lines(diff).len(),
    ensures
        ({
            let shown = conflict_lines(pkg, name, target, diff, home, false);
            &&& shown.len() == text::lines(diff).len() + 1
            &&& shown[i + 1] == "    "@ + text::lines(diff)[i]
            &&& text::begins(shown[0], "\n  "@ + pkg + ":"@ + name)
            &&& text::ends(shown[0], "("@ + shortened(target, home) + ")"@)
        }),
{
    let head = "\n  "@ + pkg + ":"@ + name;
    let tail = "("@ + shortened(target, home) + ")"@;
    let line = conflict_header(pkg, name, target, home, false);
    assert(line.take(head.len() as int) =~= head);
    reveal_strlit(" (");
    reveal_strlit("(");
    assert(line.skip(line.len() - tail.len()) =~= tail);
}

} // verus!
