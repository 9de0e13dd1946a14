//! What the view command shows.
use crate::commands::helpers;
use crate::commands::helpers::{compute_diff_for_result, DiffFacts, DirFile, FileState};
use crate::compose::{BuildModel, BuildResult};
use crate::output;
use crate::output::Tone;
use crate::sync;
use crate::sync::shorten_path;
use crate::text;
use vstd::prelude::*;
use vstd::string::*;

verus! {

/// What is to be shown.
#[derive(Debug, Clone, Copy)]
pub struct ViewFlags {
    pub content: bool,
    pub diff: bool,
    /// What is up to date is left out.
    pub short: bool,
    pub styled: bool,
}

/// What is to be shown for the flags of the command.
pub fn view_flags(content_only: bool, all: bool, short: bool, styled: bool) -> (r: ViewFlags)
    ensures
        r.content == (content_only || all),
        r.diff == !content_only,
        r.short == short,
        r.styled == styled,
{
    ViewFlags { content: content_only || all, diff: !content_only, short, styled }
}

/// Where a target that should be a link points.
#[derive(Debug, Clone, Copy, PartialEq, Eq, Structural)]
pub enum LinkState {
    Current,
    Elsewhere,
    NotLinked,
}

/// Where a target points, given what its link holds, where it is one, and the
/// source that it should hold.
pub fn link_state(existing: Option<&str>, canonical: Option<&str>) -> (r: LinkState)
    ensures
        r == (match (existing, canonical) {
            (None, _) => LinkState::NotLinked,
            (Some(e), Some(c)) => if e@ == c@ {
                LinkState::Current
            } else {
                LinkState::Elsewhere
            },
            (Some(_), None) => LinkState::Elsewhere,
        }),
{
    match (existing, canonical) {
        (None, _) => LinkState::NotLinked,
        (Some(e), Some(c)) => if text::str_eq(e, c) {
            LinkState::Current
        } else {
            LinkState::Elsewhere
        },
        (Some(_), None) => LinkState::Elsewhere,
    }
}

/// The lines of an entry, and whether it has something to deploy.
pub type Shown = (Seq<Seq<char>>, bool);

/// The line that names an entry and its target.
pub open spec fn entry_header(b: BuildModel, home: Seq<char>) -> Seq<char> {
    "  "@ + b.name + " -> "@ + sync::shortened(b.target, home)
}

/// A line with annotations behind it.
pub open spec fn annotated(header: Seq<char>, notes: Seq<Seq<char>>) -> Seq<char> {
    if notes.len() == 0 {
        header
    } else {
        header + " "@ + text::joined(notes, " "@)
    }
}

/// Lines below an entry.
pub open spec fn indented(lines: Seq<Seq<char>>) -> Seq<Seq<char>> {
    lines.map_values(|l: Seq<char>| "    "@ + l)
}

/// The annotation of a target that is reached through a link.
pub open spec fn link_notes(unexpected: bool, styled: bool) -> Seq<Seq<char>> {
    if unexpected {
        seq![output::painted("(symlinked, needs re-deploy)"@, Tone::Yellow, styled)]
    } else {
        seq![]
    }
}

/// The line of an entry that is linked; it is left out of a short view where the
/// link is current.
pub open spec fn shown_link(b: BuildModel, home: Seq<char>, link: LinkState, v: ViewFlags) -> Shown {
    if b.canonical_source is None || (v.short && link == LinkState::Current) {
        (seq![], false)
    } else {
        let state = match link {
            LinkState::Current => output::painted("(linked)"@, Tone::Green, v.styled),
            LinkState::Elsewhere => output::painted("(wrong target)"@, Tone::Yellow, v.styled),
            LinkState::NotLinked => output::painted("(not linked)"@, Tone::Yellow, v.styled),
        };
        (
            seq![
                annotated(
                    entry_header(b, home),
                    seq![output::painted("(symlink)"@, Tone::Dim, v.styled), state],
                ),
            ],
            false,
        )
    }
}

/// The annotation that says what a plaintext entry is; it goes with its content.
pub open spec fn kind_notes(directory: bool, v: ViewFlags) -> Seq<Seq<char>> {
    if v.content {
        seq![
            output::painted(
                if directory {
                    "(plaintext directory)"@
                } else {
                    "(plaintext file)"@
                },
                Tone::Dim,
                v.styled,
            ),
        ]
    } else {
        seq![]
    }
}

/// The lines of a plaintext file.
pub open spec fn shown_file(
    b: BuildModel,
    home: Seq<char>,
    facts: DiffFacts,
    unexpected: bool,
    v: ViewFlags,
) -> Shown {
    let header = entry_header(b, home);
    let kind = kind_notes(false, v);
    let changes = helpers::result_lines(b, facts, v.styled);
    if !v.diff {
        (seq![annotated(header, kind)], false)
    } else if changes.len() > 0 {
        (
            seq![annotated(header, link_notes(unexpected, v.styled))] + indented(
                text::lines(text::joined(changes, "\n"@)),
            ),
            true,
        )
    } else if !facts.target_exists {
        (
            seq![
                annotated(
                    header,
                    kind.push(output::painted("(not deployed)"@, Tone::Yellow, v.styled)),
                ),
            ],
            true,
        )
    } else if unexpected {
        (seq![annotated(header, kind + link_notes(true, v.styled))], true)
    } else if v.short {
        (seq![], false)
    } else {
        (
            seq![
                annotated(
                    header,
                    kind.push(output::painted("(no changes)"@, Tone::Dim, v.styled)),
                ),
            ],
            false,
        )
    }
}

/// The line of a file of a directory.
pub open spec fn member_line(f: DirFile, styled: bool) -> Seq<char> {
    "    "@ + f.rel_path@ + " "@ + (match f.state {
        FileState::Same => if f.is_symlink {
            output::painted("(unexpected symlink)"@, Tone::Yellow, styled)
        } else {
            output::painted("(no changes)"@, Tone::Dim, styled)
        },
        FileState::Modified => output::painted("(modified)"@, Tone::Yellow, styled),
        FileState::Missing => output::painted("(not deployed)"@, Tone::Yellow, styled),
    }) + (if f.is_symlink && f.state != FileState::Same {
        " "@ + output::painted("(unexpected symlink)"@, Tone::Yellow, styled)
    } else {
        seq![]
    })
}

/// A file of a directory is up to date.
pub open spec fn member_current(f: DirFile) -> bool {
    f.state == FileState::Same && !f.is_symlink
}

/// The lines of the first `n` files of a directory.
pub open spec fn member_lines(files: Seq<DirFile>, v: ViewFlags, n: nat) -> Seq<Seq<char>>
    decreases n,
{
    if n == 0 || n > files.len() {
        seq![]
    } else {
        let before = member_lines(files, v, (n - 1) as nat);
        if v.short && member_current(files[n - 1]) {
            before
        } else {
            before.push(member_line(files[n - 1], v.styled))
        }
    }
}

/// Every file of a directory is up to date.
pub open spec fn all_current(files: Seq<DirFile>) -> bool {
    forall|i: int| 0 <= i < files.len() ==> member_current(#[trigger] files[i])
}

/// The lines of a plaintext directory.
pub open spec fn shown_directory(
    b: BuildModel,
    home: Seq<char>,
    files: Seq<DirFile>,
    unexpected: bool,
    v: ViewFlags,
) -> Shown {
    let header = entry_header(b, home);
    let kind = kind_notes(true, v);
    let changed = unexpected || !all_current(files);
    if !v.diff {
        (seq![annotated(header, kind)], false)
    } else if v.short && !changed {
        (seq![], false)
    } else {
        (
            seq![
                annotated(
                    header,
                    kind.push(output::painted("(directory)"@, Tone::Dim, v.styled)) + link_notes(
                        unexpected,
                        v.styled,
                    ),
                ),
            ] + member_lines(files, v, files.len()),
            changed,
        )
    }
}

/// The lines of rendered content.
pub open spec fn content_lines(b: BuildModel, styled: bool) -> Seq<Seq<char>> {
    text::lines(b.content).map_values(|l: Seq<char>| output::painted(l, Tone::Dim, styled))
}

/// The lines of rendered configuration.
pub open spec fn shown_config(
    b: BuildModel,
    home: Seq<char>,
    facts: DiffFacts,
    unexpected: bool,
    v: ViewFlags,
) -> Shown {
    let header = entry_header(b, home);
    let changes = helpers::result_lines(b, facts, v.styled);
    let differs = v.diff && changes.len() > 0;
    let missing = v.diff && !facts.target_exists;
    if differs || v.content {
        (
            seq![
                annotated(
                    header,
                    if missing {
                        seq![output::painted("(not deployed)"@, Tone::Yellow, v.styled)]
                    } else {
                        link_notes(v.diff && unexpected, v.styled)
                    },
                ),
            ] + (if v.content {
                indented(content_lines(b, v.styled))
            } else {
                seq![]
            }) + (if differs {
                indented(text::lines(text::joined(changes, "\n"@)))
            } else {
                seq![]
            }),
            missing || differs || (v.diff && unexpected),
        )
    } else if unexpected {
        (seq![annotated(header, link_notes(true, v.styled))], true)
    } else if v.short {
        (seq![], false)
    } else {
        (
            seq![
                annotated(
                    header,
                    seq![output::painted("(no changes)"@, Tone::Dim, v.styled)],
                ),
            ],
            false,
        )
    }
}

/// What is shown of an entry.
pub open spec fn shown_entry(
    b: BuildModel,
    home: Seq<char>,
    facts: DiffFacts,
    link: LinkState,
    unexpected: bool,
    v: ViewFlags,
) -> Shown {
    if b.is_symlink {
        shown_link(b, home, link, v)
    } else if b.is_plaintext {
        match (b.source_path, facts.files) {
            (None, _) => (seq![], false),
            (Some(_), Some(files)) => shown_directory(b, home, files@, unexpected, v),
            (Some(_), None) => shown_file(b, home, facts, unexpected, v),
        }
    } else {
        shown_config(b, home, facts, unexpected, v)
    }
}

// ---------------------------------------------------------------------------
// Showing
// ---------------------------------------------------------------------------

fn header_of(result: &BuildResult, home: &str) -> (r: String)
    ensures
        r@ == entry_header(result@, home@),
{
    let head = text::concat3("  ", &result.name, " -> ");
    text::concat2(&head, &shorten_path(&result.target, home))
}

fn annotate(header: &str, notes: &Vec<String>) -> (r: String)
    ensures
        r@ == annotated(header@, text::texts(notes@)),
{
    if notes.len() == 0 {
        text::owned(header)
    } else {
        text::concat3(header, " ", &text::join(notes, " "))
    }
}

/// Appends a text.
fn add_text(list: &mut Vec<String>, t: String)
    ensures
        text::texts(final(list)@) == text::texts(old(list)@).push(t@),
{
    proof {
        text::lemma_texts_push(list@, t);
    }
    list.push(t);
}

fn no_texts() -> (r: Vec<String>)
    ensures
        text::texts(r@) == Seq::<Seq<char>>::empty(),
        r@.len() == 0,
{
    let r: Vec<String> = Vec::new();
    assert(text::texts(r@) =~= seq![]);
    r
}

fn add_link_notes(notes: &mut Vec<String>, unexpected: bool, styled: bool)
    ensures
        text::texts(final(notes)@) == text::texts(old(notes)@) + link_notes(unexpected, styled),
{
    let ghost before = text::texts(notes@);
    if unexpected {
        add_text(notes, output::paint("(symlinked, needs re-deploy)", Tone::Yellow, styled));
    }
    assert(text::texts(notes@) =~= before + link_notes(unexpected, styled));
}

fn kind_texts(directory: bool, v: &ViewFlags) -> (r: Vec<String>)
    ensures
        text::texts(r@) == kind_notes(directory, *v),
{
    let mut r = no_texts();
    if v.content {
        let kind = if directory {
            "(plaintext directory)"
        } else {
            "(plaintext file)"
        };
        add_text(&mut r, output::paint(kind, Tone::Dim, v.styled));
    }
    assert(text::texts(r@) =~= kind_notes(directory, *v));
    r
}

/// Appends the lines of a text, indented, in dim where that is asked for.
fn add_indented(list: &mut Vec<String>, s: &str, dim: bool, styled: bool)
    ensures
        text::texts(final(list)@) == text::texts(old(list)@) + indented(
            if dim {
                text::lines(s@).map_values(|l: Seq<char>| output::painted(l, Tone::Dim, styled))
            } else {
                text::lines(s@)
            },
        ),
{
    let ghost start = text::texts(list@);
    let lines = text::lines_of(s);
    let ghost m = text::lines(s@);
    let ghost shown = if dim {
        m.map_values(|l: Seq<char>| output::painted(l, Tone::Dim, styled))
    } else {
        m
    };
    let ghost all = indented(shown);
    let mut i: usize = 0;
    assert(start =~= start + all.take(0));
    while i < lines.len()
        invariant
            i <= lines@.len(),
            m == text::texts(lines@),
            all.len() == m.len(),
            forall|k: int|
                0 <= k < m.len() ==> #[trigger] all[k] == "    "@ + if dim {
                    output::painted(m[k], Tone::Dim, styled)
                } else {
                    m[k]
                },
            text::texts(list@) == start + all.take(i as int),
        decreases lines@.len() - i,
    {
        assert(m[i as int] == lines@[i as int]@);
        let line = if dim {
            output::paint(&lines[i], Tone::Dim, styled)
        } else {
            text::owned(&lines[i])
        };
        add_text(list, text::concat2("    ", &line));
        assert(text::texts(list@).last() == all[i as int]);
        i = i + 1;
        assert(text::texts(list@) =~= start + all.take(i as int));
    }
    assert(all.take(i as int) =~= all);
}

fn view_link(result: &BuildResult, home: &str, link: LinkState, v: &ViewFlags) -> (r: (
    Vec<String>,
    bool,
))
    ensures
        (text::texts(r.0@), r.1) == shown_link(result@, home@, link, *v),
{
    let mut out = no_texts();
    if result.canonical_source.is_none() || (v.short && link == LinkState::Current) {
        return (out, false);
    }
    let state = match link {
        LinkState::Current => output::paint("(linked)", Tone::Green, v.styled),
        LinkState::Elsewhere => output::paint("(wrong target)", Tone::Yellow, v.styled),
        LinkState::NotLinked => output::paint("(not linked)", Tone::Yellow, v.styled),
    };
    let mut notes = no_texts();
    add_text(&mut notes, output::paint("(symlink)", Tone::Dim, v.styled));
    add_text(&mut notes, state);
    assert(text::texts(notes@) =~= seq![
        output::painted("(symlink)"@, Tone::Dim, v.styled),
        state@,
    ]);
    add_text(&mut out, annotate(&header_of(result, home), &notes));
    assert(text::texts(out@) =~= shown_link(result@, home@, link, *v).0);
    (out, false)
}

fn view_file(
    result: &BuildResult,
    home: &str,
    facts: &DiffFacts,
    unexpected: bool,
    v: &ViewFlags,
) -> (r: (Vec<String>, bool))
    ensures
        (text::texts(r.0@), r.1) == shown_file(result@, home@, *facts, unexpected, *v),
{
    let ghost wanted = shown_file(result@, home@, *facts, unexpected, *v);
    let header = header_of(result, home);
    let mut notes = kind_texts(false, v);
    let mut out = no_texts();
    if !v.diff {
        add_text(&mut out, annotate(&header, &notes));
        assert(text::texts(out@) =~= wanted.0);
        return (out, false);
    }
    let diff = compute_diff_for_result(result, facts, v.styled);
    if diff.has_changes {
        let mut links = no_texts();
        add_link_notes(&mut links, unexpected, v.styled);
        assert(text::texts(links@) =~= link_notes(unexpected, v.styled));
        add_text(&mut out, annotate(&header, &links));
        add_indented(&mut out, &diff.output, false, v.styled);
        assert(text::texts(out@) =~= wanted.0);
        (out, true)
    } else if !facts.target_exists {
        add_text(&mut notes, output::paint("(not deployed)", Tone::Yellow, v.styled));
        add_text(&mut out, annotate(&header, &notes));
        assert(text::texts(out@) =~= wanted.0);
        (out, true)
    } else if unexpected {
        add_link_notes(&mut notes, true, v.styled);
        add_text(&mut out, annotate(&header, &notes));
        assert(text::texts(out@) =~= wanted.0);
        (out, true)
    } else if v.short {
        (out, false)
    } else {
        add_text(&mut notes, output::paint("(no changes)", Tone::Dim, v.styled));
        add_text(&mut out, annotate(&header, &notes));
        assert(text::texts(out@) =~= wanted.0);
        (out, false)
    }
}

fn member_text(f: &DirFile, styled: bool) -> (r: String)
    ensures
        r@ == member_line(*f, styled),
{
    let state = match f.state {
        FileState::Same => if f.is_symlink {
            output::paint("(unexpected symlink)", Tone::Yellow, styled)
        } else {
            output::paint("(no changes)", Tone::Dim, styled)
        },
        FileState::Modified => output::paint("(modified)", Tone::Yellow, styled),
        FileState::Missing => output::paint("(not deployed)", Tone::Yellow, styled),
    };
    let head = text::concat3("    ", &f.rel_path, " ");
    let line = text::concat2(&head, &state);
    if f.is_symlink && f.state != FileState::Same {
        let note = output::paint("(unexpected symlink)", Tone::Yellow, styled);
        let r = text::concat3(&line, " ", &note);
        assert(r@ =~= member_line(*f, styled));
        r
    } else {
        assert(line@ =~= member_line(*f, styled));
        line
    }
}

fn view_directory(
    result: &BuildResult,
    home: &str,
    files: &Vec<DirFile>,
    unexpected: bool,
    v: &ViewFlags,
) -> (r: (Vec<String>, bool))
    ensures
        (text::texts(r.0@), r.1) == shown_directory(result@, home@, files@, unexpected, *v),
{
    let ghost wanted = shown_directory(result@, home@, files@, unexpected, *v);
    let header = header_of(result, home);
    let mut notes = kind_texts(true, v);
    let mut out = no_texts();
    if !v.diff {
        add_text(&mut out, annotate(&header, &notes));
        assert(text::texts(out@) =~= wanted.0);
        return (out, false);
    }
    let mut members = no_texts();
    let mut current = true;
    let mut i: usize = 0;
    while i < files.len()
        invariant
            i <= files@.len(),
            text::texts(members@) == member_lines(files@, *v, i as nat),
            current == (forall|k: int| 0 <= k < i ==> member_current(#[trigger] files@[k])),
        decreases files@.len() - i,
    {
        let f = &files[i];
        let up_to_date = f.state == FileState::Same && !f.is_symlink;
        assert(up_to_date == member_current(files@[i as int]));
        if !up_to_date {
            current = false;
        }
        if !(v.short && up_to_date) {
            add_text(&mut members, member_text(f, v.styled));
        }
        i = i + 1;
    }
    let changed = unexpected || !current;
    if v.short && !changed {
        return (out, false);
    }
    add_text(&mut notes, output::paint("(directory)", Tone::Dim, v.styled));
    add_link_notes(&mut notes, unexpected, v.styled);
    add_text(&mut out, annotate(&header, &notes));
    let ghost head = text::texts(out@);
    let ghost m = text::texts(members@);
    let mut k: usize = 0;
    assert(head =~= head + m.take(0));
    while k < members.len()
        invariant
            k <= members@.len(),
            m == text::texts(members@),
            text::texts(out@) == head + m.take(k as int),
        decreases members@.len() - k,
    {
        assert(m[k as int] == members@[k as int]@);
        add_text(&mut out, text::owned(&members[k]));
        k = k + 1;
        assert(text::texts(out@) =~= head + m.take(k as int));
    }
    assert(m.take(k as int) =~= m);
    assert(text::texts(out@) =~= wanted.0);
    (out, changed)
}

fn view_config(
    result: &BuildResult,
    home: &str,
    facts: &DiffFacts,
    unexpected: bool,
    v: &ViewFlags,
) -> (r: (Vec<String>, bool))
    ensures
        (text::texts(r.0@), r.1) == shown_config(result@, home@, *facts, unexpected, *v),
{
    let ghost wanted = shown_config(result@, home@, *facts, unexpected, *v);
    let header = header_of(result, home);
    let diff = compute_diff_for_result(result, facts, v.styled);
    let differs = v.diff && diff.has_changes;
    let missing = v.diff && !facts.target_exists;
    let mut out = no_texts();
    let mut notes = no_texts();
    if differs || v.content {
        if missing {
            add_text(&mut notes, output::paint("(not deployed)", Tone::Yellow, v.styled));
            assert(text::texts(notes@) =~= seq![
                output::painted("(not deployed)"@, Tone::Yellow, v.styled),
            ]);
        } else {
            add_link_notes(&mut notes, v.diff && unexpected, v.styled);
            assert(text::texts(notes@) =~= link_notes(v.diff && unexpected, v.styled));
        }
        add_text(&mut out, annotate(&header, &notes));
        let ghost head = text::texts(out@);
        if v.content {
            add_indented(&mut out, &result.content, true, v.styled);
        }
        assert(text::texts(out@) =~= head + if v.content {
            indented(content_lines(result@, v.styled))
        } else {
            seq![]
        });
        if differs {
            add_indented(&mut out, &diff.output, false, v.styled);
        }
        assert(text::texts(out@) =~= wanted.0);
        (out, missing || differs || (v.diff && unexpected))
    } else if unexpected {
        add_link_notes(&mut notes, true, v.styled);
        assert(text::texts(notes@) =~= link_notes(true, v.styled));
        add_text(&mut out, annotate(&header, &notes));
        assert(text::texts(out@) =~= wanted.0);
        (out, true)
    } else if v.short {
        (out, false)
    } else {
        add_text(&mut notes, output::paint("(no changes)", Tone::Dim, v.styled));
        assert(text::texts(notes@) =~= seq![
            output::painted("(no changes)"@, Tone::Dim, v.styled),
        ]);
        add_text(&mut out, annotate(&header, &notes));
        assert(text::texts(out@) =~= wanted.0);
        (out, false)
    }
}

/// Shows an entry; tells as well whether it has something to deploy.
pub fn view_entry(
    result: &BuildResult,
    home_dir: &str,
    facts: &DiffFacts,
    link: LinkState,
    unexpected: bool,
    v: &ViewFlags,
) -> (r: (Vec<String>, bool))
    ensures
        (text::texts(r.0@), r.1) == shown_entry(
            result@,
            home_dir@,
            *facts,
            link,
            unexpected,
            *v,
        ),
{
    if result.is_symlink {
        view_link(result, home_dir, link, v)
    } else if result.is_plaintext {
        if result.source_path.is_none() {
            return (no_texts(), false);
        }
        match &facts.files {
            Some(files) => view_directory(result, home_dir, files, unexpected, v),
            None => view_file(result, home_dir, facts, unexpected, v),
        }
    } else {
        view_config(result, home_dir, facts, unexpected, v)
    }
}

/// The line above the entries of a package.
pub fn package_heading(pkg: &str, styled: bool) -> (r: String)
    ensures
        r@ == "\n"@ + output::painted(pkg@, Tone::CyanBold, styled),
{
    text::concat2("\n", &output::paint(pkg, Tone::CyanBold, styled))
}

/// Whether the view ends by saying that everything is up to date.
pub fn all_up_to_date(show_diff: bool, has_changes: bool, packages: usize) -> (r: bool)
    ensures
        r == (show_diff && !has_changes && packages > 0),
{
    show_diff && !has_changes && packages > 0
}

/// No file of a directory is a link.
pub open spec fn no_links(facts: DiffFacts) -> bool {
    facts.files matches Some(files) ==> forall|i: int|
        0 <= i < files@.len() ==> !(#[trigger] files@[i]).is_symlink
}

/// What is in sync with its target, with no link in the way, is shown as having
/// nothing to deploy, and a short view leaves it out; what is not in sync is
/// shown as having something to deploy.
pub proof fn law_sync_shown(
    b: BuildModel,
    home: Seq<char>,
    facts: DiffFacts,
    link: LinkState,
    unexpected: bool,
    v: ViewFlags,
)
    requires
        v.diff,
        helpers::sync_state(b, facts) is Some,
        b.is_plaintext ==> b.source_path is Some,
    ensures
        ({
            let shown = shown_entry(b, home, facts, link, unexpected, v);
            let current = !unexpected && (b.is_plaintext ==> no_links(facts));
            &&& helpers::sync_state(b, facts) == Some(true) && current ==> !shown.1 && (v.short
                && !(v.content && !b.is_plaintext) ==> shown.0.len() == 0)
            &&& helpers::sync_state(b, facts) == Some(false) ==> shown.1 && shown.0.len() > 0
        }),
{
    helpers::law_result_styling(b, facts);
    if let Some(files) = facts.files {
        helpers::law_directory_same(files@, v.styled);
        helpers::law_directory_same(files@, false);
    }
}

/// What is shown of an entry begins with a line that names it and its target.
pub proof fn law_entry_named(
    b: BuildModel,
    home: Seq<char>,
    facts: DiffFacts,
    link: LinkState,
    unexpected: bool,
    v: ViewFlags,
)
    ensures
        ({
            let shown = shown_entry(b, home, facts, link, unexpected, v);
            shown.0.len() > 0 ==> text::begins(
                shown.0[0],
                "  "@ + b.name + " -> "@ + sync::shortened(b.target, home),
            )
        }),
{
    let shown = shown_entry(b, home, facts, link, unexpected, v);
    let header = entry_header(b, home);
    assert forall|notes: Seq<Seq<char>>| text::begins(#[trigger] annotated(header, notes), header) by {
        let line = annotated(header, notes);
        assert(line.take(header.len() as int) =~= header);
    }
}

/// A link is said to be linked exactly where it points to its source, and a short
/// view leaves out no other.
pub proof fn law_link_shown(b: BuildModel, home: Seq<char>, link: LinkState, v: ViewFlags)
    requires
        b.canonical_source is Some,
        !v.styled,
    ensures
        ({
            let lines = shown_link(b, home, link, v).0;
            &&& lines.len() == 0 <==> v.short && link == LinkState::Current
            &&& lines.len() > 0 ==> (text::ends(lines[0], "(linked)"@) <==> link
                == LinkState::Current)
            &&& lines.len() > 0 ==> (text::ends(lines[0], "(wrong target)"@) <==> link
                == LinkState::Elsewhere)
        }),
{
    reveal_strlit("(linked)");
    reveal_strlit("(wrong target)");
    reveal_strlit("(not linked)");
    reveal_strlit("(symlink)");
    reveal_strlit(" ");
    let lines = shown_link(b, home, link, v).0;
    if lines.len() > 0 {
        let state = match link {
            LinkState::Current => "(linked)"@,
            LinkState::Elsewhere => "(wrong target)"@,
            LinkState::NotLinked => "(not linked)"@,
        };
        let notes = seq!["(symlink)"@, state];
        let line = lines[0];
        assert(notes.drop_last() =~= seq!["(symlink)"@]);
        let first = notes.drop_last();
        assert(text::joined(first, " "@) == "(symlink)"@);
        assert(text::joined(notes, " "@) == text::joined(first, " "@) + " "@ + notes.last());
        let full = entry_header(b, home) + " "@ + ("(symlink)"@ + " "@ + state);
        assert(line == full);
        assert(full.skip(full.len() - state.len()) =~= state);
        let n = line.len();
        assert(line[n - 2] == state[state.len() - 2]);
        assert(line[n - 3] == state[state.len() - 3]);
        assert(line[n - 8] == match link {
            LinkState::Current => '(',
            LinkState::Elsewhere => ' ',
            LinkState::NotLinked => ' ',
        });
        let linked = "(linked)"@;
        let wrong = "(wrong target)"@;
        if text::ends(line, linked) {
            assert(line.skip(n - linked.len())[0] == '(');
        }
        if text::ends(line, wrong) {
            assert(line.skip(n - wrong.len())[12] == 't');
        }
    }
}

/// How many of the first `n` files of a directory are not up to date.
pub open spec fn behind_count(files: Seq<DirFile>, n: nat) -> nat
    decreases n,
{
    if n == 0 || n > files.len() {
        0
    } else {
        behind_count(files, (n - 1) as nat) + if files[n - 1].state == FileState::Same
            && !files[n - 1].is_symlink {
            0nat
        } else {
            1
        }
    }
}

/// The files of a directory are shown each by a line, a short view showing those
/// only that are not up to date; each line names a file, and each file that is not
/// up to date has one.
pub proof fn law_members_shown(files: Seq<DirFile>, v: ViewFlags, n: nat)
    requires
        n <= files.len(),
    ensures
        member_lines(files, v, n).len() == if v.short {
            behind_count(files, n)
        } else {
            n
        },
        forall|i: int|
            0 <= i < n && (!v.short || (#[trigger] files[i]).state != FileState::Same
                || files[i].is_symlink) ==> member_lines(files, v, n).contains(
                member_line(files[i], v.styled),
            ),
        forall|i: int|
            0 <= i < n ==> text::begins(
                member_line(#[trigger] files[i], v.styled),
                "    "@ + files[i].rel_path@ + " "@,
            ),
    decreases n,
{
    if n > 0 {
        law_members_shown(files, v, (n - 1) as nat);
        let before = member_lines(files, v, (n - 1) as nat);
        let all = member_lines(files, v, n);
        if !(v.short && member_current(files[n - 1])) {
            assert(all[before.len() as int] == member_line(files[n - 1], v.styled));
        }
        assert forall|i: int|
            0 <= i < n && (!v.short || (#[trigger] files[i]).state != FileState::Same
                || files[i].is_symlink) implies all.contains(member_line(files[i], v.styled)) by {
            if i < n - 1 {
                assert(before.contains(member_line(files[i], v.styled)));
                let k = before.index_of(member_line(files[i], v.styled));
                assert(all[k] == before[k]);
            }
        }
        assert forall|i: int| 0 <= i < n implies text::begins(
            member_line(#[trigger] files[i], v.styled),
            "    "@ + files[i].rel_path@ + " "@,
        ) by {
            let head = "    "@ + files[i].rel_path@ + " "@;
            let line = member_line(files[i], v.styled);
            assert(line.take(head.len() as int) =~= head);
        }
    }
}

/// A file of a directory is said to be without changes exactly where it is the same
/// and no link, to be modified where it differs and not deployed where it is
/// missing; a link is told to be unexpected.
pub proof fn law_member_state(f: DirFile)
    ensures
        ({
            let head = "    "@ + f.rel_path@ + " "@;
            let rest = member_line(f, false).skip(head.len() as int);
            &&& rest == "(no changes)"@ <==> f.state == FileState::Same && !f.is_symlink
            &&& text::begins(rest, "(modified)"@) <==> f.state == FileState::Modified
            &&& text::begins(rest, "(not deployed)"@) <==> f.state == FileState::Missing
            &&& text::ends(rest, "(unexpected symlink)"@) <==> f.is_symlink
        }),
{
    reveal_strlit("(no changes)");
    reveal_strlit("(modified)");
    reveal_strlit("(not deployed)");
    reveal_strlit("(unexpected symlink)");
    reveal_strlit(" ");
    let head = "    "@ + f.rel_path@ + " "@;
    let line = member_line(f, false);
    let rest = line.skip(head.len() as int);
    let state = match f.state {
        FileState::Same => if f.is_symlink {
            "(unexpected symlink)"@
        } else {
            "(no changes)"@
        },
        FileState::Modified => "(modified)"@,
        FileState::Missing => "(not deployed)"@,
    };
    let tail = if f.is_symlink && f.state != FileState::Same {
        " "@ + "(unexpected symlink)"@
    } else {
        seq![]
    };
    assert(rest =~= state + tail);
    assert(rest.take(state.len() as int) =~= state);
    let link = "(unexpected symlink)"@;
    assert(link.len() == 20 && "(no changes)"@.len() == 12 && "(modified)"@.len() == 10);
    assert("(not deployed)"@.len() == 14);
    assert(rest[1] == state[1] && rest[2] == state[2] && rest[3] == state[3]);
    if f.is_symlink {
        assert(rest.skip(rest.len() - 20) =~= link);
    } else {
        assert(rest =~= state);
        if text::ends(rest, link) {
            assert(rest.len() >= 20);
        }
    }
    if text::begins(rest, "(modified)"@) {
        assert(rest.take(10)[1] == 'm');
    }
    if text::begins(rest, "(not deployed)"@) {
        assert(rest.take(14)[3] == 't');
    }
}

/// A file without a target is told to be not deployed, in the line that names it,
/// and counts as something to deploy; one with a target is not told so.
pub proof fn law_missing_told(
    b: BuildModel,
    home: Seq<char>,
    facts: DiffFacts,
    unexpected: bool,
    v: ViewFlags,
)
    requires
        v.diff,
        !v.styled,
        !b.is_symlink,
    ensures
        ({
            let shown = shown_file(b, home, facts, unexpected, v);
            !facts.target_exists ==> {
                &&& shown.1
                &&& shown.0.len() == 1
                &&& text::ends(shown.0[0], "(not deployed)"@)
            }
        }),
        ({
            let shown = shown_file(b, home, facts, unexpected, v);
            facts.target_exists && !unexpected && helpers::result_lines(b, facts, false).len() == 0
                ==> {
                &&& !shown.1
                &&& v.short ==> shown.0.len() == 0
                &&& !v.short ==> shown.0.len() == 1 && text::ends(shown.0[0], "(no changes)"@)
            }
        }),
        ({
            let shown = shown_config(b, home, facts, unexpected, v);
            !facts.target_exists && v.content ==> {
                &&& shown.1
                &&& shown.0.len() > 0
                &&& text::ends(shown.0[0], "(not deployed)"@)
            }
        }),
{
    let header = entry_header(b, home);
    let kind = kind_notes(false, v);
    let none = Seq::<Seq<char>>::empty();
    lemma_note_last(header, kind, "(not deployed)"@);
    lemma_note_last(header, kind, "(no changes)"@);
    lemma_note_last(header, none, "(not deployed)"@);
    assert(none.push("(not deployed)"@) =~= seq!["(not deployed)"@]);
    if !facts.target_exists {
        helpers::law_not_compared(b, facts, v.styled);
    }
}

proof fn lemma_note_last(header: Seq<char>, notes: Seq<Seq<char>>, last: Seq<char>)
    ensures
        text::ends(annotated(header, notes.push(last)), last),
{
    let all = notes.push(last);
    let line = annotated(header, all);
    let joined = text::joined(all, " "@);
    assert(all.drop_last() =~= notes);
    assert(joined.skip(joined.len() - last.len()) =~= last);
    assert(line.skip(line.len() - last.len()) =~= last);
}

/// The content of configuration is shown exactly where it is asked for: a line for
/// each of its lines, indented and in their order, behind the line that names the
/// entry.
pub proof fn law_content_shown(
    b: BuildModel,
    home: Seq<char>,
    facts: DiffFacts,
    unexpected: bool,
    v: ViewFlags,
    i: int,
)
    requires
        v.content,
        !v.styled,
        0 <= i < text::lines(b.content).len(),
    ensures
        ({
            let lines = shown_config(b, home, facts, unexpected, v).0;
            &&& lines.len() > text::lines(b.content).len()
            &&& lines[i + 1] == "    "@ + text::lines(b.content)[i]
        }),
{
}

} // verus!
