//! The steps that deploy a build.
use crate::compose::merged::MergedFile;
use crate::compose::{BuildModel, BuildResult};
use crate::context;
use crate::output::{Level, LogLine};
use crate::text;
use vstd::prelude::*;
use vstd::string::*;

verus! {

/// One step of a deployment.
#[derive(Debug)]
pub enum WriteStep {
    /// Tells something and changes nothing.
    Log(LogLine),
    /// Takes the immutable flag from a file, or from the files of a directory.
    ClearImmutable(String),
    /// Makes the directory that a path stands in.
    EnsureParent(String),
    /// Removes a path that is a link.
    RemoveLink(String),
    /// Removes whatever stands at a path.
    RemoveExisting(String),
    /// Makes a link.
    Link { source: String, target: String },
    /// Copies a file.
    Copy { source: String, target: String },
    /// Writes a file.
    Write { target: String, content: String },
    /// Gives the immutable flag to a file, or to the files of a directory.
    SetImmutable(String),
}

/// A step as mathematics sees it.
pub enum StepModel {
    Log(Level, Seq<char>),
    ClearImmutable(Seq<char>),
    EnsureParent(Seq<char>),
    RemoveLink(Seq<char>),
    RemoveExisting(Seq<char>),
    Link { source: Seq<char>, target: Seq<char> },
    Copy { source: Seq<char>, target: Seq<char> },
    Write { target: Seq<char>, content: Seq<char> },
    SetImmutable(Seq<char>),
}

impl View for WriteStep {
    type V = StepModel;

    open spec fn view(&self) -> StepModel {
        match self {
            WriteStep::Log(line) => StepModel::Log(line.level, line.text@),
            WriteStep::ClearImmutable(p) => StepModel::ClearImmutable(p@),
            WriteStep::EnsureParent(p) => StepModel::EnsureParent(p@),
            WriteStep::RemoveLink(p) => StepModel::RemoveLink(p@),
            WriteStep::RemoveExisting(p) => StepModel::RemoveExisting(p@),
            WriteStep::Link { source, target } => StepModel::Link {
                source: source@,
                target: target@,
            },
            WriteStep::Copy { source, target } => StepModel::Copy {
                source: source@,
                target: target@,
            },
            WriteStep::Write { target, content } => StepModel::Write {
                target: target@,
                content: content@,
            },
            WriteStep::SetImmutable(p) => StepModel::SetImmutable(p@),
        }
    }
}

/// What a list of steps holds.
pub open spec fn steps_model(steps: Seq<WriteStep>) -> Seq<StepModel> {
    steps.map_values(|s: WriteStep| s@)
}

/// What the file system says of the two ends of a deployment.
#[derive(Debug, Clone, Copy)]
pub struct TargetFacts {
    /// Whether something is at the target.
    pub exists: bool,
    /// Whether the target is a link.
    pub is_symlink: bool,
    /// Whether the source is a directory.
    pub source_is_dir: bool,
}

// ---------------------------------------------------------------------------
// Plans
// ---------------------------------------------------------------------------

/// A message about what would be done.
pub open spec fn would(what: Seq<char>) -> StepModel {
    StepModel::Log(Level::Info, what)
}

/// The message, in a dry run, about a link that would go.
pub open spec fn link_note(path: Seq<char>, facts: TargetFacts) -> Seq<StepModel> {
    if facts.is_symlink {
        seq![would("Would remove symlink "@ + path)]
    } else {
        seq![]
    }
}

/// The steps that link a target to a source.
pub open spec fn link_steps(source: Seq<char>, target: Seq<char>, dry_run: bool) -> Seq<StepModel> {
    if dry_run {
        seq![would("Would symlink "@ + target + " -> "@ + source)]
    } else {
        seq![
            StepModel::EnsureParent(target),
            StepModel::RemoveExisting(target),
            StepModel::Link { source, target },
        ]
    }
}

/// The steps that copy one file.
pub open spec fn file_steps(
    source: Seq<char>,
    target: Seq<char>,
    dry_run: bool,
    facts: TargetFacts,
) -> Seq<StepModel> {
    if dry_run {
        link_note(target, facts) + seq![would("Would copy "@ + source + " to "@ + target)]
    } else {
        seq![
            StepModel::EnsureParent(target),
            StepModel::RemoveLink(target),
            StepModel::Copy { source, target },
        ]
    }
}

/// The steps for one file of a directory.
pub open spec fn member_steps(file: MergedFile, target: Seq<char>, dry_run: bool) -> Seq<StepModel> {
    let path = context::below(target, file.rel_path@);
    if dry_run {
        seq![
            would(
                "Would copy to "@ + path + if file.is_local {
                    " (local)"@
                } else {
                    ""@
                },
            ),
        ]
    } else {
        seq![
            StepModel::EnsureParent(path),
            StepModel::RemoveLink(path),
            StepModel::Copy { source: file.source@, target: path },
        ]
    }
}

/// The steps for the first `n` files of a directory.
pub open spec fn members_steps(
    files: Seq<MergedFile>,
    target: Seq<char>,
    dry_run: bool,
    n: nat,
) -> Seq<StepModel>
    decreases n,
{
    if n == 0 || n > files.len() {
        seq![]
    } else {
        members_steps(files, target, dry_run, (n - 1) as nat) + member_steps(
            files[n - 1],
            target,
            dry_run,
        )
    }
}

/// The steps that copy a directory.
pub open spec fn directory_steps(
    files: Seq<MergedFile>,
    target: Seq<char>,
    dry_run: bool,
    facts: TargetFacts,
) -> Seq<StepModel> {
    (if dry_run {
        link_note(target, facts)
    } else {
        seq![StepModel::RemoveLink(target)]
    }) + members_steps(files, target, dry_run, files.len())
}

/// The steps that write rendered configuration.
pub open spec fn content_steps(b: BuildModel, dry_run: bool, facts: TargetFacts) -> Seq<StepModel> {
    if dry_run {
        link_note(b.target, facts) + seq![would("Would write to "@ + b.target)] + if b.immutable {
            seq![would("Would set immutable flag on "@ + b.target)]
        } else {
            seq![]
        }
    } else {
        seq![
            StepModel::EnsureParent(b.target),
            StepModel::RemoveLink(b.target),
            StepModel::Write { target: b.target, content: b.content },
        ]
    }
}

/// The steps that come before the target is written.
pub open spec fn opening_steps(b: BuildModel, dry_run: bool, facts: TargetFacts) -> Seq<StepModel> {
    if !b.immutable {
        seq![]
    } else if !dry_run {
        seq![StepModel::ClearImmutable(b.target)]
    } else if facts.exists {
        seq![would("Would remove immutable flag from "@ + b.target)]
    } else {
        seq![]
    }
}

/// The steps that write the target.
pub open spec fn body_steps(
    b: BuildModel,
    dry_run: bool,
    facts: TargetFacts,
    files: Seq<MergedFile>,
) -> Seq<StepModel> {
    if b.is_plaintext {
        match b.source_path {
            Some(source) => if facts.source_is_dir {
                directory_steps(files, b.target, dry_run, facts)
            } else {
                file_steps(source, b.target, dry_run, facts)
            },
            None => seq![],
        }
    } else {
        content_steps(b, dry_run, facts)
    }
}

/// The steps that come after the target is written.
pub open spec fn closing_steps(b: BuildModel, dry_run: bool) -> Seq<StepModel> {
    if b.immutable && !dry_run {
        seq![StepModel::SetImmutable(b.target)]
    } else {
        seq![]
    }
}

/// The steps that deploy a build; `None` for a linked entry without a source.
pub open spec fn write_steps(
    b: BuildModel,
    dry_run: bool,
    facts: TargetFacts,
    files: Seq<MergedFile>,
) -> Option<Seq<StepModel>> {
    if b.is_symlink {
        match b.canonical_source {
            Some(source) => Some(link_steps(source, b.target, dry_run)),
            None => None,
        }
    } else {
        Some(
            opening_steps(b, dry_run, facts) + body_steps(b, dry_run, facts, files)
                + closing_steps(b, dry_run),
        )
    }
}

fn note(text: String) -> (r: WriteStep)
    ensures
        r@ == would(text@),
{
    WriteStep::Log(LogLine::new(Level::Info, text))
}

proof fn lemma_steps_push(steps: Seq<WriteStep>, s: WriteStep)
    ensures
        steps_model(steps.push(s)) == steps_model(steps).push(s@),
{
    assert(steps_model(steps.push(s)) =~= steps_model(steps).push(s@));
}

/// Appends a step.
fn add_step(steps: &mut Vec<WriteStep>, s: WriteStep)
    ensures
        steps_model(final(steps)@) == steps_model(old(steps)@).push(s@),
{
    proof {
        lemma_steps_push(steps@, s);
    }
    steps.push(s);
}

fn add_link_note(steps: &mut Vec<WriteStep>, path: &str, facts: &TargetFacts)
    ensures
        steps_model(final(steps)@) == steps_model(old(steps)@) + link_note(path@, *facts),
{
    let ghost before = steps_model(steps@);
    if facts.is_symlink {
        add_step(steps, note(text::concat2("Would remove symlink ", path)));
    }
    assert(steps_model(steps@) =~= before + link_note(path@, *facts));
}

fn add_file_steps(
    steps: &mut Vec<WriteStep>,
    source: &str,
    target: &str,
    dry_run: bool,
    facts: &TargetFacts,
)
    ensures
        steps_model(final(steps)@) == steps_model(old(steps)@) + file_steps(
            source@,
            target@,
            dry_run,
            *facts,
        ),
{
    let ghost before = steps_model(steps@);
    if dry_run {
        add_link_note(steps, target, facts);
        let what = text::concat2(&text::concat3("Would copy ", source, " to "), target);
        add_step(steps, note(what));
    } else {
        add_step(steps, WriteStep::EnsureParent(text::owned(target)));
        add_step(steps, WriteStep::RemoveLink(text::owned(target)));
        add_step(
            steps,
            WriteStep::Copy { source: text::owned(source), target: text::owned(target) },
        );
    }
    assert(steps_model(steps@) =~= before + file_steps(source@, target@, dry_run, *facts));
}

fn add_member_steps(steps: &mut Vec<WriteStep>, file: &MergedFile, target: &str, dry_run: bool)
    ensures
        steps_model(final(steps)@) == steps_model(old(steps)@) + member_steps(
            *file,
            target@,
            dry_run,
        ),
{
    let ghost before = steps_model(steps@);
    let path = context::join_dir(target, &file.rel_path);
    if dry_run {
        let overlay_note = if file.is_local {
            " (local)"
        } else {
            ""
        };
        add_step(steps, note(text::concat3("Would copy to ", &path, overlay_note)));
    } else {
        add_step(steps, WriteStep::EnsureParent(text::owned(&path)));
        add_step(steps, WriteStep::RemoveLink(text::owned(&path)));
        add_step(steps, WriteStep::Copy { source: text::owned(&file.source), target: path });
    }
    assert(steps_model(steps@) =~= before + member_steps(*file, target@, dry_run));
}

fn add_directory_steps(
    steps: &mut Vec<WriteStep>,
    files: &Vec<MergedFile>,
    target: &str,
    dry_run: bool,
    facts: &TargetFacts,
)
    ensures
        steps_model(final(steps)@) == steps_model(old(steps)@) + directory_steps(
            files@,
            target@,
            dry_run,
            *facts,
        ),
{
    let ghost before = steps_model(steps@);
    if dry_run {
        add_link_note(steps, target, facts);
    } else {
        add_step(steps, WriteStep::RemoveLink(text::owned(target)));
    }
    let ghost head = steps_model(steps@);
    let mut i: usize = 0;
    assert(head =~= head + members_steps(files@, target@, dry_run, 0));
    while i < files.len()
        invariant
            i <= files@.len(),
            steps_model(steps@) == head + members_steps(files@, target@, dry_run, i as nat),
        decreases files@.len() - i,
    {
        add_member_steps(steps, &files[i], target, dry_run);
        i = i + 1;
        assert(steps_model(steps@) =~= head + members_steps(files@, target@, dry_run, i as nat));
    }
    assert(steps_model(steps@) =~= before + directory_steps(files@, target@, dry_run, *facts));
}

fn add_content_steps(
    steps: &mut Vec<WriteStep>,
    result: &BuildResult,
    dry_run: bool,
    facts: &TargetFacts,
)
    ensures
        steps_model(final(steps)@) == steps_model(old(steps)@) + content_steps(
            result@,
            dry_run,
            *facts,
        ),
{
    let ghost before = steps_model(steps@);
    let target = &result.target;
    if dry_run {
        add_link_note(steps, target, facts);
        add_step(steps, note(text::concat2("Would write to ", target)));
        if result.immutable {
            add_step(steps, note(text::concat2("Would set immutable flag on ", target)));
        }
    } else {
        add_step(steps, WriteStep::EnsureParent(text::owned(target)));
        add_step(steps, WriteStep::RemoveLink(text::owned(target)));
        add_step(
            steps,
            WriteStep::Write {
                target: text::owned(target),
                content: text::owned(&result.content),
            },
        );
    }
    assert(steps_model(steps@) =~= before + content_steps(result@, dry_run, *facts));
}

/// Plans the deployment of a build. The files are those of the source directory,
/// where the source is one.
pub fn write_result(
    result: &BuildResult,
    dry_run: bool,
    facts: &TargetFacts,
    files: &Vec<MergedFile>,
) -> (r: Option<Vec<WriteStep>>)
    ensures
        match r {
            Some(steps) => write_steps(result@, dry_run, *facts, files@) == Some(
                steps_model(steps@),
            ),
            None => write_steps(result@, dry_run, *facts, files@) is None,
        },
{
    let ghost b = result@;
    let mut steps: Vec<WriteStep> = Vec::new();
    assert(steps_model(steps@) =~= seq![]);
    let target = &result.target;
    if result.is_symlink {
        match &result.canonical_source {
            Some(source) => {
                if dry_run {
                    let what = text::concat3("Would symlink ", target, " -> ");
                    add_step(&mut steps, note(text::concat2(&what, source)));
                } else {
                    add_step(&mut steps, WriteStep::EnsureParent(text::owned(target)));
                    add_step(&mut steps, WriteStep::RemoveExisting(text::owned(target)));
                    add_step(
                        &mut steps,
                        WriteStep::Link { source: text::owned(source), target: text::owned(target) },
                    );
                }
                assert(steps_model(steps@) =~= link_steps(source@, target@, dry_run));
                return Some(steps);
            },
            None => {
                return None;
            },
        }
    }
    if result.immutable {
        if !dry_run {
            add_step(&mut steps, WriteStep::ClearImmutable(text::owned(target)));
        } else if facts.exists {
            let what = text::concat2("Would remove immutable flag from ", target);
            add_step(&mut steps, note(what));
        }
    }
    let ghost opening = opening_steps(b, dry_run, *facts);
    assert(steps_model(steps@) =~= opening);
    if result.is_plaintext {
        match &result.source_path {
            Some(source) => {
                if facts.source_is_dir {
                    add_directory_steps(&mut steps, files, target, dry_run, facts);
                } else {
                    add_file_steps(&mut steps, source, target, dry_run, facts);
                }
            },
            None => {},
        }
    } else {
        add_content_steps(&mut steps, result, dry_run, facts);
    }
    let ghost body = body_steps(b, dry_run, *facts, files@);
    assert(steps_model(steps@) =~= opening + body);
    if result.immutable && !dry_run {
        add_step(&mut steps, WriteStep::SetImmutable(text::owned(target)));
    }
    assert(steps_model(steps@) =~= opening + body + closing_steps(b, dry_run));
    Some(steps)
}

// ---------------------------------------------------------------------------
// Links in the way
// ---------------------------------------------------------------------------

/// What stands at a path, links not followed.
#[derive(Debug, Clone, Copy, PartialEq, Eq, Structural)]
pub enum PathKind {
    Missing,
    Link,
    Other,
}

/// A path on the way to a directory and what stands there.
#[derive(Debug)]
pub struct WayPath {
    pub path: String,
    pub kind: PathKind,
}

/// The first link, at or behind `from`, that lies below the home directory,
/// whatever stands before it.
pub open spec fn home_link(way: Seq<WayPath>, home: Seq<char>, from: nat) -> Option<nat>
    decreases way.len() - from,
{
    if from >= way.len() {
        None
    } else if way[from as int].kind == PathKind::Link && context::lies_below(
        way[from as int].path@,
        home,
    ) {
        Some(from)
    } else {
        home_link(way, home, from + 1)
    }
}

/// The first path, at or behind `from`, at which something stands, where that is
/// a link.
pub open spec fn nearest_link(way: Seq<WayPath>, from: nat) -> Option<nat>
    decreases way.len() - from,
{
    if from >= way.len() {
        None
    } else {
        match way[from as int].kind {
            PathKind::Missing => nearest_link(way, from + 1),
            PathKind::Link => Some(from),
            PathKind::Other => None,
        }
    }
}

/// The link that is to go before a directory is made, given the directory and the
/// paths above it, from the nearest up. In the home directory every link below it
/// stands in the way. Outside, only the first path that is there can be one that
/// is the directory's own: the links above belong to the system.
pub open spec fn link_in_way(way: Seq<WayPath>, home: Seq<char>) -> Option<nat> {
    if way.len() > 0 && context::lies_in(way[0].path@, home) {
        home_link(way, home, 0)
    } else {
        nearest_link(way, 0)
    }
}

/// Finds the link that is to go before a directory is made.
pub fn link_to_remove(way: &[WayPath], home_dir: &str) -> (r: Option<usize>)
    ensures
        match r {
            Some(i) => link_in_way(way@, home_dir@) == Some(i as nat) && i < way@.len(),
            None => link_in_way(way@, home_dir@) is None,
        },
{
    if way.len() == 0 {
        return None;
    }
    let at_home = context::is_in(&way[0].path, home_dir);
    let mut i: usize = 0;
    while i < way.len()
        invariant
            i <= way@.len(),
            way@.len() > 0,
            at_home == context::lies_in(way@[0].path@, home_dir@),
            at_home ==> home_link(way@, home_dir@, 0) == home_link(way@, home_dir@, i as nat),
            !at_home ==> nearest_link(way@, 0) == nearest_link(way@, i as nat),
        decreases way@.len() - i,
    {
        match way[i].kind {
            PathKind::Link => {
                if !at_home || context::is_below(&way[i].path, home_dir) {
                    return Some(i);
                }
            },
            PathKind::Other => {
                if !at_home {
                    return None;
                }
            },
            PathKind::Missing => {},
        }
        i = i + 1;
    }
    None
}

// ---------------------------------------------------------------------------
// Laws of the plans
// ---------------------------------------------------------------------------

/// Each of the steps only tells something.
pub open spec fn only_tells(steps: Seq<StepModel>) -> bool {
    forall|i: int| 0 <= i < steps.len() ==> (#[trigger] steps[i]) is Log
}

proof fn lemma_tells_concat(a: Seq<StepModel>, b: Seq<StepModel>)
    requires
        only_tells(a),
        only_tells(b),
    ensures
        only_tells(a + b),
{
}

proof fn lemma_members_tell(files: Seq<MergedFile>, target: Seq<char>, n: nat)
    requires
        n <= files.len(),
    ensures
        only_tells(members_steps(files, target, true, n)),
    decreases n,
{
    if n > 0 {
        lemma_members_tell(files, target, (n - 1) as nat);
        lemma_tells_concat(
            members_steps(files, target, true, (n - 1) as nat),
            member_steps(files[n - 1], target, true),
        );
    }
}

/// A dry run changes nothing: each of its steps only tells something.
pub proof fn law_dry_run_tells(b: BuildModel, facts: TargetFacts, files: Seq<MergedFile>)
    ensures
        write_steps(b, true, facts, files) matches Some(steps) ==> only_tells(steps),
{
    lemma_members_tell(files, b.target, files.len());
    if !b.is_symlink {
        let body = body_steps(b, true, facts, files);
        if b.is_plaintext && b.source_path is Some && facts.source_is_dir {
            lemma_tells_concat(
                link_note(b.target, facts),
                members_steps(files, b.target, true, files.len()),
            );
        }
        assert(only_tells(body));
        lemma_tells_concat(opening_steps(b, true, facts), body);
        lemma_tells_concat(opening_steps(b, true, facts) + body, closing_steps(b, true));
    }
}

/// An immutable target is made writable before anything else and immutable
/// again after everything else.
pub proof fn law_immutable_last(b: BuildModel, facts: TargetFacts, files: Seq<MergedFile>)
    requires
        b.immutable,
        !b.is_symlink,
    ensures
        ({
            let steps = write_steps(b, false, facts, files)->0;
            &&& steps.len() >= 2
            &&& steps[0] == StepModel::ClearImmutable(b.target)
            &&& steps.last() == StepModel::SetImmutable(b.target)
        }),
{
}

/// What a step brings to a path.
pub enum Brought {
    /// A link to a source.
    LinkTo(Seq<char>),
    /// A copy of a source.
    CopyOf(Seq<char>),
    /// A text.
    Text(Seq<char>),
}

/// The path that a step brings something to, and what it brings there.
pub open spec fn brought(s: StepModel) -> Option<(Seq<char>, Brought)> {
    match s {
        StepModel::Link { source, target } => Some((target, Brought::LinkTo(source))),
        StepModel::Copy { source, target } => Some((target, Brought::CopyOf(source))),
        StepModel::Write { target, content } => Some((target, Brought::Text(content))),
        _ => None,
    }
}

/// What a list of steps brings, in their order.
pub open spec fn all_brought(steps: Seq<StepModel>) -> Seq<(Seq<char>, Brought)>
    decreases steps.len(),
{
    if steps.len() == 0 {
        seq![]
    } else {
        match brought(steps.last()) {
            Some(x) => all_brought(steps.drop_last()).push(x),
            None => all_brought(steps.drop_last()),
        }
    }
}

/// A step is taken before the one at a place.
pub open spec fn earlier(steps: Seq<StepModel>, n: int, s: StepModel) -> bool {
    exists|i: int| 0 <= i < n && #[trigger] steps[i] == s
}

/// Before a file is brought to a path, the directory of the path is made and a
/// link at the path is removed; before a link is, whatever is there goes.
pub open spec fn ground_cleared(steps: Seq<StepModel>) -> bool {
    forall|n: int|
        0 <= n < steps.len() ==> match brought(#[trigger] steps[n]) {
            Some((path, what)) => {
                &&& earlier(steps, n, StepModel::EnsureParent(path))
                &&& if what is LinkTo {
                    earlier(steps, n, StepModel::RemoveExisting(path))
                } else {
                    earlier(steps, n, StepModel::RemoveLink(path))
                }
            },
            None => true,
        }
}

/// Nothing but links is removed.
pub open spec fn keeps_files(steps: Seq<StepModel>) -> bool {
    forall|n: int| 0 <= n < steps.len() ==> !((#[trigger] steps[n]) is RemoveExisting)
}

/// The flag that makes files immutable is left alone.
pub open spec fn leaves_flags(steps: Seq<StepModel>) -> bool {
    forall|n: int|
        0 <= n < steps.len() ==> !((#[trigger] steps[n]) is ClearImmutable)
            && !(steps[n] is SetImmutable)
}

proof fn lemma_brought_concat(a: Seq<StepModel>, b: Seq<StepModel>)
    ensures
        all_brought(a + b) == all_brought(a) + all_brought(b),
    decreases b.len(),
{
    if b.len() == 0 {
        assert(a + b =~= a);
        assert(all_brought(a) + all_brought(b) =~= all_brought(a));
    } else {
        assert((a + b).drop_last() =~= a + b.drop_last());
        assert((a + b).last() == b.last());
        lemma_brought_concat(a, b.drop_last());
        assert(all_brought(a + b) =~= all_brought(a) + all_brought(b));
    }
}

proof fn lemma_cleared_concat(a: Seq<StepModel>, b: Seq<StepModel>)
    requires
        ground_cleared(a),
        ground_cleared(b),
    ensures
        ground_cleared(a + b),
{
    let all = a + b;
    assert forall|n: int| 0 <= n < all.len() implies match brought(#[trigger] all[n]) {
        Some((path, what)) => {
            &&& earlier(all, n, StepModel::EnsureParent(path))
            &&& if what is LinkTo {
                earlier(all, n, StepModel::RemoveExisting(path))
            } else {
                earlier(all, n, StepModel::RemoveLink(path))
            }
        },
        None => true,
    } by {
        if let Some((path, what)) = brought(all[n]) {
            let gone = if what is LinkTo {
                StepModel::RemoveExisting(path)
            } else {
                StepModel::RemoveLink(path)
            };
            let parent = StepModel::EnsureParent(path);
            let offset = if n < a.len() {
                0
            } else {
                a.len() as int
            };
            let part = if n < a.len() {
                a
            } else {
                b
            };
            assert(part[n - offset] == all[n]);
            assert(earlier(part, n - offset, parent));
            assert(earlier(part, n - offset, gone));
            let i = choose|i: int| 0 <= i < n - offset && #[trigger] part[i] == parent;
            let j = choose|j: int| 0 <= j < n - offset && #[trigger] part[j] == gone;
            assert(all[i + offset] == parent);
            assert(all[j + offset] == gone);
        }
    }
}

proof fn lemma_three(steps: Seq<StepModel>, path: Seq<char>, what: Brought)
    requires
        steps.len() == 3,
        steps[0] == StepModel::EnsureParent(path),
        steps[1] == (if what is LinkTo {
            StepModel::RemoveExisting(path)
        } else {
            StepModel::RemoveLink(path)
        }),
        brought(steps[2]) == Some((path, what)),
    ensures
        ground_cleared(steps),
        all_brought(steps) == seq![(path, what)],
{
    reveal_with_fuel(all_brought, 4);
    assert(steps.drop_last().last() == steps[1]);
    assert(steps.drop_last().drop_last().last() == steps[0]);
    assert(all_brought(steps) =~= seq![(path, what)]);
}

proof fn lemma_none_brought(steps: Seq<StepModel>)
    requires
        forall|i: int| 0 <= i < steps.len() ==> brought(#[trigger] steps[i]) is None,
    ensures
        all_brought(steps) == Seq::<(Seq<char>, Brought)>::empty(),
        ground_cleared(steps),
    decreases steps.len(),
{
    if steps.len() > 0 {
        assert forall|i: int| 0 <= i < steps.drop_last().len() implies brought(
            #[trigger] steps.drop_last()[i],
        ) is None by {
            assert(steps.drop_last()[i] == steps[i]);
        }
        lemma_none_brought(steps.drop_last());
        assert(brought(steps[steps.len() - 1]) is None);
    }
}

/// The copies of the files of a directory below a target.
pub open spec fn copies(files: Seq<MergedFile>, target: Seq<char>) -> Seq<(Seq<char>, Brought)> {
    files.map_values(
        |f: MergedFile| (context::below(target, f.rel_path@), Brought::CopyOf(f.source@)),
    )
}

proof fn lemma_members_brought(files: Seq<MergedFile>, target: Seq<char>, n: nat)
    requires
        n <= files.len(),
    ensures
        all_brought(members_steps(files, target, false, n)) == copies(files, target).take(n as int),
        ground_cleared(members_steps(files, target, false, n)),
        keeps_files(members_steps(files, target, false, n)),
        leaves_flags(members_steps(files, target, false, n)),
    decreases n,
{
    if n == 0 {
        lemma_none_brought(members_steps(files, target, false, n));
        assert(copies(files, target).take(0) =~= seq![]);
    } else {
        lemma_members_brought(files, target, (n - 1) as nat);
        let before = members_steps(files, target, false, (n - 1) as nat);
        let here = member_steps(files[n - 1], target, false);
        let path = context::below(target, files[n - 1].rel_path@);
        lemma_three(here, path, Brought::CopyOf(files[n - 1].source@));
        lemma_brought_concat(before, here);
        lemma_cleared_concat(before, here);
        assert(copies(files, target).take(n as int) =~= copies(files, target).take(n - 1)
            + all_brought(here));
    }
}

/// What a deployment is to bring: a linked entry its link, a file its copy, a
/// directory the copy of each of its files below the target, and configuration
/// the rendered text. Whatever stands at the target does not matter.
pub open spec fn to_bring(b: BuildModel, source_is_dir: bool, files: Seq<MergedFile>) -> Seq<
    (Seq<char>, Brought),
> {
    if b.is_symlink {
        seq![(b.target, Brought::LinkTo(b.canonical_source->0))]
    } else if !b.is_plaintext {
        seq![(b.target, Brought::Text(b.content))]
    } else if b.source_path is None {
        seq![]
    } else if source_is_dir {
        copies(files, b.target)
    } else {
        seq![(b.target, Brought::CopyOf(b.source_path->0))]
    }
}

proof fn lemma_body_brought(b: BuildModel, facts: TargetFacts, files: Seq<MergedFile>)
    requires
        !b.is_symlink,
    ensures
        ({
            let body = body_steps(b, false, facts, files);
            &&& all_brought(body) == to_bring(b, facts.source_is_dir, files)
            &&& ground_cleared(body)
            &&& keeps_files(body)
            &&& leaves_flags(body)
        }),
{
    let body = body_steps(b, false, facts, files);
    if b.is_plaintext && b.source_path is None {
        lemma_none_brought(body);
    } else if b.is_plaintext && facts.source_is_dir {
        let first = seq![StepModel::RemoveLink(b.target)];
        lemma_members_brought(files, b.target, files.len());
        lemma_none_brought(first);
        let rest = members_steps(files, b.target, false, files.len());
        lemma_brought_concat(first, rest);
        lemma_cleared_concat(first, rest);
        assert(copies(files, b.target).take(files.len() as int) =~= copies(files, b.target));
        assert(all_brought(body) =~= copies(files, b.target));
    } else {
        let what = if b.is_plaintext {
            Brought::CopyOf(b.source_path->0)
        } else {
            Brought::Text(b.content)
        };
        lemma_three(body, b.target, what);
    }
}

/// A deployment brings exactly what it is to bring, in order, whatever stands at
/// the target: a link for a linked entry, a copy of its source for a file, a copy
/// of each file for a directory, the rendered text for configuration. The ground
/// is cleared before, nothing but a link is removed for the sake of a file, and
/// the immutable flag is touched only where the entry asks for it. It fails only
/// for a linked entry without a source.
pub proof fn law_deployed(b: BuildModel, facts: TargetFacts, files: Seq<MergedFile>)
    ensures
        write_steps(b, false, facts, files) is None <==> b.is_symlink && b.canonical_source is None,
        write_steps(b, false, facts, files) matches Some(steps) ==> {
            &&& all_brought(steps) == to_bring(b, facts.source_is_dir, files)
            &&& ground_cleared(steps)
            &&& !b.is_symlink ==> keeps_files(steps)
            &&& b.is_symlink || !b.immutable ==> leaves_flags(steps)
        },
{
    if b.is_symlink {
        if let Some(source) = b.canonical_source {
            let steps = link_steps(source, b.target, false);
            lemma_three(steps, b.target, Brought::LinkTo(source));
        }
    } else {
        let opening = opening_steps(b, false, facts);
        let body = body_steps(b, false, facts, files);
        let closing = closing_steps(b, false);
        lemma_none_brought(opening);
        lemma_none_brought(closing);
        lemma_body_brought(b, facts, files);
        lemma_brought_concat(opening, body);
        lemma_brought_concat(opening + body, closing);
        lemma_cleared_concat(opening, body);
        lemma_cleared_concat(opening + body, closing);
        let all = opening + body + closing;
        assert(all_brought(all) =~= all_brought(body));
        assert(keeps_files(all)) by {
            assert forall|n: int| 0 <= n < all.len() implies !((
            #[trigger] all[n]) is RemoveExisting) by {
                if opening.len() <= n < opening.len() + body.len() {
                    assert(all[n] == body[n - opening.len()]);
                }
            }
        }
        if !b.immutable {
            assert forall|n: int| 0 <= n < all.len() implies !((
            #[trigger] all[n]) is ClearImmutable) && !(all[n] is SetImmutable) by {
                assert(all[n] == body[n]);
            }
        }
    }
}

/// A file that is not linked is copied to its target, whatever stands there.
pub proof fn law_file_copied(b: BuildModel, facts: TargetFacts, files: Seq<MergedFile>)
    requires
        b.is_plaintext,
        b.source_path is Some,
        !b.is_symlink,
        !facts.source_is_dir,
    ensures
        write_steps(b, false, facts, files) is Some,
        write_steps(b, false, facts, files)->0.contains(
            (StepModel::Copy { source: b.source_path->0, target: b.target }),
        ),
{
    law_deployed(b, facts, files);
    let steps = write_steps(b, false, facts, files)->0;
    lemma_brought_at(steps, (b.target, Brought::CopyOf(b.source_path->0)));
}

/// A step that brings something stands in the plan.
proof fn lemma_brought_at(steps: Seq<StepModel>, x: (Seq<char>, Brought))
    requires
        all_brought(steps).contains(x) || all_brought(steps) == seq![x],
    ensures
        exists|i: int| 0 <= i < steps.len() && brought(#[trigger] steps[i]) == Some(x),
    decreases steps.len(),
{
    if all_brought(steps) == seq![x] {
        assert(seq![x][0] == x);
        assert(all_brought(steps).contains(x));
    }
    if steps.len() > 0 {
        let rest = all_brought(steps.drop_last());
        if brought(steps.last()) == Some(x) {
            assert(brought(steps[steps.len() - 1]) == Some(x));
        } else {
            let k = all_brought(steps).index_of(x);
            assert(rest[k] == x);
            lemma_brought_at(steps.drop_last(), x);
            let i = choose|i: int|
                0 <= i < steps.drop_last().len() && brought(#[trigger] steps.drop_last()[i])
                    == Some(x);
            assert(brought(steps[i]) == Some(x));
        }
    }
}

/// A dry run tells of a linked entry, of a file and of configuration what it would
/// bring; of a directory it tells a line for each file.
pub proof fn law_dry_run_speaks(b: BuildModel, facts: TargetFacts, files: Seq<MergedFile>)
    requires
        b.is_symlink ==> b.canonical_source is Some,
    ensures
        write_steps(b, true, facts, files) is Some,
        write_steps(b, true, facts, files)->0.len() >= to_bring(
            b,
            facts.source_is_dir,
            files,
        ).len(),
{
    lemma_members_told(files, b.target, files.len());
}

proof fn lemma_members_told(files: Seq<MergedFile>, target: Seq<char>, n: nat)
    requires
        n <= files.len(),
    ensures
        members_steps(files, target, true, n).len() >= n,
    decreases n,
{
    if n > 0 {
        lemma_members_told(files, target, (n - 1) as nat);
    }
}

proof fn lemma_home_link(way: Seq<WayPath>, home: Seq<char>, from: nat)
    ensures
        match home_link(way, home, from) {
            Some(i) => {
                &&& from <= i < way.len()
                &&& way[i as int].kind == PathKind::Link
                &&& context::lies_below(way[i as int].path@, home)
                &&& forall|k: int|
                    from <= k < i && (#[trigger] way[k]).kind == PathKind::Link
                        ==> !context::lies_below(way[k].path@, home)
            },
            None => forall|k: int|
                from <= k < way.len() && (#[trigger] way[k]).kind == PathKind::Link
                    ==> !context::lies_below(way[k].path@, home),
        },
    decreases way.len() - from,
{
    if from < way.len() {
        lemma_home_link(way, home, from + 1);
    }
}

/// Something stands nearer than a place.
pub open spec fn stands_nearer(way: Seq<WayPath>, i: int) -> bool {
    exists|k: int| 0 <= k < i && (#[trigger] way[k]).kind != PathKind::Missing
}

proof fn lemma_nearest_link(way: Seq<WayPath>, from: nat)
    ensures
        match nearest_link(way, from) {
            Some(i) => {
                &&& from <= i < way.len()
                &&& way[i as int].kind == PathKind::Link
                &&& forall|k: int| from <= k < i ==> (#[trigger] way[k]).kind == PathKind::Missing
            },
            None => forall|i: int|
                from <= i < way.len() && (#[trigger] way[i]).kind == PathKind::Link ==> stands_nearer(
                    way,
                    i,
                ),
        },
    decreases way.len() - from,
{
    if from < way.len() && way[from as int].kind == PathKind::Missing {
        lemma_nearest_link(way, from + 1);
    } else if from < way.len() && way[from as int].kind == PathKind::Other {
        assert forall|i: int|
            from <= i < way.len() && (#[trigger] way[i]).kind
                == PathKind::Link implies stands_nearer(way, i) by {
            assert(way[from as int].kind != PathKind::Missing);
        }
    }
}

/// What is to go is a link, and the nearest one that may: in the home directory no
/// nearer link lies below it, and outside nothing stands nearer. Where nothing is to
/// go, there is no such link.
pub proof fn law_link_removed(way: Seq<WayPath>, home: Seq<char>)
    requires
        way.len() > 0,
    ensures
        link_in_way(way, home) matches Some(i) ==> i < way.len() && way[i as int].kind
            == PathKind::Link,
        context::lies_in(way[0].path@, home) ==> match link_in_way(way, home) {
            Some(i) => context::lies_below(way[i as int].path@, home) && forall|k: int|
                0 <= k < i && (#[trigger] way[k]).kind == PathKind::Link ==> !context::lies_below(
                    way[k].path@,
                    home,
                ),
            None => forall|k: int|
                0 <= k < way.len() && (#[trigger] way[k]).kind == PathKind::Link
                    ==> !context::lies_below(way[k].path@, home),
        },
        !context::lies_in(way[0].path@, home) ==> match link_in_way(way, home) {
            Some(i) => !stands_nearer(way, i as int),
            None => forall|i: int|
                0 <= i < way.len() && (#[trigger] way[i]).kind == PathKind::Link ==> stands_nearer(
                    way,
                    i,
                ),
        },
{
    lemma_home_link(way, home, 0);
    lemma_nearest_link(way, 0);
}

/// A step tells of a path.
pub open spec fn tells_of(s: StepModel, path: Seq<char>) -> bool {
    s matches StepModel::Log(_, t) && exists|head: Seq<char>, tail: Seq<char>|
        t == #[trigger] (head + path + tail)
}

/// Some step of a list tells of a path.
pub open spec fn told(steps: Seq<StepModel>, path: Seq<char>) -> bool {
    exists|i: int| 0 <= i < steps.len() && tells_of(#[trigger] steps[i], path)
}

proof fn lemma_told_in(a: Seq<StepModel>, b: Seq<StepModel>, c: Seq<StepModel>, path: Seq<char>)
    requires
        told(b, path),
    ensures
        told(a + b + c, path),
{
    let i = choose|i: int| 0 <= i < b.len() && tells_of(#[trigger] b[i], path);
    assert((a + b + c)[a.len() + i] == b[i]);
}

proof fn lemma_member_told(files: Seq<MergedFile>, target: Seq<char>, n: nat, k: int)
    requires
        0 <= k < n <= files.len(),
    ensures
        told(members_steps(files, target, true, n), context::below(target, files[k].rel_path@)),
    decreases n,
{
    let before = members_steps(files, target, true, (n - 1) as nat);
    let here = member_steps(files[n - 1], target, true);
    let none = Seq::<StepModel>::empty();
    let path = context::below(target, files[k].rel_path@);
    if k < n - 1 {
        lemma_member_told(files, target, (n - 1) as nat, k);
        lemma_told_in(none, before, here, path);
        assert(none + before + here =~= before + here);
    } else {
        let tail = if files[k].is_local {
            " (local)"@
        } else {
            ""@
        };
        let t = here[0]->Log_1;
        assert(t =~= "Would copy to "@ + path + tail);
        assert(tells_of(here[0], path));
        lemma_told_in(before, here, none, path);
        assert(before + here + none =~= before + here);
    }
}

/// A dry run tells of every path to which it would bring something.
pub proof fn law_dry_run_names(b: BuildModel, facts: TargetFacts, files: Seq<MergedFile>, k: int)
    requires
        b.is_symlink ==> b.canonical_source is Some,
        0 <= k < to_bring(b, facts.source_is_dir, files).len(),
    ensures
        told(write_steps(b, true, facts, files)->0, to_bring(b, facts.source_is_dir, files)[k].0),
{
    let path = to_bring(b, facts.source_is_dir, files)[k].0;
    let none = Seq::<char>::empty();
    if b.is_symlink {
        let steps = link_steps(b.canonical_source->0, b.target, true);
        let t = steps[0]->Log_1;
        assert(t =~= "Would symlink "@ + path + (" -> "@ + b.canonical_source->0));
        assert(tells_of(steps[0], path));
    } else {
        let opening = opening_steps(b, true, facts);
        let body = body_steps(b, true, facts, files);
        let note = link_note(b.target, facts);
        let empty = Seq::<StepModel>::empty();
        if b.is_plaintext && facts.source_is_dir {
            lemma_member_told(files, b.target, files.len(), k);
            let members = members_steps(files, b.target, true, files.len());
            lemma_told_in(note, members, empty, path);
            assert(note + members + empty =~= body);
        } else {
            let t = body[note.len() as int]->Log_1;
            let head = if b.is_plaintext {
                "Would copy "@ + b.source_path->0 + " to "@
            } else {
                "Would write to "@
            };
            assert(t =~= head + path + none);
            assert(tells_of(body[note.len() as int], path));
        }
        lemma_told_in(opening, body, closing_steps(b, true), path);
    }
}

} // verus!
