//! Pulling deployed files and directories back into the repo.
use crate::compose::merged;
use crate::context;
use crate::globs;
use crate::output::{Level, LogLine};
use crate::pairs;
use crate::text;
use vstd::prelude::*;
use vstd::string::*;

verus! {

/// How a `from_file` entry is pulled.
#[derive(Debug)]
pub enum FilePull {
    /// A dry run: tells what would be done.
    Tell(LogLine),
    /// The deployed directory is copied back, file by file.
    Directory,
    /// The deployed file is copied back.
    File,
    /// There is nothing that can be copied, with the reason.
    Refused(String),
}

/// Pulls a `from_file` entry: a directory into a directory, else a file.
pub fn pull_from_file(
    source_path: &str,
    target: &str,
    target_is_dir: bool,
    source_is_dir: bool,
    target_is_file: bool,
    dry_run: bool,
) -> (r: FilePull)
    ensures
        match r {
            FilePull::Tell(line) => dry_run && line@ == (
                Level::Info,
                "[dry-run] Would pull "@ + target@ + " -> "@ + source_path@,
            ),
            FilePull::Directory => !dry_run && target_is_dir && source_is_dir,
            FilePull::File => !dry_run && !(target_is_dir && source_is_dir) && target_is_file,
            FilePull::Refused(reason) => {
                &&& !dry_run
                &&& !(target_is_dir && source_is_dir)
                &&& !target_is_file
                &&& reason@ == "Cannot pull: target "@ + target@
                    + " does not exist or is not a regular file/directory"@
            },
        },
{
    if dry_run {
        let what = text::concat3("[dry-run] Would pull ", target, " -> ");
        FilePull::Tell(LogLine::new(Level::Info, text::concat2(&what, source_path)))
    } else if target_is_dir && source_is_dir {
        FilePull::Directory
    } else if target_is_file {
        FilePull::File
    } else {
        FilePull::Refused(
            text::concat3(
                "Cannot pull: target ",
                target,
                " does not exist or is not a regular file/directory",
            ),
        )
    }
}

/// Something in a deployed directory.
#[derive(Debug)]
pub struct DeployedEntry {
    /// Its path within the directory.
    pub rel_path: String,
    pub is_dir: bool,
}

/// One step of the pull of a directory.
#[derive(Debug)]
pub enum PullStep {
    /// Makes a directory.
    MakeDir(String),
    /// Makes the directory that a path stands in.
    MakeParent(String),
    /// Copies a file.
    Copy { source: String, target: String },
}

/// A step as mathematics sees it.
pub enum PullStepModel {
    MakeDir(Seq<char>),
    MakeParent(Seq<char>),
    Copy { source: Seq<char>, target: Seq<char> },
}

impl View for PullStep {
    type V = PullStepModel;

    open spec fn view(&self) -> PullStepModel {
        match self {
            PullStep::MakeDir(p) => PullStepModel::MakeDir(p@),
            PullStep::MakeParent(p) => PullStepModel::MakeParent(p@),
            PullStep::Copy { source, target } => PullStepModel::Copy {
                source: source@,
                target: target@,
            },
        }
    }
}

/// What a list of steps holds.
pub open spec fn pull_steps_model(steps: Seq<PullStep>) -> Seq<PullStepModel> {
    steps.map_values(|s: PullStep| s@)
}

/// Some file of this machine stands in a directory.
pub open spec fn holds_local(overrides: Seq<Seq<char>>, dir: Seq<char>) -> bool {
    exists|i: int| 0 <= i < overrides.len() && context::lies_in(#[trigger] overrides[i], dir)
}

/// Where a deployed file is pulled to: a file of this machine back to where it
/// is kept, every other one to the source directory.
pub open spec fn pull_destination(
    source_dir: Seq<char>,
    local_dir: Option<Seq<char>>,
    overrides: Seq<Seq<char>>,
    path: Seq<char>,
) -> Seq<char> {
    match local_dir {
        Some(local) => if overrides.contains(path) {
            context::below(local, path)
        } else {
            context::below(source_dir, path)
        },
        None => context::below(source_dir, path),
    }
}

/// The steps for one thing in a deployed directory; what is left out has none.
pub open spec fn pull_entry_steps(
    deployed_dir: Seq<char>,
    source_dir: Seq<char>,
    local_dir: Option<Seq<char>>,
    overrides: Seq<Seq<char>>,
    exclude: Option<globset::GlobSet>,
    e: DeployedEntry,
) -> Seq<PullStepModel> {
    let path = e.rel_path@;
    if globs::excluded(exclude, path) {
        seq![]
    } else if e.is_dir {
        seq![PullStepModel::MakeDir(context::below(source_dir, path))] + match local_dir {
            Some(local) => if holds_local(overrides, path) {
                seq![PullStepModel::MakeDir(context::below(local, path))]
            } else {
                seq![]
            },
            None => seq![],
        }
    } else {
        let to = pull_destination(source_dir, local_dir, overrides, path);
        seq![
            PullStepModel::MakeParent(to),
            PullStepModel::Copy { source: context::below(deployed_dir, path), target: to },
        ]
    }
}

/// The steps for the first `n` things in a deployed directory.
pub open spec fn pull_directory_steps(
    deployed_dir: Seq<char>,
    source_dir: Seq<char>,
    local_dir: Option<Seq<char>>,
    overrides: Seq<Seq<char>>,
    exclude: Option<globset::GlobSet>,
    entries: Seq<DeployedEntry>,
    n: nat,
) -> Seq<PullStepModel>
    decreases n,
{
    if n == 0 || n > entries.len() {
        seq![]
    } else {
        pull_directory_steps(
            deployed_dir,
            source_dir,
            local_dir,
            overrides,
            exclude,
            entries,
            (n - 1) as nat,
        ) + pull_entry_steps(
            deployed_dir,
            source_dir,
            local_dir,
            overrides,
            exclude,
            entries[n - 1],
        )
    }
}

/// What an optional path holds.
pub open spec fn optional_path(p: Option<&str>) -> Option<Seq<char>> {
    match p {
        Some(s) => Some(s@),
        None => None,
    }
}

fn add_pull_step(steps: &mut Vec<PullStep>, s: PullStep)
    ensures
        pull_steps_model(final(steps)@) == pull_steps_model(old(steps)@).push(s@),
{
    let ghost before = steps@;
    steps.push(s);
    assert(pull_steps_model(steps@) =~= pull_steps_model(before).push(s@));
}

fn has_local(overrides: &[String], dir: &str) -> (r: bool)
    ensures
        r == holds_local(text::texts(overrides@), dir@),
{
    let ghost o = text::texts(overrides@);
    let mut i: usize = 0;
    while i < overrides.len()
        invariant
            i <= overrides@.len(),
            o == text::texts(overrides@),
            forall|k: int| 0 <= k < i ==> !context::lies_in(#[trigger] o[k], dir@),
        decreases overrides@.len() - i,
    {
        assert(o[i as int] == overrides@[i as int]@);
        if context::is_in(&overrides[i], dir) {
            assert(context::lies_in(o[i as int], dir@));
            return true;
        }
        i = i + 1;
    }
    false
}

fn add_entry_steps(
    steps: &mut Vec<PullStep>,
    deployed_dir: &str,
    source_dir: &str,
    local_dir: Option<&str>,
    overrides: &[String],
    exclude: &Option<globset::GlobSet>,
    e: &DeployedEntry,
)
    ensures
        pull_steps_model(final(steps)@) == pull_steps_model(old(steps)@) + pull_entry_steps(
            deployed_dir@,
            source_dir@,
            optional_path(local_dir),
            text::texts(overrides@),
            *exclude,
            *e,
        ),
{
    let ghost before = pull_steps_model(steps@);
    let ghost wanted = pull_entry_steps(
        deployed_dir@,
        source_dir@,
        optional_path(local_dir),
        text::texts(overrides@),
        *exclude,
        *e,
    );
    let path = &e.rel_path;
    if globs::is_excluded(exclude, path) {
    } else if e.is_dir {
        add_pull_step(steps, PullStep::MakeDir(context::join_dir(source_dir, path)));
        match local_dir {
            Some(local) => {
                if has_local(overrides, path) {
                    add_pull_step(steps, PullStep::MakeDir(context::join_dir(local, path)));
                }
            },
            None => {},
        }
    } else {
        let to = match local_dir {
            Some(local) => if text::has_text(overrides, path) {
                context::join_dir(local, path)
            } else {
                context::join_dir(source_dir, path)
            },
            None => context::join_dir(source_dir, path),
        };
        add_pull_step(steps, PullStep::MakeParent(text::owned(&to)));
        let from = context::join_dir(deployed_dir, path);
        add_pull_step(steps, PullStep::Copy { source: from, target: to });
    }
    assert(pull_steps_model(steps@) =~= before + wanted);
}

/// Plans the pull of a deployed directory. The overrides are the paths of the
/// files of this machine.
pub fn pull_directory(
    deployed_dir: &str,
    source_dir: &str,
    local_dir: Option<&str>,
    overrides: &[String],
    exclude: &Option<globset::GlobSet>,
    entries: &[DeployedEntry],
) -> (r: Vec<PullStep>)
    ensures
        pull_steps_model(r@) == pull_directory_steps(
            deployed_dir@,
            source_dir@,
            optional_path(local_dir),
            text::texts(overrides@),
            *exclude,
            entries@,
            entries@.len(),
        ),
{
    let ghost local = optional_path(local_dir);
    let ghost o = text::texts(overrides@);
    let mut steps: Vec<PullStep> = Vec::new();
    assert(pull_steps_model(steps@) =~= seq![]);
    let mut i: usize = 0;
    while i < entries.len()
        invariant
            i <= entries@.len(),
            local == optional_path(local_dir),
            o == text::texts(overrides@),
            pull_steps_model(steps@) == pull_directory_steps(
                deployed_dir@,
                source_dir@,
                local,
                o,
                *exclude,
                entries@,
                i as nat,
            ),
        decreases entries@.len() - i,
    {
        add_entry_steps(
            &mut steps,
            deployed_dir,
            source_dir,
            local_dir,
            overrides,
            exclude,
            &entries[i],
        );
        i = i + 1;
    }
    steps
}

/// The step that copies a deployed file back.
pub open spec fn copy_step(
    deployed_dir: Seq<char>,
    source_dir: Seq<char>,
    local_dir: Option<Seq<char>>,
    overrides: Seq<Seq<char>>,
    path: Seq<char>,
) -> PullStepModel {
    PullStepModel::Copy {
        source: context::below(deployed_dir, path),
        target: pull_destination(source_dir, local_dir, overrides, path),
    }
}

/// A pull of a directory copies a file back exactly where it is deployed and not
/// left out: a file that this machine overrides to the directory of this
/// machine, and any other to the source directory.
pub proof fn law_pulled_files(
    deployed_dir: Seq<char>,
    source_dir: Seq<char>,
    local_dir: Option<Seq<char>>,
    overrides: Seq<Seq<char>>,
    exclude: Option<globset::GlobSet>,
    entries: Seq<DeployedEntry>,
    n: nat,
)
    requires
        n <= entries.len(),
    ensures
        ({
            let steps = pull_directory_steps(
                deployed_dir,
                source_dir,
                local_dir,
                overrides,
                exclude,
                entries,
                n,
            );
            &&& forall|i: int|
                0 <= i < steps.len() && (#[trigger] steps[i]) is Copy ==> exists|k: int|
                    {
                        &&& 0 <= k < n
                        &&& !(#[trigger] entries[k]).is_dir
                        &&& !globs::excluded(exclude, entries[k].rel_path@)
                        &&& steps[i] == copy_step(
                            deployed_dir,
                            source_dir,
                            local_dir,
                            overrides,
                            entries[k].rel_path@,
                        )
                    }
            &&& forall|k: int|
                0 <= k < n && !(#[trigger] entries[k]).is_dir && !globs::excluded(
                    exclude,
                    entries[k].rel_path@,
                ) ==> steps.contains(
                    copy_step(
                        deployed_dir,
                        source_dir,
                        local_dir,
                        overrides,
                        entries[k].rel_path@,
                    ),
                )
        }),
    decreases n,
{
    if n > 0 {
        let m = (n - 1) as nat;
        law_pulled_files(
            deployed_dir,
            source_dir,
            local_dir,
            overrides,
            exclude,
            entries,
            m,
        );
        let before = pull_directory_steps(
            deployed_dir,
            source_dir,
            local_dir,
            overrides,
            exclude,
            entries,
            m,
        );
        let own = pull_entry_steps(
            deployed_dir,
            source_dir,
            local_dir,
            overrides,
            exclude,
            entries[n - 1],
        );
        let steps = before + own;
        assert forall|i: int| 0 <= i < steps.len() && (#[trigger] steps[i]) is Copy implies exists|
            k: int,
        |
            {
                &&& 0 <= k < n
                &&& !(#[trigger] entries[k]).is_dir
                &&& !globs::excluded(exclude, entries[k].rel_path@)
                &&& steps[i] == copy_step(
                    deployed_dir,
                    source_dir,
                    local_dir,
                    overrides,
                    entries[k].rel_path@,
                )
            } by {
            if i < before.len() {
                assert(steps[i] == before[i]);
            } else {
                assert(steps[i] == own[i - before.len()]);
                assert(!entries[n - 1].is_dir);
            }
        }
        assert forall|k: int|
            0 <= k < n && !(#[trigger] entries[k]).is_dir && !globs::excluded(
                exclude,
                entries[k].rel_path@,
            ) implies steps.contains(
            copy_step(deployed_dir, source_dir, local_dir, overrides, entries[k].rel_path@),
        ) by {
            let step = copy_step(
                deployed_dir,
                source_dir,
                local_dir,
                overrides,
                entries[k].rel_path@,
            );
            if k < m {
                assert(before.contains(step));
                let i = choose|i: int| 0 <= i < before.len() && before[i] == step;
                assert(steps[i] == step);
            } else {
                assert(own[1] == step);
                assert(steps[before.len() as int + 1] == step);
            }
        }
    }
}

/// Files stand in a directory, each below it under its path.
pub open spec fn kept_in(files: Seq<(Seq<char>, Seq<char>)>, dir: Seq<char>) -> bool {
    forall|i: int| 0 <= i < files.len() ==> (#[trigger] files[i]).1 == context::below(dir, files[i].0)
}

/// A deployed file is pulled back to where it was deployed from: a file of this
/// machine to its place among those, a shared one to the source directory.
pub proof fn law_pulled_to_source(
    files: Seq<merged::MergedFile>,
    shared: Seq<(Seq<char>, Seq<char>)>,
    local: Seq<(Seq<char>, Seq<char>)>,
    exclude: Option<globset::GlobSet>,
    deployed_dir: Seq<char>,
    source_dir: Seq<char>,
    local_dir: Seq<char>,
    overrides: Seq<Seq<char>>,
    e: DeployedEntry,
    i: int,
)
    requires
        merged::merged_right(files, shared, local, exclude),
        kept_in(shared, source_dir),
        kept_in(local, local_dir),
        forall|path: Seq<char>| #[trigger]
            overrides.contains(path) <==> pairs::lookup(local, path) is Some,
        0 <= i < files.len(),
        !e.is_dir,
        e.rel_path@ == files[i].rel_path@,
    ensures
        pull_entry_steps(
            deployed_dir,
            source_dir,
            Some(local_dir),
            overrides,
            exclude,
            e,
        ).last() == (PullStepModel::Copy {
            source: context::below(deployed_dir, e.rel_path@),
            target: files[i].source@,
        }),
{
    let path = files[i].rel_path@;
    assert(!globs::excluded(exclude, path));
    assert(merged::merged_source(shared, local, path) == Some(
        (files[i].source@, files[i].is_local),
    ));
    let in_local = pairs::lemma_lookup(local, path);
    let in_shared = pairs::lemma_lookup(shared, path);
    if pairs::lookup(local, path) is Some {
        assert(overrides.contains(path));
        assert(local[in_local].1 == context::below(local_dir, path));
    } else {
        assert(!overrides.contains(path));
        assert(shared[in_shared].1 == context::below(source_dir, path));
    }
}

/// A pull of a directory makes each deployed directory that is not left out in the
/// source directory, and among the files of this machine exactly those in which
/// such a file is kept.
pub proof fn law_directories_made(
    deployed_dir: Seq<char>,
    source_dir: Seq<char>,
    local_dir: Option<Seq<char>>,
    overrides: Seq<Seq<char>>,
    exclude: Option<globset::GlobSet>,
    e: DeployedEntry,
    rest: Seq<char>,
)
    requires
        e.is_dir,
        !globs::excluded(exclude, e.rel_path@),
        e.rel_path@.len() > 0,
        e.rel_path@.last() != '/',
    ensures
        ({
            let steps = pull_entry_steps(
                deployed_dir,
                source_dir,
                local_dir,
                overrides,
                exclude,
                e,
            );
            let path = e.rel_path@;
            &&& steps[0] == PullStepModel::MakeDir(context::below(source_dir, path))
            &&& local_dir is Some && overrides.contains(path + "/"@ + rest) ==> steps.len() == 2
                && steps[1] == PullStepModel::MakeDir(context::below(local_dir->0, path))
            &&& local_dir is None ==> steps.len() == 1
            &&& (forall|i: int|
                0 <= i < overrides.len() ==> !text::begins(#[trigger] overrides[i], path))
                ==> steps.len() == 1
        }),
{
    let path = e.rel_path@;
    reveal_strlit("/");
    context::law_lies(path, rest, 'a');
    assert(context::bare_dir(path) == path);
    let kept = path + "/"@ + rest;
    if overrides.contains(kept) {
        let i = overrides.index_of(kept);
        assert(context::lies_in(overrides[i], path));
    }
    if forall|i: int| 0 <= i < overrides.len() ==> !text::begins(#[trigger] overrides[i], path) {
        if holds_local(overrides, path) {
            let i = choose|i: int|
                0 <= i < overrides.len() && context::lies_in(#[trigger] overrides[i], path);
            let slashed = path + "/"@;
            if overrides[i] == path {
                assert(path.take(path.len() as int) =~= path);
            } else {
                assert(overrides[i].take(slashed.len() as int) == slashed);
                assert(overrides[i].take(path.len() as int) =~= slashed.take(path.len() as int));
                assert(slashed.take(path.len() as int) =~= path);
            }
            assert(text::begins(overrides[i], path));
        }
    }
}

} // verus!
