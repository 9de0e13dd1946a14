//! What a build and its target have in common, and what not.
use crate::compose::{BuildModel, BuildResult};
use crate::context;
use crate::diff;
use crate::diff::agreement;
use crate::diff::DiffResult;
use crate::formats;
use crate::formats::Format;
use crate::json;
use crate::output;
use crate::output::Tone;
use crate::text;
use vstd::prelude::*;
use vstd::string::*;

verus! {

/// How a file of a directory stands at the target.
#[derive(Debug, Clone, Copy, PartialEq, Eq, Structural)]
pub enum FileState {
    Same,
    Modified,
    Missing,
}

/// A file of a directory and how it stands at the target.
#[derive(Debug)]
pub struct DirFile {
    /// Its path within the directory.
    pub rel_path: String,
    pub state: FileState,
    /// Whether a link stands at its place.
    pub is_symlink: bool,
}

/// What is read of a build's source and target.
#[derive(Debug)]
pub struct DiffFacts {
    pub target_exists: bool,
    /// The files of a source directory, where the source is one.
    pub files: Option<Vec<DirFile>>,
    /// The text of a source file, where it could be read.
    pub source: Option<String>,
    /// The text of the target, where it could be read.
    pub deployed: Option<String>,
}

/// The line that shows a file of a directory that differs.
pub open spec fn dir_file_line(f: DirFile, styled: bool) -> Seq<char> {
    if f.state == FileState::Missing {
        output::painted("+ "@ + f.rel_path@, Tone::Green, styled)
    } else {
        output::painted("~ "@ + f.rel_path@, Tone::Yellow, styled)
    }
}

/// The lines that show those of the first `n` files of a directory that differ.
pub open spec fn dir_lines(files: Seq<DirFile>, styled: bool, n: nat) -> Seq<Seq<char>>
    decreases n,
{
    if n == 0 || n > files.len() {
        seq![]
    } else {
        let before = dir_lines(files, styled, (n - 1) as nat);
        if files[n - 1].state == FileState::Same {
            before
        } else {
            before.push(dir_file_line(files[n - 1], styled))
        }
    }
}

/// The lines that show how a build and its target differ. A linked entry, a
/// target that is not there and a text that cannot be read show no difference.
pub open spec fn result_lines(b: BuildModel, facts: DiffFacts, styled: bool) -> Seq<Seq<char>> {
    if b.is_symlink || !facts.target_exists {
        seq![]
    } else if b.is_plaintext {
        match (b.source_path, facts.files, facts.source, facts.deployed) {
            (None, _, _, _) => seq![],
            (Some(_), Some(files), _, _) => dir_lines(files@, styled, files@.len()),
            (Some(_), None, Some(source), Some(deployed)) => diff::config_lines(
                Format::Plaintext,
                source@,
                deployed@,
                b.ignore_keys,
                styled,
            ),
            _ => seq![],
        }
    } else {
        match facts.deployed {
            Some(deployed) => diff::config_lines(
                formats::format_of(formats::extension(b.name)),
                b.content,
                deployed@,
                b.ignore_keys,
                styled,
            ),
            None => seq![],
        }
    }
}

proof fn lemma_dir_styling(files: Seq<DirFile>, n: nat)
    ensures
        dir_lines(files, true, n).len() == dir_lines(files, false, n).len(),
    decreases n,
{
    if n > 0 {
        lemma_dir_styling(files, (n - 1) as nat);
    }
}

/// A build and its target show as many differences in colour as without.
pub proof fn law_result_styling(b: BuildModel, facts: DiffFacts)
    ensures
        result_lines(b, facts, true).len() == result_lines(b, facts, false).len(),
{
    if let Some(files) = facts.files {
        lemma_dir_styling(files@, files@.len());
    }
    if let Some(deployed) = facts.deployed {
        if let Some(source) = facts.source {
            diff::law_config_styling(Format::Plaintext, source@, deployed@, b.ignore_keys);
        }
        diff::law_config_styling(
            formats::format_of(formats::extension(b.name)),
            b.content,
            deployed@,
            b.ignore_keys,
        );
    }
}

proof fn lemma_dir_lines(files: Seq<DirFile>, styled: bool, n: nat)
    requires
        n <= files.len(),
    ensures
        dir_lines(files, styled, n).len() == 0 <==> forall|i: int|
            0 <= i < n ==> (#[trigger] files[i]).state == FileState::Same,
    decreases n,
{
    if n > 0 {
        lemma_dir_lines(files, styled, (n - 1) as nat);
    }
}

/// A directory shows no difference exactly where each of its files is the same
/// at the target.
pub proof fn law_directory_same(files: Seq<DirFile>, styled: bool)
    ensures
        dir_lines(files, styled, files.len()).len() == 0 <==> forall|i: int|
            0 <= i < files.len() ==> (#[trigger] files[i]).state == FileState::Same,
{
    lemma_dir_lines(files, styled, files.len());
}

fn diff_files(files: &Vec<DirFile>, styled: bool) -> (r: DiffResult)
    ensures
        r@ == diff::outcome(dir_lines(files@, styled, files@.len())),
{
    let mut lines: Vec<String> = Vec::new();
    assert(text::texts(lines@) =~= seq![]);
    let mut i: usize = 0;
    while i < files.len()
        invariant
            i <= files@.len(),
            text::texts(lines@) == dir_lines(files@, styled, i as nat),
        decreases files@.len() - i,
    {
        let f = &files[i];
        if f.state != FileState::Same {
            let line = if f.state == FileState::Missing {
                output::paint(&text::concat2("+ ", &f.rel_path), Tone::Green, styled)
            } else {
                output::paint(&text::concat2("~ ", &f.rel_path), Tone::Yellow, styled)
            };
            proof {
                text::lemma_texts_push(lines@, line);
            }
            lines.push(line);
        }
        i = i + 1;
    }
    assert(text::texts(lines@).len() == lines@.len());
    if lines.len() == 0 {
        DiffResult::no_changes()
    } else {
        DiffResult::with_changes(text::join(&lines, "\n"))
    }
}

/// Compares a build with its target.
pub fn compute_diff_for_result(result: &BuildResult, facts: &DiffFacts, styled: bool) -> (r:
    DiffResult)
    ensures
        r@ == diff::outcome(result_lines(result@, *facts, styled)),
{
    if result.is_symlink || !facts.target_exists {
        return DiffResult::no_changes();
    }
    if result.is_plaintext {
        if result.source_path.is_none() {
            return DiffResult::no_changes();
        }
        match &facts.files {
            Some(files) => diff_files(files, styled),
            None => match (&facts.source, &facts.deployed) {
                (Some(source), Some(deployed)) => diff::diff_configs_styled(
                    Format::Plaintext,
                    source,
                    deployed,
                    &result.ignore_keys,
                    styled,
                ),
                _ => DiffResult::no_changes(),
            },
        }
    } else {
        match &facts.deployed {
            Some(deployed) => diff::diff_configs_styled(
                Format::from_path(&result.name),
                &result.content,
                deployed,
                &result.ignore_keys,
                styled,
            ),
            None => DiffResult::no_changes(),
        }
    }
}

/// All that differs in a directory is that files of it are links.
pub open spec fn only_links_differ(files: Seq<DirFile>) -> bool {
    &&& forall|i: int| 0 <= i < files.len() ==> (#[trigger] files[i]).state == FileState::Same
    &&& exists|i: int| 0 <= i < files.len() && (#[trigger] files[i]).is_symlink
}

/// Whether all that differs in a directory is that files of it are links.
pub fn only_structural_symlink_changes(files: &Vec<DirFile>) -> (r: bool)
    ensures
        r == only_links_differ(files@),
{
    let mut linked = false;
    let mut i: usize = 0;
    while i < files.len()
        invariant
            i <= files@.len(),
            forall|k: int| 0 <= k < i ==> (#[trigger] files@[k]).state == FileState::Same,
            linked == (exists|k: int| 0 <= k < i && (#[trigger] files@[k]).is_symlink),
        decreases files@.len() - i,
    {
        if files[i].state != FileState::Same {
            return false;
        }
        if files[i].is_symlink {
            linked = true;
        }
        i = i + 1;
    }
    linked
}

/// A path and whether a link stands at it.
#[derive(Debug)]
pub struct PathLink {
    pub path: String,
    pub is_link: bool,
}

/// A link stands at one of the paths: at the first, or at another that lies below
/// the home directory.
pub open spec fn link_on_way(way: Seq<PathLink>, home: Seq<char>) -> bool {
    exists|i: int|
        0 <= i < way.len() && (#[trigger] way[i]).is_link && (i == 0 || context::lies_below(
            way[i].path@,
            home,
        ))
}

/// Whether a link stands at the target, or above it below the home directory,
/// though the entry is not to be linked. The first path is the target, the others
/// are the directories above it.
pub fn target_is_unexpected_symlink(is_symlink: bool, way: &[PathLink], home_dir: &str) -> (r: bool)
    ensures
        r == (!is_symlink && link_on_way(way@, home_dir@)),
{
    if is_symlink {
        return false;
    }
    let mut i: usize = 0;
    while i < way.len()
        invariant
            i <= way@.len(),
            !is_symlink,
            forall|k: int|
                0 <= k < i ==> !((#[trigger] way@[k]).is_link && (k == 0 || context::lies_below(
                    way@[k].path@,
                    home_dir@,
                ))),
        decreases way@.len() - i,
    {
        if way[i].is_link && (i == 0 || context::is_below(&way[i].path, home_dir)) {
            assert(way@[i as int].is_link);
            return true;
        }
        i = i + 1;
    }
    false
}

/// How a file stands at the target, given what could be read of the source and of
/// the target.
pub fn file_state(source: Option<&[u8]>, deployed: Option<&[u8]>) -> (r: FileState)
    ensures
        r == (match (source, deployed) {
            (_, None) => FileState::Missing,
            (Some(s), Some(d)) => if s@ == d@ {
                FileState::Same
            } else {
                FileState::Modified
            },
            (None, Some(_)) => FileState::Modified,
        }),
{
    match (source, deployed) {
        (_, None) => FileState::Missing,
        (Some(s), Some(d)) => if same_bytes(s, d) {
            FileState::Same
        } else {
            FileState::Modified
        },
        (None, Some(_)) => FileState::Modified,
    }
}

fn same_bytes(a: &[u8], b: &[u8]) -> (r: bool)
    ensures
        r == (a@ == b@),
{
    if a.len() != b.len() {
        return false;
    }
    let mut i: usize = 0;
    while i < a.len()
        invariant
            i <= a@.len(),
            a@.len() == b@.len(),
            forall|k: int| 0 <= k < i ==> a@[k] == b@[k],
        decreases a@.len() - i,
    {
        if a[i] != b[i] {
            return false;
        }
        i = i + 1;
    }
    assert(a@ =~= b@);
    true
}

/// Whether some file of a directory is a link.
pub fn has_inner_link(files: &Option<Vec<DirFile>>) -> (r: bool)
    ensures
        r == (files matches Some(list) && exists|i: int|
            0 <= i < list@.len() && (#[trigger] list@[i]).is_symlink),
{
    match files {
        Some(list) => {
            let mut i: usize = 0;
            while i < list.len()
                invariant
                    i <= list@.len(),
                    *files == Some(*list),
                    forall|k: int| 0 <= k < i ==> !(#[trigger] list@[k]).is_symlink,
                decreases list@.len() - i,
            {
                if list[i].is_symlink {
                    assert(list@[i as int].is_symlink);
                    return true;
                }
                i = i + 1;
            }
            false
        },
        None => false,
    }
}

/// Whether a build and its target are in sync; `None` where that cannot be told.
pub open spec fn sync_state(b: BuildModel, facts: DiffFacts) -> Option<bool> {
    let readable = if b.is_plaintext {
        facts.files is Some || (facts.source is Some && facts.deployed is Some)
    } else {
        facts.deployed is Some
    };
    if b.is_symlink || !facts.target_exists || !readable {
        None
    } else {
        Some(result_lines(b, facts, false).len() == 0)
    }
}

/// Tells whether a build and its target are in sync.
pub fn check_file_sync(result: &BuildResult, facts: &DiffFacts) -> (r: Option<bool>)
    ensures
        r == sync_state(result@, *facts),
{
    let readable = if result.is_plaintext {
        facts.files.is_some() || (facts.source.is_some() && facts.deployed.is_some())
    } else {
        facts.deployed.is_some()
    };
    if result.is_symlink || !facts.target_exists || !readable {
        None
    } else {
        Some(!compute_diff_for_result(result, facts, false).has_changes)
    }
}

/// What has just been pushed is in sync: rendered configuration whose target
/// holds the rendered text, and a file whose target holds the text of its source.
pub proof fn law_pushed_in_sync(b: BuildModel, facts: DiffFacts)
    requires
        !b.is_symlink,
        facts.target_exists,
        facts.files is None,
        facts.deployed is Some,
        if b.is_plaintext {
            facts.source is Some && facts.source->0@ == facts.deployed->0@
        } else {
            facts.deployed->0@ == b.content
        },
    ensures
        sync_state(b, facts) == Some(true),
{
    if b.is_plaintext {
        diff::law_config_same(
            Format::Plaintext,
            facts.source->0@,
            b.ignore_keys,
            false,
        );
    } else {
        diff::law_config_same(
            formats::format_of(formats::extension(b.name)),
            b.content,
            b.ignore_keys,
            false,
        );
    }
}

/// Rendered configuration and its target are in sync, and show no difference,
/// exactly where both texts hold the same, those keys aside that the build
/// ignores.
pub proof fn law_config_in_sync(b: BuildModel, facts: DiffFacts, styled: bool)
    requires
        !b.is_symlink,
        !b.is_plaintext,
        facts.target_exists,
        facts.deployed is Some,
        formats::format_of(formats::extension(b.name)) != Format::SpaceDelimitedPairs,
        formats::format_of(formats::extension(b.name)) != Format::Plaintext,
        ({
            let format = formats::format_of(formats::extension(b.name));
            let g = formats::parsed(format, b.content);
            let d = formats::parsed(format, facts.deployed->0@);
            g is Some && d is Some && json::well_formed(g->0) && json::well_formed(d->0)
        }),
    ensures
        ({
            let format = formats::format_of(formats::extension(b.name));
            let same = agreement::agree(
                formats::parsed(format, b.content)->0,
                formats::parsed(format, facts.deployed->0@)->0,
                b.ignore_keys,
                seq![],
            );
            &&& result_lines(b, facts, styled).len() == 0 <==> same
            &&& sync_state(b, facts) == Some(same)
        }),
{
    let format = formats::format_of(formats::extension(b.name));
    let deployed = facts.deployed->0@;
    agreement::law_texts_agree(format, b.content, deployed, b.ignore_keys, styled);
    agreement::law_texts_agree(format, b.content, deployed, b.ignore_keys, false);
}

/// A file, and configuration in a format that is compared line by line, is in
/// sync with its target, and shows no difference, exactly where both have the same
/// lines, those aside in which a pattern of the build is found.
pub proof fn law_lines_in_sync(b: BuildModel, facts: DiffFacts, styled: bool)
    requires
        !b.is_symlink,
        facts.target_exists,
        facts.deployed is Some,
        b.is_plaintext ==> b.source_path is Some && facts.files is None && facts.source is Some,
        !b.is_plaintext ==> formats::format_of(formats::extension(b.name))
            == Format::SpaceDelimitedPairs || formats::format_of(formats::extension(b.name))
            == Format::Plaintext,
    ensures
        ({
            let generated = if b.is_plaintext {
                facts.source->0@
            } else {
                b.content
            };
            let same = agreement::counting_lines(generated, b.ignore_keys)
                == agreement::counting_lines(facts.deployed->0@, b.ignore_keys);
            &&& result_lines(b, facts, styled).len() == 0 <==> same
            &&& sync_state(b, facts) == Some(same)
        }),
{
    let deployed = facts.deployed->0@;
    let (format, generated) = if b.is_plaintext {
        (Format::Plaintext, facts.source->0@)
    } else {
        (formats::format_of(formats::extension(b.name)), b.content)
    };
    agreement::law_lines_agree(format, generated, deployed, b.ignore_keys, styled);
    agreement::law_lines_agree(format, generated, deployed, b.ignore_keys, false);
}

/// A directory is in sync with its target, and shows no difference, exactly where
/// each of its files is the same there.
pub proof fn law_directory_in_sync(b: BuildModel, facts: DiffFacts, styled: bool)
    requires
        !b.is_symlink,
        b.is_plaintext,
        b.source_path is Some,
        facts.target_exists,
        facts.files is Some,
    ensures
        ({
            let files = facts.files->0@;
            let same = forall|i: int|
                0 <= i < files.len() ==> (#[trigger] files[i]).state == FileState::Same;
            &&& result_lines(b, facts, styled).len() == 0 <==> same
            &&& sync_state(b, facts) == Some(same)
        }),
{
    law_directory_same(facts.files->0@, styled);
    law_directory_same(facts.files->0@, false);
}

/// What is linked, and what has no target, is not compared.
pub proof fn law_not_compared(b: BuildModel, facts: DiffFacts, styled: bool)
    requires
        b.is_symlink || !facts.target_exists,
    ensures
        result_lines(b, facts, styled).len() == 0,
        sync_state(b, facts) is None,
{
}

/// A directory shows a line for each file that differs, and for no other: behind a
/// plus where the file is missing, and behind a tilde where it is modified.
pub proof fn law_directory_lines(files: Seq<DirFile>, n: nat)
    requires
        n <= files.len(),
    ensures
        forall|i: int|
            0 <= i < n && (#[trigger] files[i]).state == FileState::Missing ==> dir_lines(
                files,
                false,
                n,
            ).contains("+ "@ + files[i].rel_path@),
        forall|i: int|
            0 <= i < n && (#[trigger] files[i]).state == FileState::Modified ==> dir_lines(
                files,
                false,
                n,
            ).contains("~ "@ + files[i].rel_path@),
        dir_lines(files, false, n).len() == n - same_count(files, n),
    decreases n,
{
    if n > 0 {
        law_directory_lines(files, (n - 1) as nat);
        let before = dir_lines(files, false, (n - 1) as nat);
        let all = dir_lines(files, false, n);
        if files[n - 1].state != FileState::Same {
            assert(all[before.len() as int] == dir_file_line(files[n - 1], false));
        }
        assert forall|i: int|
            0 <= i < n && (#[trigger] files[i]).state == FileState::Missing implies all.contains(
            "+ "@ + files[i].rel_path@,
        ) by {
            if i < n - 1 {
                assert(before.contains("+ "@ + files[i].rel_path@));
                let k = before.index_of("+ "@ + files[i].rel_path@);
                assert(all[k] == before[k]);
            }
        }
        assert forall|i: int|
            0 <= i < n && (#[trigger] files[i]).state == FileState::Modified implies all.contains(
            "~ "@ + files[i].rel_path@,
        ) by {
            if i < n - 1 {
                assert(before.contains("~ "@ + files[i].rel_path@));
                let k = before.index_of("~ "@ + files[i].rel_path@);
                assert(all[k] == before[k]);
            }
        }
    }
}

/// How many of the first `n` files of a directory are the same at the target.
pub open spec fn same_count(files: Seq<DirFile>, n: nat) -> nat
    decreases n,
{
    if n == 0 || n > files.len() {
        0
    } else {
        same_count(files, (n - 1) as nat) + if files[n - 1].state == FileState::Same {
            1nat
        } else {
            0
        }
    }
}

/// Where no link stands, none is on the way; a link at the target is, and so is one
/// at a directory below the home directory; links at the home directory and above
/// it are not.
pub proof fn law_link_on_way(way: Seq<PathLink>, home: Seq<char>, i: int)
    requires
        0 <= i < way.len(),
        way[i].is_link,
        forall|k: int| 0 <= k < way.len() && k != i ==> !(#[trigger] way[k]).is_link,
    ensures
        i == 0 ==> link_on_way(way, home),
        i > 0 ==> (link_on_way(way, home) <==> text::begins(
            way[i].path@,
            context::bare_dir(home) + "/"@,
        )),
{
}

/// All that differs in a directory is that files of it are links exactly where it
/// shows no difference and yet is not as it should be.
pub proof fn law_only_links(files: Seq<DirFile>, styled: bool)
    ensures
        only_links_differ(files) <==> dir_lines(files, styled, files.len()).len() == 0 && exists|
            i: int,
        |
            0 <= i < files.len() && (#[trigger] files[i]).is_symlink,
{
    law_directory_same(files, styled);
}

} // verus!
