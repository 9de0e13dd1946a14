//! Building what a package deploys.
use crate::context;
use crate::context::Context;
use crate::formats;
use crate::formats::get_renderer;
use crate::metadata;
use crate::nickel::schema;
use crate::nickel::schema::{FileEntry, OrderPackage};
use crate::output;
use crate::output::{Level, LogLine};
use crate::text;
use vstd::prelude::*;
use vstd::string::*;

pub mod merged;
pub mod write;

verus! {

/// Result of building a single file entry target.
#[derive(Debug)]
pub struct BuildResult {
    /// Target path, expanded.
    pub target: String,
    /// Rendered content; empty for a plaintext copy.
    pub content: String,
    /// Whether this is a plaintext copy.
    pub is_plaintext: bool,
    /// Source path of a plaintext copy.
    pub source_path: Option<String>,
    /// Name of the file entry.
    pub name: String,
    /// Ignored keys of the package and of the entry.
    pub ignore_keys: Vec<String>,
    /// Whether this entry is linked instead of copied.
    pub is_symlink: bool,
    /// Absolute source path of a linked entry.
    pub canonical_source: Option<String>,
    /// Glob patterns of files to leave out of a directory.
    pub exclude_patterns: Vec<String>,
    /// The directory with files of this machine.
    pub local_dir: Option<String>,
    /// Whether the deployed file is made immutable.
    pub immutable: bool,
}

/// A build result as mathematics sees it.
pub struct BuildModel {
    pub target: Seq<char>,
    pub content: Seq<char>,
    pub is_plaintext: bool,
    pub source_path: Option<Seq<char>>,
    pub name: Seq<char>,
    pub ignore_keys: Seq<Seq<char>>,
    pub is_symlink: bool,
    pub canonical_source: Option<Seq<char>>,
    pub exclude_patterns: Seq<Seq<char>>,
    pub local_dir: Option<Seq<char>>,
    pub immutable: bool,
}

impl View for BuildResult {
    type V = BuildModel;

    open spec fn view(&self) -> BuildModel {
        BuildModel {
            target: self.target@,
            content: self.content@,
            is_plaintext: self.is_plaintext,
            source_path: metadata::optional_text(self.source_path),
            name: self.name@,
            ignore_keys: text::texts(self.ignore_keys@),
            is_symlink: self.is_symlink,
            canonical_source: metadata::optional_text(self.canonical_source),
            exclude_patterns: text::texts(self.exclude_patterns@),
            local_dir: metadata::optional_text(self.local_dir),
            immutable: self.immutable,
        }
    }
}

/// What the file system says of the source of a file entry.
#[derive(Debug)]
pub struct SourceFacts {
    /// Whether the source is there.
    pub exists: bool,
    /// Its absolute path with links resolved, where that could be found.
    pub canonical: Option<String>,
}

/// Why a file entry could not be built.
#[derive(Debug)]
pub enum BuildError {
    /// The source of an entry is not there.
    SourceNotFound { name: String, path: String },
    /// The absolute path of a source could not be found.
    NotCanonical { path: String },
    /// The format of an entry cannot hold its configuration, with the renderer's
    /// message.
    NotRendered { message: String },
    /// An entry has neither kind of source.
    NoSource { name: String },
}

/// Why a file entry could not be built, as mathematics sees it.
pub enum BuildErrorModel {
    SourceNotFound { name: Seq<char>, path: Seq<char> },
    NotCanonical { path: Seq<char> },
    NotRendered { message: Seq<char> },
    NoSource { name: Seq<char> },
}

impl View for BuildError {
    type V = BuildErrorModel;

    open spec fn view(&self) -> BuildErrorModel {
        match self {
            BuildError::SourceNotFound { name, path } => BuildErrorModel::SourceNotFound {
                name: name@,
                path: path@,
            },
            BuildError::NotCanonical { path } => BuildErrorModel::NotCanonical { path: path@ },
            BuildError::NotRendered { message } => BuildErrorModel::NotRendered {
                message: message@,
            },
            BuildError::NoSource { name } => BuildErrorModel::NoSource { name: name@ },
        }
    }
}

/// What a build error is reported as.
pub open spec fn build_error_text(e: BuildErrorModel) -> Seq<char> {
    match e {
        BuildErrorModel::SourceNotFound { name, path } => "File entry '"@ + name
            + "': source file not found at "@ + path,
        BuildErrorModel::NotCanonical { path } => "Failed to canonicalize source path "@ + path,
        BuildErrorModel::NotRendered { message } => message,
        BuildErrorModel::NoSource { name } => "File entry '"@ + name
            + "' has neither 'from_file' nor 'from_config'"@,
    }
}

impl BuildError {
    /// The message that reports the error.
    pub fn message(&self) -> (r: String)
        ensures
            r@ == build_error_text(self@),
    {
        match self {
            BuildError::SourceNotFound { name, path } => text::concat2(
                &text::concat3("File entry '", name, "': source file not found at "),
                path,
            ),
            BuildError::NotCanonical { path } => text::concat2(
                "Failed to canonicalize source path ",
                path,
            ),
            BuildError::NotRendered { message } => text::owned(message),
            BuildError::NoSource { name } => text::concat3(
                "File entry '",
                name,
                "' has neither 'from_file' nor 'from_config'",
            ),
        }
    }
}

// ---------------------------------------------------------------------------
// One entry
// ---------------------------------------------------------------------------

/// What an optional path is below a directory.
pub open spec fn optional_below(dir: Seq<char>, path: Option<String>) -> Option<Seq<char>> {
    match path {
        Some(p) => Some(context::below(dir, p@)),
        None => None,
    }
}

/// The build of a file entry for one target: a copy or link of a source that is
/// there, or rendered configuration.
pub open spec fn built_entry(
    pkg_dir: Seq<char>,
    entry: FileEntry,
    target: Seq<char>,
    ignore_keys: Seq<Seq<char>>,
    facts: SourceFacts,
) -> Result<BuildModel, BuildErrorModel> {
    match (entry.from_file, entry.from_config) {
        (Some(file), _) => {
            let source = context::below(pkg_dir, file@);
            if !facts.exists {
                Err(BuildErrorModel::SourceNotFound { name: entry.name@, path: source })
            } else if entry.symlink && facts.canonical is None {
                Err(BuildErrorModel::NotCanonical { path: source })
            } else {
                Ok(
                    BuildModel {
                        target,
                        content: seq![],
                        is_plaintext: true,
                        source_path: Some(source),
                        name: entry.name@,
                        ignore_keys,
                        is_symlink: entry.symlink,
                        canonical_source: if entry.symlink {
                            metadata::optional_text(facts.canonical)
                        } else {
                            None
                        },
                        exclude_patterns: text::texts(entry.exclude@),
                        local_dir: optional_below(pkg_dir, entry.local),
                        immutable: entry.immutable,
                    },
                )
            }
        },
        (None, Some(config)) => match formats::rendered(entry.format_used(), config@) {
            Ok(content) => Ok(
                BuildModel {
                    target,
                    content,
                    is_plaintext: false,
                    source_path: None,
                    name: entry.name@,
                    ignore_keys,
                    is_symlink: false,
                    canonical_source: None,
                    exclude_patterns: seq![],
                    local_dir: None,
                    immutable: entry.immutable,
                },
            ),
            Err(message) => Err(BuildErrorModel::NotRendered { message }),
        },
        (None, None) => Err(BuildErrorModel::NoSource { name: entry.name@ }),
    }
}

/// Whether a build came out as it should.
pub open spec fn build_agrees(
    r: Result<BuildResult, BuildError>,
    m: Result<BuildModel, BuildErrorModel>,
) -> bool {
    match r {
        Ok(b) => m == Ok::<BuildModel, BuildErrorModel>(b@),
        Err(e) => m == Err::<BuildModel, BuildErrorModel>(e@),
    }
}

/// Builds a single file entry for one target.
pub fn build_file_entry_pub(
    pkg_dir: &str,
    entry: &FileEntry,
    target: String,
    ignore_keys: Vec<String>,
    facts: &SourceFacts,
) -> (r: Result<BuildResult, BuildError>)
    ensures
        build_agrees(
            r,
            built_entry(pkg_dir@, *entry, target@, text::texts(ignore_keys@), *facts),
        ),
{
    match (&entry.from_file, &entry.from_config) {
        (Some(file), _) => {
            let source = context::join_dir(pkg_dir, file);
            if !facts.exists {
                return Err(
                    BuildError::SourceNotFound { name: text::owned(&entry.name), path: source },
                );
            }
            let local_dir = match &entry.local {
                Some(local) => Some(context::join_dir(pkg_dir, local)),
                None => None,
            };
            let canonical_source = if entry.symlink {
                match &facts.canonical {
                    Some(c) => Some(text::owned(c)),
                    None => {
                        return Err(BuildError::NotCanonical { path: source });
                    },
                }
            } else {
                None
            };
            let content = String::new();
            assert(content@ =~= Seq::<char>::empty());
            Ok(
                BuildResult {
                    target,
                    content,
                    is_plaintext: true,
                    source_path: Some(source),
                    name: text::owned(&entry.name),
                    ignore_keys,
                    is_symlink: entry.symlink,
                    canonical_source,
                    exclude_patterns: text::copy_texts(&entry.exclude),
                    local_dir,
                    immutable: entry.immutable,
                },
            )
        },
        (None, Some(config)) => match get_renderer(entry.effective_format()).render(config) {
            Ok(content) => {
                let exclude_patterns: Vec<String> = Vec::new();
                assert(text::texts(exclude_patterns@) =~= seq![]);
                Ok(
                    BuildResult {
                        target,
                        content,
                        is_plaintext: false,
                        source_path: None,
                        name: text::owned(&entry.name),
                        ignore_keys,
                        is_symlink: false,
                        canonical_source: None,
                        exclude_patterns,
                        local_dir: None,
                        immutable: entry.immutable,
                    },
                )
            },
            Err(message) => Err(BuildError::NotRendered { message }),
        },
        (None, None) => Err(BuildError::NoSource { name: text::owned(&entry.name) }),
    }
}

// ---------------------------------------------------------------------------
// A package
// ---------------------------------------------------------------------------

/// The builds of a file entry for the first `k` of its targets, or the first
/// failure among them.
pub open spec fn built_targets(
    pkg_dir: Seq<char>,
    entry: FileEntry,
    ignore_keys: Seq<Seq<char>>,
    facts: SourceFacts,
    targets: Seq<Seq<char>>,
    home: Seq<char>,
    k: nat,
) -> Result<Seq<BuildModel>, BuildErrorModel>
    decreases k,
{
    if k == 0 || k > targets.len() {
        Ok(seq![])
    } else {
        match built_targets(pkg_dir, entry, ignore_keys, facts, targets, home, (k - 1) as nat) {
            Err(e) => Err(e),
            Ok(before) => match built_entry(
                pkg_dir,
                entry,
                context::expanded(targets[k - 1], home),
                ignore_keys,
                facts,
            ) {
                Ok(b) => Ok(before.push(b)),
                Err(e) => Err(e),
            },
        }
    }
}

/// Builds with the index of their file entry.
pub open spec fn indexed(builds: Seq<BuildModel>, index: nat) -> Seq<(BuildModel, nat)> {
    builds.map_values(|b: BuildModel| (b, index))
}

/// A file entry applies on the machine of a run.
pub open spec fn entry_applies(entry: FileEntry, ctx: Context) -> bool {
    schema::holds_on(
        entry.when,
        ctx.metadata.os@,
        ctx.metadata.arch@,
        ctx.metadata.hostname@,
    )
}

/// The builds of the first `n` file entries of a package, each with the index
/// of its entry, or the first failure among them. An entry that does not apply
/// is left out.
pub open spec fn built_entries(
    pkg_dir: Seq<char>,
    order: OrderPackage,
    facts: Seq<SourceFacts>,
    ctx: Context,
    n: nat,
) -> Result<Seq<(BuildModel, nat)>, BuildErrorModel>
    decreases n,
{
    if n == 0 || n > order.blend.files@.len() {
        Ok(seq![])
    } else {
        match built_entries(pkg_dir, order, facts, ctx, (n - 1) as nat) {
            Err(e) => Err(e),
            Ok(before) => {
                let entry = order.blend.files@[n - 1];
                let targets = entry.targets(text::texts(order.blend.prefix@));
                if !entry_applies(entry, ctx) {
                    Ok(before)
                } else {
                    match built_targets(
                        pkg_dir,
                        entry,
                        text::texts(order.blend.ignore@) + text::texts(entry.ignore@),
                        facts[n - 1],
                        targets,
                        ctx.home_dir@,
                        targets.len(),
                    ) {
                        Ok(builds) => Ok(before + indexed(builds, (n - 1) as nat)),
                        Err(e) => Err(e),
                    }
                }
            },
        }
    }
}

/// The builds of a package: none where the package does not apply.
pub open spec fn built_package(
    pkg_dir: Seq<char>,
    order: OrderPackage,
    facts: Seq<SourceFacts>,
    ctx: Context,
) -> Result<Seq<(BuildModel, nat)>, BuildErrorModel> {
    if schema::holds_on(
        order.blend.when,
        ctx.metadata.os@,
        ctx.metadata.arch@,
        ctx.metadata.hostname@,
    ) {
        built_entries(pkg_dir, order, facts, ctx, order.blend.files@.len())
    } else {
        Ok(seq![])
    }
}

/// What a list of builds with their indices holds.
pub open spec fn builds_model(builds: Seq<(BuildResult, usize)>) -> Seq<(BuildModel, nat)> {
    builds.map_values(|b: (BuildResult, usize)| (b.0@, b.1 as nat))
}

proof fn lemma_targets_err(
    pkg_dir: Seq<char>,
    entry: FileEntry,
    ignore_keys: Seq<Seq<char>>,
    facts: SourceFacts,
    targets: Seq<Seq<char>>,
    home: Seq<char>,
    k: nat,
    m: nat,
)
    requires
        k <= m <= targets.len(),
        built_targets(pkg_dir, entry, ignore_keys, facts, targets, home, k) is Err,
    ensures
        built_targets(pkg_dir, entry, ignore_keys, facts, targets, home, m) == built_targets(
            pkg_dir,
            entry,
            ignore_keys,
            facts,
            targets,
            home,
            k,
        ),
    decreases m,
{
    if k < m {
        lemma_targets_err(
            pkg_dir,
            entry,
            ignore_keys,
            facts,
            targets,
            home,
            k,
            (m - 1) as nat,
        );
    }
}

proof fn lemma_entries_err(
    pkg_dir: Seq<char>,
    order: OrderPackage,
    facts: Seq<SourceFacts>,
    ctx: Context,
    n: nat,
    m: nat,
)
    requires
        n <= m <= order.blend.files@.len(),
        built_entries(pkg_dir, order, facts, ctx, n) is Err,
    ensures
        built_entries(pkg_dir, order, facts, ctx, m) == built_entries(
            pkg_dir,
            order,
            facts,
            ctx,
            n,
        ),
    decreases m,
{
    if n < m {
        lemma_entries_err(pkg_dir, order, facts, ctx, n, (m - 1) as nat);
    }
}

fn merged_ignore(global: &Vec<String>, own: &Vec<String>) -> (r: Vec<String>)
    ensures
        text::texts(r@) == text::texts(global@) + text::texts(own@),
{
    let mut r = text::copy_texts(global);
    let ghost g = text::texts(global@);
    let ghost o = text::texts(own@);
    let mut i: usize = 0;
    assert(g =~= g + o.take(0));
    while i < own.len()
        invariant
            i <= own@.len(),
            o == text::texts(own@),
            text::texts(r@) == g + o.take(i as int),
        decreases own@.len() - i,
    {
        let key = text::owned(&own[i]);
        proof {
            text::lemma_texts_push(r@, key);
        }
        r.push(key);
        i = i + 1;
        assert(text::texts(r@) =~= g + o.take(i as int));
    }
    assert(o.take(i as int) =~= o);
    r
}

fn build_targets(
    ctx: &Context,
    pkg_dir: &str,
    entry: &FileEntry,
    ignore_keys: &Vec<String>,
    facts: &SourceFacts,
    targets: &Vec<String>,
    index: usize,
    results: &mut Vec<(BuildResult, usize)>,
) -> (r: Result<(), BuildError>)
    ensures
        ({
            let built = built_targets(
                pkg_dir@,
                *entry,
                text::texts(ignore_keys@),
                *facts,
                text::texts(targets@),
                ctx.home_dir@,
                targets@.len(),
            );
            match r {
                Ok(_) => built matches Ok(builds) && builds_model(final(results)@) == builds_model(
                    old(results)@,
                ) + indexed(builds, index as nat),
                Err(e) => built == Err::<Seq<BuildModel>, BuildErrorModel>(e@),
            }
        }),
{
    let ghost t = text::texts(targets@);
    let ghost keys = text::texts(ignore_keys@);
    let ghost start = builds_model(results@);
    let ghost mut done: Seq<BuildModel> = seq![];
    assert(indexed(done, index as nat) =~= seq![]);
    assert(start =~= start + indexed(done, index as nat));
    let mut i: usize = 0;
    while i < targets.len()
        invariant
            i <= targets@.len(),
            t == text::texts(targets@),
            keys == text::texts(ignore_keys@),
            built_targets(pkg_dir@, *entry, keys, *facts, t, ctx.home_dir@, i as nat) == Ok::<
                Seq<BuildModel>,
                BuildErrorModel,
            >(done),
            builds_model(results@) == start + indexed(done, index as nat),
        decreases targets@.len() - i,
    {
        assert(t[i as int] == targets@[i as int]@);
        let target = ctx.expand_path(&targets[i]);
        match build_file_entry_pub(pkg_dir, entry, target, text::copy_texts(ignore_keys), facts) {
            Ok(b) => {
                let ghost before = results@;
                results.push((b, index));
                proof {
                    let now = done.push(b@);
                    assert(builds_model(results@) =~= builds_model(before).push(
                        (b@, index as nat),
                    ));
                    assert(indexed(now, index as nat) =~= indexed(done, index as nat).push(
                        (b@, index as nat),
                    ));
                    assert(builds_model(results@) =~= start + indexed(now, index as nat));
                    done = now;
                }
            },
            Err(e) => {
                proof {
                    lemma_targets_err(
                        pkg_dir@,
                        *entry,
                        keys,
                        *facts,
                        t,
                        ctx.home_dir@,
                        (i + 1) as nat,
                        t.len(),
                    );
                }
                return Err(e);
            },
        }
        i = i + 1;
    }
    Ok(())
}

/// Builds an evaluated package; each result comes with the index of its file
/// entry.
pub fn build_package_with_indices(
    ctx: &Context,
    package: &str,
    order: &OrderPackage,
    facts: &Vec<SourceFacts>,
) -> (r: Result<Vec<(BuildResult, usize)>, BuildError>)
    requires
        facts@.len() == order.blend.files@.len(),
    ensures
        ({
            let built = built_package(
                context::below(ctx.orders_dir@, package@),
                *order,
                facts@,
                *ctx,
            );
            match r {
                Ok(results) => built == Ok::<Seq<(BuildModel, nat)>, BuildErrorModel>(
                    builds_model(results@),
                ),
                Err(e) => built == Err::<Seq<(BuildModel, nat)>, BuildErrorModel>(e@),
            }
        }),
{
    let pkg_dir = ctx.package_dir(package);
    let ghost dir = pkg_dir@;
    let mut results: Vec<(BuildResult, usize)> = Vec::new();
    assert(builds_model(results@) =~= seq![]);
    let os = &ctx.metadata.os;
    let arch = &ctx.metadata.arch;
    let hostname = &ctx.metadata.hostname;
    if !order.should_apply(os, arch, hostname) {
        return Ok(results);
    }
    let files = &order.blend.files;
    let mut i: usize = 0;
    while i < files.len()
        invariant
            i <= files@.len(),
            *files == order.blend.files,
            facts@.len() == files@.len(),
            dir == pkg_dir@,
            dir == context::below(ctx.orders_dir@, package@),
            schema::holds_on(order.blend.when, os@, arch@, hostname@),
            *os == ctx.metadata.os,
            *arch == ctx.metadata.arch,
            *hostname == ctx.metadata.hostname,
            built_entries(dir, *order, facts@, *ctx, i as nat) == Ok::<
                Seq<(BuildModel, nat)>,
                BuildErrorModel,
            >(builds_model(results@)),
        decreases files@.len() - i,
    {
        let entry = &files[i];
        if entry.should_apply(os, arch, hostname) {
            let ignore_keys = merged_ignore(order.global_ignore(), &entry.ignore);
            let targets = entry.target_paths(order.global_prefix());
            assert(text::texts(targets@).len() == targets@.len());
            match build_targets(
                ctx,
                &pkg_dir,
                entry,
                &ignore_keys,
                &facts[i],
                &targets,
                i,
                &mut results,
            ) {
                Ok(_) => {},
                Err(e) => {
                    proof {
                        lemma_entries_err(
                            dir,
                            *order,
                            facts@,
                            *ctx,
                            (i + 1) as nat,
                            files@.len(),
                        );
                    }
                    return Err(e);
                },
            }
        }
        i = i + 1;
    }
    Ok(results)
}

/// The builds without their indices.
pub open spec fn unindexed(builds: Seq<(BuildModel, nat)>) -> Seq<BuildModel> {
    builds.map_values(|b: (BuildModel, nat)| b.0)
}

/// What a list of builds holds.
pub open spec fn results_model(results: Seq<BuildResult>) -> Seq<BuildModel> {
    results.map_values(|b: BuildResult| b@)
}

/// Builds an evaluated package, returning results for all file entries and
/// targets.
pub fn build_package(
    ctx: &Context,
    package: &str,
    order: &OrderPackage,
    facts: &Vec<SourceFacts>,
) -> (r: Result<Vec<BuildResult>, BuildError>)
    requires
        facts@.len() == order.blend.files@.len(),
    ensures
        match (
            r,
            built_package(context::below(ctx.orders_dir@, package@), *order, facts@, *ctx),
        ) {
            (Ok(results), Ok(built)) => results_model(results@) == unindexed(built),
            (Err(e), Err(m)) => e@ == m,
            _ => false,
        },
{
    match build_package_with_indices(ctx, package, order, facts) {
        Ok(pairs) => {
            let ghost m = builds_model(pairs@);
            let mut rest = pairs;
            let mut out: Vec<BuildResult> = Vec::new();
            assert(rest@.len() == m.len());
            assert(builds_model(rest@) =~= m.take(rest@.len() as int));
            while rest.len() > 0
                invariant
                    rest@.len() + out@.len() == m.len(),
                    builds_model(rest@) == m.take(rest@.len() as int),
                    forall|k: int|
                        0 <= k < out@.len() ==> (#[trigger] out@[k])@ == m[rest@.len() + k].0,
                decreases rest@.len(),
            {
                let ghost n = rest@.len() as int;
                let ghost before = rest@;
                let ghost kept = out@;
                match rest.pop() {
                    Some(pair) => {
                        assert(builds_model(before)[n - 1] == (pair.0@, pair.1 as nat));
                        assert(m.take(n)[n - 1] == m[n - 1]);
                        out.insert(0, pair.0);
                        assert(builds_model(rest@) =~= m.take(n - 1)) by {
                            assert forall|k: int| 0 <= k < n - 1 implies builds_model(rest@)[k]
                                == m.take(n - 1)[k] by {
                                assert(builds_model(before)[k] == m.take(n)[k]);
                            }
                        }
                        assert forall|k: int| 0 <= k < out@.len() implies (#[trigger] out@[k])@
                            == m[rest@.len() + k].0 by {
                            if k > 0 {
                                assert(out@[k] == kept[k - 1]);
                            }
                        }
                    },
                    None => {},
                }
            }
            assert(results_model(out@) =~= unindexed(m));
            Ok(out)
        },
        Err(e) => Err(e),
    }
}

/// The messages about the file entries of a package that do not apply.
pub open spec fn skip_notes(order: OrderPackage, ctx: Context, n: nat) -> Seq<(Level, Seq<char>)>
    decreases n,
{
    if n == 0 || n > order.blend.files@.len() {
        seq![]
    } else {
        let before = skip_notes(order, ctx, (n - 1) as nat);
        let entry = order.blend.files@[n - 1];
        if ctx.verbose && !entry_applies(entry, ctx) {
            before.push(
                (Level::Info, "Skipping file "@ + entry.name@ + " (when condition not met)"@),
            )
        } else {
            before
        }
    }
}

/// The messages about the file entries of a package that do not apply; they are
/// given in a verbose run, and not of a package that itself does not apply.
pub fn skipped_entries(ctx: &Context, order: &OrderPackage) -> (r: Vec<LogLine>)
    ensures
        output::log_model(r@) == if schema::holds_on(
            order.blend.when,
            ctx.metadata.os@,
            ctx.metadata.arch@,
            ctx.metadata.hostname@,
        ) {
            skip_notes(*order, *ctx, order.blend.files@.len())
        } else {
            seq![]
        },
{
    let files = &order.blend.files;
    let mut notes: Vec<LogLine> = Vec::new();
    assert(output::log_model(notes@) =~= seq![]);
    if !order.should_apply(&ctx.metadata.os, &ctx.metadata.arch, &ctx.metadata.hostname) {
        return notes;
    }
    let mut i: usize = 0;
    while i < files.len()
        invariant
            i <= files@.len(),
            *files == order.blend.files,
            output::log_model(notes@) == skip_notes(*order, *ctx, i as nat),
        decreases files@.len() - i,
    {
        let m = &ctx.metadata;
        if ctx.verbose && !files[i].should_apply(&m.os, &m.arch, &m.hostname) {
            let ghost before = notes@;
            let note = LogLine::new(
                Level::Info,
                text::concat3("Skipping file ", &files[i].name, " (when condition not met)"),
            );
            notes.push(note);
            assert(output::log_model(notes@) =~= output::log_model(before).push(note@));
        }
        i = i + 1;
    }
    notes
}

// ---------------------------------------------------------------------------
// Which packages
// ---------------------------------------------------------------------------

/// An entry of the orders directory.
#[derive(Debug)]
pub struct OrdersEntry {
    pub name: String,
    pub is_dir: bool,
    /// Whether it holds an `order.ncl`.
    pub has_order: bool,
}

/// An entry is a package: a directory with an order whose name is not hidden.
pub open spec fn is_package(e: OrdersEntry) -> bool {
    e.is_dir && e.has_order && !text::begins(e.name@, "."@)
}

/// The packages among the first `n` entries.
pub open spec fn packages_of(entries: Seq<OrdersEntry>, n: nat) -> Seq<Seq<char>>
    decreases n,
{
    if n == 0 || n > entries.len() {
        seq![]
    } else {
        let before = packages_of(entries, (n - 1) as nat);
        if is_package(entries[n - 1]) {
            before.push(entries[n - 1].name@)
        } else {
            before
        }
    }
}

/// The packages of the orders directory.
pub fn discover_packages(entries: &[OrdersEntry]) -> (r: Vec<String>)
    ensures
        text::texts(r@) == packages_of(entries@, entries@.len()),
{
    let mut r: Vec<String> = Vec::new();
    assert(text::texts(r@) =~= seq![]);
    let mut i: usize = 0;
    while i < entries.len()
        invariant
            i <= entries@.len(),
            text::texts(r@) == packages_of(entries@, i as nat),
        decreases entries@.len() - i,
    {
        let e = &entries[i];
        if e.is_dir && e.has_order && !text::starts_with(&e.name, ".") {
            let name = text::owned(&e.name);
            proof {
                text::lemma_texts_push(r@, name);
            }
            r.push(name);
        }
        i = i + 1;
    }
    r
}

/// The packages, among the first `n` that are asked for, that there are.
pub open spec fn known_packages(all: Seq<Seq<char>>, asked: Seq<Seq<char>>, n: nat) -> Seq<Seq<char>>
    decreases n,
{
    if n == 0 || n > asked.len() {
        seq![]
    } else {
        let before = known_packages(all, asked, (n - 1) as nat);
        if all.contains(asked[n - 1]) {
            before.push(asked[n - 1])
        } else {
            before
        }
    }
}

/// The messages about the packages, among the first `n` that are asked for, that
/// there are not.
pub open spec fn unknown_notes(all: Seq<Seq<char>>, asked: Seq<Seq<char>>, n: nat) -> Seq<
    (Level, Seq<char>),
>
    decreases n,
{
    if n == 0 || n > asked.len() {
        seq![]
    } else {
        let before = unknown_notes(all, asked, (n - 1) as nat);
        if all.contains(asked[n - 1]) {
            before
        } else {
            before.push((Level::Warn, "Package '"@ + asked[n - 1] + "' not found"@))
        }
    }
}

/// The packages to work on: all of them where none is asked for, else those
/// that are asked for and that there are, with a message for each of the others.
pub fn select_packages(all: &[String], asked: &[String]) -> (r: (Vec<String>, Vec<LogLine>))
    ensures
        asked@.len() == 0 ==> text::texts(r.0@) == text::texts(all@) && r.1@.len() == 0,
        asked@.len() > 0 ==> {
            &&& text::texts(r.0@) == known_packages(
                text::texts(all@),
                text::texts(asked@),
                asked@.len(),
            )
            &&& output::log_model(r.1@) == unknown_notes(
                text::texts(all@),
                text::texts(asked@),
                asked@.len(),
            )
        },
{
    let mut notes: Vec<LogLine> = Vec::new();
    if asked.len() == 0 {
        return (text::copy_texts(all), notes);
    }
    let ghost a = text::texts(all@);
    let ghost q = text::texts(asked@);
    let mut chosen: Vec<String> = Vec::new();
    assert(text::texts(chosen@) =~= seq![]);
    assert(output::log_model(notes@) =~= seq![]);
    let mut i: usize = 0;
    while i < asked.len()
        invariant
            i <= asked@.len(),
            a == text::texts(all@),
            q == text::texts(asked@),
            text::texts(chosen@) == known_packages(a, q, i as nat),
            output::log_model(notes@) == unknown_notes(a, q, i as nat),
        decreases asked@.len() - i,
    {
        assert(q[i as int] == asked@[i as int]@);
        if text::has_text(all, &asked[i]) {
            let name = text::owned(&asked[i]);
            proof {
                text::lemma_texts_push(chosen@, name);
            }
            chosen.push(name);
        } else {
            let ghost before = notes@;
            let note = LogLine::new(
                Level::Warn,
                text::concat3("Package '", &asked[i], "' not found"),
            );
            notes.push(note);
            assert(output::log_model(notes@) =~= output::log_model(before).push(note@));
        }
        i = i + 1;
    }
    (chosen, notes)
}

// ---------------------------------------------------------------------------
// Laws of building
// ---------------------------------------------------------------------------

/// A condition asks for the machine of a run.
pub open spec fn machine_meant(c: Option<schema::Condition>, ctx: Context) -> bool {
    schema::meant_for(c, ctx.metadata.os@, ctx.metadata.arch@, ctx.metadata.hostname@)
}

/// A build is that of a file entry for a target: a file or directory of the
/// package that is there, copied or linked, or the configuration rendered in the
/// format of the entry. What is left out of comparisons is what the package or the
/// entry names.
pub open spec fn build_of(
    b: BuildModel,
    pkg_dir: Seq<char>,
    entry: FileEntry,
    package_ignore: Seq<Seq<char>>,
    facts: SourceFacts,
    target: Seq<char>,
) -> bool {
    &&& b.target == target
    &&& b.name == entry.name@
    &&& b.immutable == entry.immutable
    &&& forall|key: Seq<char>| #[trigger]
        b.ignore_keys.contains(key) <==> package_ignore.contains(key) || text::texts(
            entry.ignore@,
        ).contains(key)
    &&& match entry.from_file {
        Some(file) => {
            &&& facts.exists
            &&& b.is_plaintext
            &&& b.source_path == Some(context::below(pkg_dir, file@))
            &&& b.is_symlink == entry.symlink
            &&& entry.symlink ==> facts.canonical is Some && b.canonical_source == Some(
                facts.canonical->0@,
            )
            &&& b.exclude_patterns == text::texts(entry.exclude@)
            &&& b.local_dir is Some == entry.local is Some
            &&& entry.local is Some ==> b.local_dir == Some(
                context::below(pkg_dir, entry.local->0@),
            )
        },
        None => {
            &&& entry.from_config is Some
            &&& !b.is_plaintext
            &&& !b.is_symlink
            &&& formats::rendered(entry.format_used(), entry.from_config->0@) == Ok::<
                Seq<char>,
                Seq<char>,
            >(b.content)
        },
    }
}

/// A file entry can be built: its source is there, and its absolute path is known
/// where it is to be linked; or its format can hold its configuration.
pub open spec fn can_be_built(entry: FileEntry, facts: SourceFacts) -> bool {
    match entry.from_file {
        Some(_) => facts.exists && (entry.symlink ==> facts.canonical is Some),
        None => entry.from_config is Some && formats::rendered(
            entry.format_used(),
            entry.from_config->0@,
        ) is Ok,
    }
}

/// A file entry is built exactly where it can be, and then its build is that of
/// the entry for the target.
pub proof fn law_entry_built(
    pkg_dir: Seq<char>,
    entry: FileEntry,
    target: Seq<char>,
    package_ignore: Seq<Seq<char>>,
    facts: SourceFacts,
)
    ensures
        ({
            let r = built_entry(
                pkg_dir,
                entry,
                target,
                package_ignore + text::texts(entry.ignore@),
                facts,
            );
            &&& r is Ok <==> can_be_built(entry, facts)
            &&& r matches Ok(b) ==> build_of(b, pkg_dir, entry, package_ignore, facts, target)
        }),
{
    let own = text::texts(entry.ignore@);
    let all = package_ignore + own;
    assert forall|key: Seq<char>| #[trigger] all.contains(key) <==> package_ignore.contains(key)
        || own.contains(key) by {
        if all.contains(key) {
            let i = all.index_of(key);
            if i < package_ignore.len() {
                assert(package_ignore[i] == key);
            } else {
                assert(own[i - package_ignore.len()] == key);
            }
        }
        if package_ignore.contains(key) {
            let i = package_ignore.index_of(key);
            assert(all[i] == key);
        }
        if own.contains(key) {
            let i = own.index_of(key);
            assert(all[package_ignore.len() + i] == key);
        }
    }
}

/// The path that a file entry is deployed to below one of its prefixes.
pub open spec fn target_at(entry: FileEntry, order: OrderPackage, home: Seq<char>, p: int) -> Seq<
    char,
> {
    context::expanded(
        schema::prefixed(
            match entry.prefix {
                Some(own) => own@[p]@,
                None => order.blend.prefix@[p]@,
            },
            entry.name@,
        ),
        home,
    )
}

/// How many prefixes a file entry is deployed below.
pub open spec fn prefix_count(entry: FileEntry, order: OrderPackage) -> nat {
    match entry.prefix {
        Some(own) => own@.len(),
        None => order.blend.prefix@.len(),
    }
}

/// How many builds the first `n` file entries come to: one for each prefix of each
/// entry that is meant for the machine.
pub open spec fn build_count(order: OrderPackage, ctx: Context, n: nat) -> nat
    decreases n,
{
    if n == 0 || n > order.blend.files@.len() {
        0
    } else {
        build_count(order, ctx, (n - 1) as nat) + if machine_meant(
            order.blend.files@[n - 1].when,
            ctx,
        ) {
            prefix_count(order.blend.files@[n - 1], order)
        } else {
            0
        }
    }
}

/// A build stands at a place of a list: that of a file entry for its target below
/// a prefix.
pub open spec fn build_stands(
    builds: Seq<(BuildModel, nat)>,
    at: int,
    pkg_dir: Seq<char>,
    order: OrderPackage,
    facts: Seq<SourceFacts>,
    ctx: Context,
    i: nat,
    p: int,
) -> bool {
    &&& 0 <= at < builds.len()
    &&& builds[at].1 == i
    &&& build_of(
        builds[at].0,
        pkg_dir,
        order.blend.files@[i as int],
        text::texts(order.blend.ignore@),
        facts[i as int],
        target_at(order.blend.files@[i as int], order, ctx.home_dir@, p),
    )
}

/// The builds of the first `n` file entries are one for each prefix of each entry
/// that is meant for the machine, in the order of entries and prefixes.
pub open spec fn builds_right(
    builds: Seq<(BuildModel, nat)>,
    pkg_dir: Seq<char>,
    order: OrderPackage,
    facts: Seq<SourceFacts>,
    ctx: Context,
    n: nat,
) -> bool {
    &&& builds.len() == build_count(order, ctx, n)
    &&& forall|i: nat, p: int|
        #![trigger order.blend.files@[i as int], build_place(order, ctx, i, p)]
        i < n && machine_meant(order.blend.files@[i as int].when, ctx) && 0 <= p < prefix_count(
            order.blend.files@[i as int],
            order,
        ) ==> build_stands(
            builds,
            build_place(order, ctx, i, p),
            pkg_dir,
            order,
            facts,
            ctx,
            i,
            p,
        )
}

/// The place of the build of a file entry below a prefix.
pub open spec fn build_place(order: OrderPackage, ctx: Context, i: nat, p: int) -> int {
    build_count(order, ctx, i) + p
}

proof fn lemma_targets_built(
    pkg_dir: Seq<char>,
    order: OrderPackage,
    entry: FileEntry,
    facts: SourceFacts,
    home: Seq<char>,
    k: nat,
)
    requires
        k <= prefix_count(entry, order),
    ensures
        ({
            let package_ignore = text::texts(order.blend.ignore@);
            let targets = entry.targets(text::texts(order.blend.prefix@));
            let r = built_targets(
                pkg_dir,
                entry,
                package_ignore + text::texts(entry.ignore@),
                facts,
                targets,
                home,
                k,
            );
            &&& targets.len() == prefix_count(entry, order)
            &&& r is Ok <==> k == 0 || can_be_built(entry, facts)
            &&& r matches Ok(builds) ==> {
                &&& builds.len() == k
                &&& forall|p: int|
                    0 <= p < k ==> build_of(
                        #[trigger] builds[p],
                        pkg_dir,
                        entry,
                        package_ignore,
                        facts,
                        target_at(entry, order, home, p),
                    )
            }
        }),
    decreases k,
{
    let package_ignore = text::texts(order.blend.ignore@);
    let global = text::texts(order.blend.prefix@);
    let targets = entry.targets(global);
    schema::law_targets(entry, global, k - 1);
    if k > 0 {
        lemma_targets_built(pkg_dir, order, entry, facts, home, (k - 1) as nat);
        assert(context::expanded(targets[k - 1], home) == target_at(entry, order, home, k - 1));
        law_entry_built(
            pkg_dir,
            entry,
            target_at(entry, order, home, k - 1),
            package_ignore,
            facts,
        );
    }
}

/// Some file entry among the first `n` that is meant for the machine, and that has
/// a prefix, cannot be built.
pub open spec fn some_unbuilt(order: OrderPackage, facts: Seq<SourceFacts>, ctx: Context, n: nat) -> bool {
    exists|i: int| 0 <= i < n && unbuilt(order, #[trigger] order.blend.files@[i], facts[i], ctx)
}

/// A file entry that is meant for the machine, and that has a prefix, cannot be
/// built.
pub open spec fn unbuilt(
    order: OrderPackage,
    entry: FileEntry,
    facts: SourceFacts,
    ctx: Context,
) -> bool {
    machine_meant(entry.when, ctx) && prefix_count(entry, order) > 0 && !can_be_built(entry, facts)
}

proof fn lemma_entries_built(
    pkg_dir: Seq<char>,
    order: OrderPackage,
    facts: Seq<SourceFacts>,
    ctx: Context,
    n: nat,
)
    requires
        n <= order.blend.files@.len(),
    ensures
        built_entries(pkg_dir, order, facts, ctx, n) is Err <==> some_unbuilt(
            order,
            facts,
            ctx,
            n,
        ),
        built_entries(pkg_dir, order, facts, ctx, n) matches Ok(builds) ==> builds_right(
            builds,
            pkg_dir,
            order,
            facts,
            ctx,
            n,
        ),
    decreases n,
{
    if n > 0 {
        let m = (n - 1) as nat;
        lemma_entries_built(pkg_dir, order, facts, ctx, m);
        let entry = order.blend.files@[n - 1];
        let count = prefix_count(entry, order);
        let here = facts[n - 1];
        schema::law_condition(
            entry.when,
            ctx.metadata.os@,
            ctx.metadata.arch@,
            ctx.metadata.hostname@,
        );
        lemma_targets_built(pkg_dir, order, entry, here, ctx.home_dir@, count);
        if some_unbuilt(order, facts, ctx, m) {
            let i = choose|i: int|
                0 <= i < m && unbuilt(order, #[trigger] order.blend.files@[i], facts[i], ctx);
            assert(unbuilt(order, order.blend.files@[i], facts[i], ctx));
        } else if some_unbuilt(order, facts, ctx, n) {
            let i = choose|i: int|
                0 <= i < n && unbuilt(order, #[trigger] order.blend.files@[i], facts[i], ctx);
            assert(i == n - 1);
        }
        if let Ok(builds) = built_entries(pkg_dir, order, facts, ctx, n) {
            let before = built_entries(pkg_dir, order, facts, ctx, m)->Ok_0;
            assert forall|i: nat, p: int|
                #![trigger order.blend.files@[i as int], build_place(order, ctx, i, p)]
                i < n && machine_meant(order.blend.files@[i as int].when, ctx) && 0 <= p
                    < prefix_count(order.blend.files@[i as int], order) implies build_stands(
                builds,
                build_place(order, ctx, i, p),
                pkg_dir,
                order,
                facts,
                ctx,
                i,
                p,
            ) by {
                let at = build_place(order, ctx, i, p);
                if i < m {
                    assert(build_stands(before, at, pkg_dir, order, facts, ctx, i, p));
                    assert(builds[at] == before[at]);
                } else {
                    assert(at == before.len() + p);
                }
            }
        }
    }
}

/// A package is built for a machine as follows. Where the package is not meant for
/// the machine, nothing is built. Else it fails exactly where a file entry that is
/// meant for the machine cannot be built; and where it does not fail, it has one
/// build for each prefix of each entry that is meant for the machine, in order,
/// with the index of the entry, and no other.
pub proof fn law_package_built(
    pkg_dir: Seq<char>,
    order: OrderPackage,
    facts: Seq<SourceFacts>,
    ctx: Context,
)
    ensures
        ({
            let built = built_package(pkg_dir, order, facts, ctx);
            let n = order.blend.files@.len();
            if machine_meant(order.blend.when, ctx) {
                &&& built is Err <==> some_unbuilt(order, facts, ctx, n)
                &&& built matches Ok(builds) ==> builds_right(
                    builds,
                    pkg_dir,
                    order,
                    facts,
                    ctx,
                    n,
                )
            } else {
                built matches Ok(builds) && builds.len() == 0
            }
        }),
{
    schema::law_condition(
        order.blend.when,
        ctx.metadata.os@,
        ctx.metadata.arch@,
        ctx.metadata.hostname@,
    );
    lemma_entries_built(pkg_dir, order, facts, ctx, order.blend.files@.len());
}

/// A file entry that is not meant for the machine has no build.
pub proof fn law_other_machine(
    pkg_dir: Seq<char>,
    order: OrderPackage,
    facts: Seq<SourceFacts>,
    ctx: Context,
    at: int,
)
    requires
        built_package(pkg_dir, order, facts, ctx) is Ok,
        0 <= at < built_package(pkg_dir, order, facts, ctx)->Ok_0.len(),
    ensures
        ({
            let index = built_package(pkg_dir, order, facts, ctx)->Ok_0[at].1;
            &&& index < order.blend.files@.len()
            &&& machine_meant(order.blend.files@[index as int].when, ctx)
            &&& machine_meant(order.blend.when, ctx)
        }),
{
    law_package_built(pkg_dir, order, facts, ctx);
    lemma_indices_meant(pkg_dir, order, facts, ctx, order.blend.files@.len());
}

proof fn lemma_indices_meant(
    pkg_dir: Seq<char>,
    order: OrderPackage,
    facts: Seq<SourceFacts>,
    ctx: Context,
    n: nat,
)
    requires
        n <= order.blend.files@.len(),
    ensures
        built_entries(pkg_dir, order, facts, ctx, n) matches Ok(builds) ==> forall|at: int|
            0 <= at < builds.len() ==> (#[trigger] builds[at]).1 < n && machine_meant(
                order.blend.files@[builds[at].1 as int].when,
                ctx,
            ),
    decreases n,
{
    if n > 0 {
        lemma_indices_meant(pkg_dir, order, facts, ctx, (n - 1) as nat);
        schema::law_condition(
            order.blend.files@[n - 1].when,
            ctx.metadata.os@,
            ctx.metadata.arch@,
            ctx.metadata.hostname@,
        );
    }
}

/// The packages of the orders directory are the names of the directories in it
/// that have an order and are not hidden.
pub proof fn law_packages_found(entries: Seq<OrdersEntry>, name: Seq<char>, n: nat)
    requires
        n <= entries.len(),
    ensures
        packages_of(entries, n).contains(name) <==> exists|i: int|
            0 <= i < n && (#[trigger] entries[i]).name@ == name && entries[i].is_dir
                && entries[i].has_order && !(name.len() > 0 && name[0] == '.'),
    decreases n,
{
    reveal_strlit(".");
    if n > 0 {
        let last = entries[n - 1];
        let before = packages_of(entries, (n - 1) as nat);
        let now = packages_of(entries, n);
        law_packages_found(entries, name, (n - 1) as nat);
        if last.name@.len() > 0 && last.name@[0] == '.' {
            assert(last.name@.take(1) =~= "."@);
        }
        if text::begins(last.name@, "."@) {
            assert(last.name@.take(1)[0] == '.');
        }
        if before.contains(name) {
            assert(now[before.index_of(name)] == name);
        }
        if now.contains(name) && !before.contains(name) {
            let k = now.index_of(name);
            assert(k == before.len()) by {
                if k < before.len() {
                    assert(before[k] == name);
                }
            }
            assert(entries[n - 1].name@ == name);
        }
        if is_package(last) && last.name@ == name {
            assert(now[before.len() as int] == name);
        }
    }
}

/// The packages to work on are those that are asked for and that there are, in
/// the order in which they are asked for, and there is a message for each of the
/// others.
pub proof fn law_packages_chosen(all: Seq<Seq<char>>, asked: Seq<Seq<char>>, n: nat)
    requires
        n <= asked.len(),
    ensures
        known_packages(all, asked, n) == asked.take(n as int).filter(
            |name: Seq<char>| all.contains(name),
        ),
        known_packages(all, asked, n).len() + unknown_notes(all, asked, n).len() == n,
    decreases n,
{
    reveal(Seq::filter);
    if n > 0 {
        law_packages_chosen(all, asked, (n - 1) as nat);
        assert(asked.take(n as int).drop_last() =~= asked.take(n - 1));
        assert(asked.take(n as int).last() == asked[n - 1]);
    } else {
        assert(asked.take(0).filter(|name: Seq<char>| all.contains(name)) =~= seq![]);
    }
}

/// A verbose run tells of each file entry that is not meant for the machine, and
/// of no other; a quiet run tells of none.
pub proof fn law_entries_skipped(order: OrderPackage, ctx: Context, n: nat)
    requires
        n <= order.blend.files@.len(),
    ensures
        !ctx.verbose ==> skip_notes(order, ctx, n).len() == 0,
        ctx.verbose ==> skip_notes(order, ctx, n) == skipped_names(order, ctx, n).map_values(
            |name: Seq<char>|
                (Level::Info, "Skipping file "@ + name + " (when condition not met)"@),
        ),
        forall|i: int|
            0 <= i < n && !machine_meant((#[trigger] order.blend.files@[i]).when, ctx)
                ==> skipped_names(order, ctx, n).contains(order.blend.files@[i].name@),
    decreases n,
{
    if n > 0 {
        law_entries_skipped(order, ctx, (n - 1) as nat);
        let entry = order.blend.files@[n - 1];
        schema::law_condition(
            entry.when,
            ctx.metadata.os@,
            ctx.metadata.arch@,
            ctx.metadata.hostname@,
        );
        let before = skipped_names(order, ctx, (n - 1) as nat);
        let all = skipped_names(order, ctx, n);
        let note = |name: Seq<char>|
            (Level::Info, "Skipping file "@ + name + " (when condition not met)"@);
        if !machine_meant(entry.when, ctx) {
            assert(all == before.push(entry.name@));
            assert(all.map_values(note) =~= before.map_values(note).push(note(entry.name@)));
            assert(all[before.len() as int] == entry.name@);
        }
        assert forall|i: int|
            0 <= i < n && !machine_meant(
                (#[trigger] order.blend.files@[i]).when,
                ctx,
            ) implies all.contains(order.blend.files@[i].name@) by {
            if i < n - 1 {
                assert(before.contains(order.blend.files@[i].name@));
                let k = before.index_of(order.blend.files@[i].name@);
                assert(all[k] == before[k]);
            }
        }
    } else {
        assert(skip_notes(order, ctx, n) =~= skipped_names(order, ctx, n).map_values(
            |name: Seq<char>|
                (Level::Info, "Skipping file "@ + name + " (when condition not met)"@),
        ));
    }
}

/// The names of those of the first `n` file entries that are not meant for the
/// machine.
pub open spec fn skipped_names(order: OrderPackage, ctx: Context, n: nat) -> Seq<Seq<char>>
    decreases n,
{
    if n == 0 || n > order.blend.files@.len() {
        seq![]
    } else if machine_meant(order.blend.files@[n - 1].when, ctx) {
        skipped_names(order, ctx, (n - 1) as nat)
    } else {
        skipped_names(order, ctx, (n - 1) as nat).push(order.blend.files@[n - 1].name@)
    }
}

/// A file entry that cannot be built is refused for what is missing: its source,
/// the absolute path of a source that is to be linked, anything to build it from,
/// or a text for its configuration.
pub proof fn law_build_refused(
    pkg_dir: Seq<char>,
    entry: FileEntry,
    target: Seq<char>,
    ignore_keys: Seq<Seq<char>>,
    facts: SourceFacts,
)
    requires
        !can_be_built(entry, facts),
    ensures
        ({
            let r = built_entry(pkg_dir, entry, target, ignore_keys, facts);
            &&& r is Err
            &&& entry.from_file is Some && !facts.exists ==> r->Err_0
                == (BuildErrorModel::SourceNotFound {
                name: entry.name@,
                path: context::below(pkg_dir, entry.from_file->0@),
            })
            &&& entry.from_file is Some && facts.exists ==> r->Err_0
                == (BuildErrorModel::NotCanonical {
                path: context::below(pkg_dir, entry.from_file->0@),
            })
            &&& entry.from_file is None && entry.from_config is None ==> r->Err_0
                == (BuildErrorModel::NoSource { name: entry.name@ })
            &&& entry.from_file is None && entry.from_config is Some ==> r->Err_0
                == (BuildErrorModel::NotRendered {
                message: formats::rendered(
                    entry.format_used(),
                    entry.from_config->0@,
                )->Err_0,
            })
        }),
{
}

} // verus!
