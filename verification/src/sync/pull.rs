//! Pulling deployed configuration back into the repo.
use crate::diff::semantic;
use crate::diff::semantic::KeyChange;
use crate::formats;
use crate::formats::{get_renderer, Format};
use crate::json;
use crate::json::{Json, JsonModel};
use crate::metadata::Metadata;
use crate::nickel::ast_utils;
use crate::nickel::ast_utils::{
    BlockedModel, LeafSpan, LocateError, NonRewritableField, RewriteModel,
    RewriteResult, SpanModel,
};
use crate::nickel::rewrite;
use crate::nickel::rewrite::RewriteError;
use crate::nickel::schema::FileEntry;
use crate::nickel::term;
use crate::output;
use crate::output::{Level, LogLine};
use crate::sync::edits;
use crate::sync::edits::{FieldEdit, FieldEditModel};
use crate::sync::overlay;
use crate::text;
use vstd::prelude::*;
use vstd::string::*;
use vstd::utf8::*;

verus! {

// ---------------------------------------------------------------------------
// Outcomes
// ---------------------------------------------------------------------------

/// What comes of a pull.
#[derive(Debug)]
pub enum PullOutcome {
    /// There is nothing to pull.
    Nothing,
    /// No value can be rewritten.
    NotPossible,
    /// A dry run: what would be done.
    WouldUpdate { notes: Vec<LogLine> },
    /// The new source of the order.
    Rewritten { source: String, warnings: Vec<LogLine> },
    /// Fields are to be inserted or deleted, which takes the structure of the
    /// source.
    Restructure { edits: Vec<FieldEdit>, base_indent: usize, warnings: Vec<LogLine> },
}

/// Why a pull failed.
#[derive(Debug)]
pub enum PullError {
    /// The `from_config` could not be looked for.
    Locate(LocateError),
    /// The deployed file is not in its format.
    DeployedUnreadable,
    /// The order has no file entry at the index.
    NoEntry,
    /// The file entry has no `from_config`.
    NoFromConfig,
    /// The values could not be rewritten.
    Rewrite(RewriteError),
}

/// What a pull error is reported as, apart from one of the search.
pub open spec fn pull_error_text(e: PullError, target: Seq<char>) -> Seq<char> {
    match e {
        PullError::Locate(_) => seq![],
        PullError::DeployedUnreadable => "Failed to parse deployed file "@ + target,
        PullError::NoEntry => "file entry index out of bounds"@,
        PullError::NoFromConfig => "file entry has no from_config"@,
        PullError::Rewrite(RewriteError::CurrentNotObject) =>
            "current from_config value is not an object"@,
        PullError::Rewrite(RewriteError::DeployedNotObject) => "deployed value is not an object"@,
        PullError::Rewrite(RewriteError::SpanOutsideSource) =>
            "a value's span does not fit the source"@,
    }
}

impl PullError {
    /// The message that reports the error.
    pub fn message(&self, target: &str) -> (r: String)
        ensures
            !(*self is Locate) ==> r@ == pull_error_text(*self, target@),
            *self matches PullError::Locate(LocateError::Entry(e)) ==> r@
                == ast_utils::entry_failure_text(e),
            *self matches PullError::Locate(LocateError::Parse(m)) ==> r@
                == "Failed to parse .ncl file: "@ + m@,
    {
        match self {
            PullError::Locate(e) => e.message(),
            PullError::DeployedUnreadable => text::concat2(
                "Failed to parse deployed file ",
                target,
            ),
            PullError::NoEntry => text::owned("file entry index out of bounds"),
            PullError::NoFromConfig => text::owned("file entry has no from_config"),
            PullError::Rewrite(e) => match e {
                RewriteError::CurrentNotObject => text::owned(
                    "current from_config value is not an object",
                ),
                RewriteError::DeployedNotObject => text::owned("deployed value is not an object"),
                RewriteError::SpanOutsideSource => text::owned(
                    "a value's span does not fit the source",
                ),
            },
        }
    }
}

// ---------------------------------------------------------------------------
// Messages
// ---------------------------------------------------------------------------

/// The warning about a field that cannot be pulled.
pub open spec fn blocked_warning(f: BlockedModel) -> (Level, Seq<char>) {
    (
        Level::Warn,
        "Cannot auto-pull "@ + f.name + ": "@ + f.reason + " (update order.ncl manually)"@,
    )
}

/// The warnings about those of the first `n` fields that cannot be pulled and
/// that are asked for: all of them where no keys are given.
pub open spec fn blocked_warnings(
    fields: Seq<BlockedModel>,
    pulled: Option<Seq<Seq<char>>>,
    n: nat,
) -> Seq<(Level, Seq<char>)>
    decreases n,
{
    if n == 0 || n > fields.len() {
        seq![]
    } else {
        let before = blocked_warnings(fields, pulled, (n - 1) as nat);
        let f = fields[n - 1];
        if pulled is None || overlay::reaches(pulled->0, f.name) {
            before.push(blocked_warning(f))
        } else {
            before
        }
    }
}

/// The notes, in a dry run, on the conditions that the values of the first `n`
/// spans stand under.
pub open spec fn branch_notes(spans: Seq<SpanModel>, n: nat) -> Seq<(Level, Seq<char>)>
    decreases n,
{
    if n == 0 || n > spans.len() {
        seq![]
    } else {
        let before = branch_notes(spans, (n - 1) as nat);
        let s = spans[n - 1];
        if s.branch_context.len() > 0 {
            before.push(
                (
                    Level::Info,
                    "  "@ + s.name + " scoped under: "@ + text::joined(
                        s.branch_context,
                        " \u{2192} "@,
                    ),
                ),
            )
        } else {
            before
        }
    }
}

fn add_note(notes: &mut Vec<LogLine>, level: Level, text: String)
    ensures
        output::log_model(final(notes)@) == output::log_model(old(notes)@).push((level, text@)),
{
    let ghost before = notes@;
    let line = LogLine::new(level, text);
    notes.push(line);
    assert(output::log_model(notes@) =~= output::log_model(before).push(line@));
}

fn warn_blocked(fields: &[NonRewritableField], pulled: Option<&[String]>) -> (r: Vec<LogLine>)
    ensures
        output::log_model(r@) == blocked_warnings(
            ast_utils::blocked_model(fields@),
            match pulled {
                Some(p) => Some(text::texts(p@)),
                None => None,
            },
            fields@.len(),
        ),
{
    let ghost m = ast_utils::blocked_model(fields@);
    let ghost keys: Option<Seq<Seq<char>>> = match pulled {
        Some(p) => Some(text::texts(p@)),
        None => None,
    };
    let mut r: Vec<LogLine> = Vec::new();
    assert(output::log_model(r@) =~= seq![]);
    let mut i: usize = 0;
    while i < fields.len()
        invariant
            i <= fields@.len(),
            m == ast_utils::blocked_model(fields@),
            keys == (match pulled {
                Some(p) => Some(text::texts(p@)),
                None => None::<Seq<Seq<char>>>,
            }),
            output::log_model(r@) == blocked_warnings(m, keys, i as nat),
        decreases fields@.len() - i,
    {
        let f = &fields[i];
        assert(m[i as int] == f@);
        let asked = match pulled {
            Some(p) => overlay::is_reached(p, &f.name),
            None => true,
        };
        if asked {
            let head = text::concat3("Cannot auto-pull ", &f.name, ": ");
            let warning = text::concat3(&head, &f.reason, " (update order.ncl manually)");
            add_note(&mut r, Level::Warn, warning);
        }
        i = i + 1;
    }
    r
}

fn note_branches(spans: &[LeafSpan], notes: &mut Vec<LogLine>)
    ensures
        output::log_model(final(notes)@) == output::log_model(old(notes)@) + branch_notes(
            ast_utils::spans_model(spans@),
            spans@.len(),
        ),
{
    let ghost m = ast_utils::spans_model(spans@);
    let ghost start = output::log_model(notes@);
    let mut i: usize = 0;
    assert(start =~= start + branch_notes(m, 0));
    while i < spans.len()
        invariant
            i <= spans@.len(),
            m == ast_utils::spans_model(spans@),
            output::log_model(notes@) == start + branch_notes(m, i as nat),
        decreases spans@.len() - i,
    {
        let s = &spans[i];
        assert(m[i as int] == s@);
        if s.branch_context.len() > 0 {
            let head = text::concat3("  ", &s.name, " scoped under: ");
            let trail = text::join(&s.branch_context, " \u{2192} ");
            add_note(notes, Level::Info, text::concat2(&head, &trail));
        }
        i = i + 1;
        assert(output::log_model(notes@) =~= start + branch_notes(m, i as nat));
    }
}

// ---------------------------------------------------------------------------
// Rewriting
// ---------------------------------------------------------------------------

/// The indentation at the first span; none without spans.
pub open spec fn spans_indent(source: Seq<char>, spans: Seq<SpanModel>) -> nat {
    if spans.len() == 0 {
        0
    } else {
        rewrite::indent_level(source, spans[0].value_start)
    }
}

/// The first span starts at a character of the source, where there is one.
pub open spec fn first_span_fits(source: Seq<char>, spans: Seq<SpanModel>) -> bool {
    spans.len() > 0 ==> is_char_boundary(encode_utf8(source), spans[0].value_start as int)
}

/// A rewrite of the source came out as it should.
pub open spec fn rewrite_right(
    r: Result<PullOutcome, PullError>,
    source: Seq<char>,
    spans: Seq<SpanModel>,
    current: JsonModel,
    deployed: JsonModel,
    warnings: Seq<(Level, Seq<char>)>,
) -> bool {
    match (current, deployed) {
        (JsonModel::Object(c), JsonModel::Object(d)) => {
            let es = rewrite::rewrite_edits(spans, c, d, spans_indent(source, spans));
            let bytes = encode_utf8(source);
            if rewrite::all_fit(bytes, es) {
                r matches Ok(PullOutcome::Rewritten { source: t, warnings: w }) && encode_utf8(t@)
                    == rewrite::applied(bytes, es, es.len()) && output::log_model(w@) == warnings
            } else {
                r matches Err(PullError::Rewrite(RewriteError::SpanOutsideSource))
            }
        },
        (JsonModel::Object(_), _) => r matches Err(
            PullError::Rewrite(RewriteError::DeployedNotObject),
        ),
        _ => r matches Err(PullError::Rewrite(RewriteError::CurrentNotObject)),
    }
}

/// An edit by structure came out as it should.
pub open spec fn structural_right(
    r: Result<PullOutcome, PullError>,
    wanted: Seq<FieldEditModel>,
    indent: nat,
    warnings: Seq<(Level, Seq<char>)>,
) -> bool {
    r matches Ok(PullOutcome::Restructure { edits: e, base_indent, warnings: w })
        && edits::field_edits_model(e@) == wanted && base_indent == indent && output::log_model(w@)
        == warnings
}

fn rewrite_source(
    source: &str,
    spans: &[LeafSpan],
    current: &Json,
    deployed: &Json,
    base_indent: usize,
    warnings: Vec<LogLine>,
) -> (r: Result<PullOutcome, PullError>)
    requires
        base_indent < usize::MAX,
        base_indent == spans_indent(source@, ast_utils::spans_model(spans@)),
    ensures
        rewrite_right(
            r,
            source@,
            ast_utils::spans_model(spans@),
            current@,
            deployed@,
            output::log_model(warnings@),
        ),
{
    match rewrite::checked_rewrite(source, spans, current, deployed, base_indent) {
        Ok(t) => Ok(PullOutcome::Rewritten { source: t, warnings }),
        Err(e) => Err(PullError::Rewrite(e)),
    }
}

fn find_indent(source: &str, spans: &[LeafSpan]) -> (r: Option<usize>)
    ensures
        match r {
            Some(n) => {
                &&& first_span_fits(source@, ast_utils::spans_model(spans@))
                &&& n == spans_indent(source@, ast_utils::spans_model(spans@))
                &&& n < usize::MAX
            },
            None => !first_span_fits(source@, ast_utils::spans_model(spans@)),
        },
{
    if spans.len() == 0 {
        return Some(0);
    }
    let at = spans[0].value_start;
    assert(ast_utils::spans_model(spans@)[0] == spans@[0]@);
    if source.is_char_boundary(at) {
        Some(rewrite::detect_indent_level(source, at))
    } else {
        None
    }
}

// ---------------------------------------------------------------------------
// Pulling a whole entry
// ---------------------------------------------------------------------------

/// Each of the edits gives a field another value.
pub open spec fn only_modifies(es: Seq<FieldEditModel>) -> bool {
    forall|i: int| 0 <= i < es.len() ==> (#[trigger] es[i]) is Modify
}

fn all_modify(es: &Vec<FieldEdit>) -> (r: bool)
    ensures
        r == only_modifies(edits::field_edits_model(es@)),
{
    let ghost m = edits::field_edits_model(es@);
    let mut i: usize = 0;
    while i < es.len()
        invariant
            i <= es@.len(),
            m == edits::field_edits_model(es@),
            forall|k: int| 0 <= k < i ==> (#[trigger] m[k]) is Modify,
        decreases es@.len() - i,
    {
        assert(m[i as int] == es@[i as int]@);
        match &es[i] {
            FieldEdit::Modify { .. } => {},
            _ => {
                assert(!(m[i as int] is Modify));
                return false;
            },
        }
        i = i + 1;
    }
    true
}

/// What a pull of a whole entry comes to, once its `from_config` is analysed.
/// Without a rewritable value nothing can be pulled. A dry run tells what would
/// be rewritten, and under which conditions. Where fields come or go, and the
/// structure of the source is known, they are edited by structure; else the
/// changed values are rewritten in place.
pub open spec fn entry_pull_right(
    r: Result<PullOutcome, PullError>,
    found: RewriteModel,
    source: Seq<char>,
    ncl_path: Seq<char>,
    deployed: Option<JsonModel>,
    entry: Option<&FileEntry>,
    structure: bool,
    dry_run: bool,
) -> bool {
    let spans = found.spans();
    let warnings = blocked_warnings(found.blocked(), None, found.blocked().len());
    if spans.len() == 0 {
        r matches Ok(PullOutcome::NotPossible)
    } else {
        match (deployed, entry) {
            (None, _) => r matches Err(PullError::DeployedUnreadable),
            (Some(_), None) => r matches Err(PullError::NoEntry),
            (Some(d), Some(e)) => match e.from_config {
                None => r matches Err(PullError::NoFromConfig),
                Some(config) => {
                    let wanted = edits::field_edits(config@, d, seq![]);
                    if dry_run {
                        r matches Ok(PullOutcome::WouldUpdate { notes }) && output::log_model(
                            notes@,
                        ) == seq![
                            (Level::Info, "[dry-run] Would update from_config in "@ + ncl_path),
                        ] + branch_notes(spans, spans.len())
                    } else if !first_span_fits(source, spans) {
                        r matches Err(PullError::Rewrite(RewriteError::SpanOutsideSource))
                    } else if structure && !only_modifies(wanted) {
                        structural_right(r, wanted, spans_indent(source, spans), warnings)
                    } else {
                        rewrite_right(r, source, spans, config@, d, warnings)
                    }
                },
            },
        }
    }
}

/// Plans the pull of a whole entry whose `from_config` is analysed.
pub fn pull_entry(
    found: &RewriteResult,
    source: &str,
    ncl_path: &str,
    deployed: Option<Json>,
    entry: Option<&FileEntry>,
    structure: bool,
    dry_run: bool,
) -> (r: Result<PullOutcome, PullError>)
    ensures
        entry_pull_right(
            r,
            found@,
            source@,
            ncl_path@,
            semantic::optional_model(deployed),
            entry,
            structure,
            dry_run,
        ),
{
    let spans = found.rewritable_spans();
    assert(ast_utils::spans_model(spans@).len() == spans@.len());
    if spans.len() == 0 {
        return Ok(PullOutcome::NotPossible);
    }
    let deployed_json = match deployed {
        Some(v) => v,
        None => {
            return Err(PullError::DeployedUnreadable);
        },
    };
    let file_entry = match entry {
        Some(e) => e,
        None => {
            return Err(PullError::NoEntry);
        },
    };
    let current = match &file_entry.from_config {
        Some(c) => c,
        None => {
            return Err(PullError::NoFromConfig);
        },
    };
    if dry_run {
        let mut notes: Vec<LogLine> = Vec::new();
        assert(output::log_model(notes@) =~= seq![]);
        let what = text::concat2("[dry-run] Would update from_config in ", ncl_path);
        add_note(&mut notes, Level::Info, what);
        note_branches(spans, &mut notes);
        assert(output::log_model(notes@) =~= seq![
            (Level::Info, "[dry-run] Would update from_config in "@ + ncl_path@),
        ] + branch_notes(found@.spans(), found@.spans().len()));
        return Ok(PullOutcome::WouldUpdate { notes });
    }
    let base_indent = match find_indent(source, spans) {
        Some(n) => n,
        None => {
            return Err(PullError::Rewrite(RewriteError::SpanOutsideSource));
        },
    };
    let fields = found.non_rewritable_fields();
    assert(ast_utils::blocked_model(fields@).len() == fields@.len());
    let warnings = warn_blocked(fields, None);
    if structure {
        let wanted = edits::build_field_edits_from_diff(current, &deployed_json);
        if !all_modify(&wanted) {
            return Ok(PullOutcome::Restructure { edits: wanted, base_indent, warnings });
        }
    }
    rewrite_source(source, spans, current, &deployed_json, base_indent, warnings)
}

/// Pulls a whole `from_config` entry: analyses its source, reads the deployed
/// text and plans the rewrite.
pub fn pull_from_config(
    source: &str,
    ncl_path: &str,
    file_entry_index: usize,
    metadata: &Metadata,
    deployed_content: &str,
    format: Format,
    entry: Option<&FileEntry>,
    structure: bool,
    dry_run: bool,
) -> (r: Result<PullOutcome, PullError>)
    ensures
        match (
            term::parsed_nickel(source@),
            r,
        ) {
            (None, _) => r matches Err(PullError::Locate(LocateError::Parse(_))),
            (Some(t), _) => match ast_utils::located(t, file_entry_index as nat, metadata@) {
                Err(e) => r matches Err(PullError::Locate(LocateError::Entry(f))) && f == e,
                Ok(found) => entry_pull_right(
                    r,
                    found,
                    source@,
                    ncl_path@,
                    formats::parsed(format, deployed_content@),
                    entry,
                    structure,
                    dry_run,
                ),
            },
        },
{
    match ast_utils::locate_from_config(source, file_entry_index, metadata) {
        Ok(found) => {
            let deployed = get_renderer(format).parse(deployed_content);
            pull_entry(&found, source, ncl_path, deployed, entry, structure, dry_run)
        },
        Err(e) => Err(PullError::Locate(e)),
    }
}

// ---------------------------------------------------------------------------
// Pulling single keys
// ---------------------------------------------------------------------------

/// Some of the pulled keys inserts or deletes a field.
pub open spec fn any_structural(
    current: JsonModel,
    deployed: JsonModel,
    changes: Seq<semantic::ChangeModel>,
    pulled: Seq<Seq<char>>,
) -> bool {
    exists|i: int|
        0 <= i < pulled.len() && edits::structural(
            current,
            deployed,
            changes,
            #[trigger] pulled[i],
        )
}

/// What a pull of single keys comes to, once the `from_config` is analysed.
pub open spec fn keys_pull_right(
    r: Result<PullOutcome, PullError>,
    found: RewriteModel,
    source: Seq<char>,
    ncl_path: Seq<char>,
    deployed: Option<JsonModel>,
    entry: Option<&FileEntry>,
    pulled: Seq<Seq<char>>,
    changes: Seq<semantic::ChangeModel>,
    structure: bool,
    dry_run: bool,
) -> bool {
    let spans = found.spans();
    let warnings = blocked_warnings(found.blocked(), Some(pulled), found.blocked().len());
    match (deployed, entry) {
        (None, _) => r matches Err(PullError::DeployedUnreadable),
        (Some(_), None) => r matches Err(PullError::NoEntry),
        (Some(d), Some(e)) => match e.from_config {
            None => r matches Err(PullError::NoFromConfig),
            Some(config) => if dry_run {
                r matches Ok(PullOutcome::WouldUpdate { notes }) && output::log_model(notes@)
                    == seq![
                    (
                        Level::Info,
                        "[dry-run] Would update "@ + text::digits(pulled.len(), 10) + " keys in "@
                            + ncl_path,
                    ),
                ]
            } else if !first_span_fits(source, spans) {
                r matches Err(PullError::Rewrite(RewriteError::SpanOutsideSource))
            } else if structure && any_structural(config@, d, changes, pulled) {
                structural_right(
                    r,
                    edits::key_edits(config@, d, changes, pulled, pulled.len()),
                    spans_indent(source, spans),
                    warnings,
                )
            } else if spans.len() == 0 {
                r matches Ok(PullOutcome::NotPossible)
            } else {
                rewrite_right(
                    r,
                    source,
                    spans,
                    config@,
                    overlay::overlaid(config@, d, pulled, seq![]),
                    warnings,
                )
            },
        },
    }
}

/// Plans the pull of single keys of an entry whose `from_config` is analysed.
pub fn pull_keys(
    found: &RewriteResult,
    source: &str,
    ncl_path: &str,
    deployed: Option<Json>,
    entry: Option<&FileEntry>,
    pulled_keys: &[String],
    key_changes: &[KeyChange],
    structure: bool,
    dry_run: bool,
) -> (r: Result<PullOutcome, PullError>)
    ensures
        keys_pull_right(
            r,
            found@,
            source@,
            ncl_path@,
            semantic::optional_model(deployed),
            entry,
            text::texts(pulled_keys@),
            semantic::changes_model(key_changes@),
            structure,
            dry_run,
        ),
{
    let spans = found.rewritable_spans();
    assert(ast_utils::spans_model(spans@).len() == spans@.len());
    let ghost pulled = text::texts(pulled_keys@);
    let deployed_json = match deployed {
        Some(v) => v,
        None => {
            return Err(PullError::DeployedUnreadable);
        },
    };
    let file_entry = match entry {
        Some(e) => e,
        None => {
            return Err(PullError::NoEntry);
        },
    };
    let current = match &file_entry.from_config {
        Some(c) => c,
        None => {
            return Err(PullError::NoFromConfig);
        },
    };
    if dry_run {
        let mut notes: Vec<LogLine> = Vec::new();
        assert(output::log_model(notes@) =~= seq![]);
        let count = text::decimal(pulled_keys.len());
        let what = text::concat3("[dry-run] Would update ", &count, " keys in ");
        add_note(&mut notes, Level::Info, text::concat2(&what, ncl_path));
        assert(output::log_model(notes@) =~= seq![
            (
                Level::Info,
                "[dry-run] Would update "@ + text::digits(pulled.len(), 10) + " keys in "@
                    + ncl_path@,
            ),
        ]);
        return Ok(PullOutcome::WouldUpdate { notes });
    }
    let base_indent = match find_indent(source, spans) {
        Some(n) => n,
        None => {
            return Err(PullError::Rewrite(RewriteError::SpanOutsideSource));
        },
    };
    let fields = found.non_rewritable_fields();
    assert(ast_utils::blocked_model(fields@).len() == fields@.len());
    let warnings = warn_blocked(fields, Some(pulled_keys));
    if structure && edits::has_structural_changes(
        current,
        &deployed_json,
        pulled_keys,
        key_changes,
    ) {
        let wanted = edits::build_field_edits_for_keys(
            current,
            &deployed_json,
            pulled_keys,
            key_changes,
        );
        return Ok(PullOutcome::Restructure { edits: wanted, base_indent, warnings });
    }
    if spans.len() == 0 {
        return Ok(PullOutcome::NotPossible);
    }
    let chosen = overlay::build_selective_deployed(current, &deployed_json, pulled_keys);
    rewrite_source(source, spans, current, &chosen, base_indent, warnings)
}

/// Pulls single keys of a `from_config` entry, with what is known of their
/// changes.
pub fn pull_from_config_keys_with_changes(
    source: &str,
    ncl_path: &str,
    file_entry_index: usize,
    metadata: &Metadata,
    deployed_content: &str,
    format: Format,
    entry: Option<&FileEntry>,
    pulled_keys: &[String],
    key_changes: &[KeyChange],
    structure: bool,
    dry_run: bool,
) -> (r: Result<PullOutcome, PullError>)
    ensures
        pulled_keys@.len() == 0 ==> r matches Ok(PullOutcome::Nothing),
        pulled_keys@.len() > 0 ==> match (term::parsed_nickel(source@), r) {
            (None, _) => r matches Err(PullError::Locate(LocateError::Parse(_))),
            (Some(t), _) => match ast_utils::located(t, file_entry_index as nat, metadata@) {
                Err(e) => r matches Err(PullError::Locate(LocateError::Entry(f))) && f == e,
                Ok(found) => keys_pull_right(
                    r,
                    found,
                    source@,
                    ncl_path@,
                    formats::parsed(format, deployed_content@),
                    entry,
                    text::texts(pulled_keys@),
                    semantic::changes_model(key_changes@),
                    structure,
                    dry_run,
                ),
            },
        },
{
    if pulled_keys.len() == 0 {
        return Ok(PullOutcome::Nothing);
    }
    match ast_utils::locate_from_config(source, file_entry_index, metadata) {
        Ok(found) => {
            let deployed = get_renderer(format).parse(deployed_content);
            pull_keys(
                &found,
                source,
                ncl_path,
                deployed,
                entry,
                pulled_keys,
                key_changes,
                structure,
                dry_run,
            )
        },
        Err(e) => Err(PullError::Locate(e)),
    }
}

/// Pulls single keys of a `from_config` entry.
pub fn pull_from_config_keys(
    source: &str,
    ncl_path: &str,
    file_entry_index: usize,
    metadata: &Metadata,
    deployed_content: &str,
    format: Format,
    entry: Option<&FileEntry>,
    pulled_keys: &[String],
    structure: bool,
    dry_run: bool,
) -> (r: Result<PullOutcome, PullError>)
    ensures
        pulled_keys@.len() == 0 ==> r matches Ok(PullOutcome::Nothing),
        pulled_keys@.len() > 0 ==> match (term::parsed_nickel(source@), r) {
            (None, _) => r matches Err(PullError::Locate(LocateError::Parse(_))),
            (Some(t), _) => match ast_utils::located(t, file_entry_index as nat, metadata@) {
                Err(e) => r matches Err(PullError::Locate(LocateError::Entry(f))) && f == e,
                Ok(found) => keys_pull_right(
                    r,
                    found,
                    source@,
                    ncl_path@,
                    formats::parsed(format, deployed_content@),
                    entry,
                    text::texts(pulled_keys@),
                    seq![],
                    structure,
                    dry_run,
                ),
            },
        },
{
    let none: Vec<KeyChange> = Vec::new();
    assert(semantic::changes_model(none@) =~= seq![]);
    pull_from_config_keys_with_changes(
        source,
        ncl_path,
        file_entry_index,
        metadata,
        deployed_content,
        format,
        entry,
        pulled_keys,
        &none,
        structure,
        dry_run,
    )
}

// ---------------------------------------------------------------------------
// Whether a pull is possible
// ---------------------------------------------------------------------------

/// A build can be pulled: a plaintext one always, another where its source is
/// there and some value of it can be rewritten.
pub fn can_auto_pull(
    is_plaintext: bool,
    source: Option<&str>,
    file_entry_index: usize,
    metadata: &Metadata,
) -> (r: bool)
    ensures
        is_plaintext ==> r,
        !is_plaintext && source is None ==> !r,
        !is_plaintext && source is Some ==> r == match term::parsed_nickel(source->0@) {
            Some(t) => match ast_utils::located(t, file_entry_index as nat, metadata@) {
                Ok(found) => !(found is NotRewritable),
                Err(_) => false,
            },
            None => false,
        },
{
    if is_plaintext {
        return true;
    }
    match source {
        Some(s) => match ast_utils::locate_from_config(s, file_entry_index, metadata) {
            Ok(found) => found.has_any_rewritable(),
            Err(_) => false,
        },
        None => false,
    }
}

// ---------------------------------------------------------------------------
// Laws of pulling
// ---------------------------------------------------------------------------

/// A dry run never comes to a new source, nor to edits of one.
pub proof fn law_dry_pull(
    r: Result<PullOutcome, PullError>,
    found: RewriteModel,
    source: Seq<char>,
    ncl_path: Seq<char>,
    deployed: Option<JsonModel>,
    entry: Option<&FileEntry>,
    pulled: Seq<Seq<char>>,
    changes: Seq<semantic::ChangeModel>,
    structure: bool,
)
    requires
        entry_pull_right(r, found, source, ncl_path, deployed, entry, structure, true)
            || keys_pull_right(
            r,
            found,
            source,
            ncl_path,
            deployed,
            entry,
            pulled,
            changes,
            structure,
            true,
        ),
    ensures
        !(r matches Ok(PullOutcome::Rewritten { .. })),
        !(r matches Ok(PullOutcome::Restructure { .. })),
{
}

/// A pull of values that are deployed as the order has them leaves the source as
/// it is.
pub proof fn law_pull_same(
    r: Result<PullOutcome, PullError>,
    source: Seq<char>,
    spans: Seq<SpanModel>,
    value: JsonModel,
    warnings: Seq<(Level, Seq<char>)>,
)
    requires
        json::well_formed(value),
        rewrite_right(r, source, spans, value, value, warnings),
    ensures
        r matches Ok(PullOutcome::Rewritten { source: t, warnings: _ }) ==> t@ == source,
{
    if let JsonModel::Object(current) = value {
        rewrite::law_rewrite_same(source, spans, current, spans_indent(source, spans));
        if let Ok(PullOutcome::Rewritten { source: t, warnings: _ }) = r {
            text::lemma_encode_injective(t@, source);
        }
    }
}

/// A pull of no keys leaves the source as it is.
pub proof fn law_pull_no_keys(
    r: Result<PullOutcome, PullError>,
    source: Seq<char>,
    spans: Seq<SpanModel>,
    current: JsonModel,
    deployed: JsonModel,
    warnings: Seq<(Level, Seq<char>)>,
)
    requires
        json::well_formed(current),
        rewrite_right(
            r,
            source,
            spans,
            current,
            overlay::overlaid(current, deployed, seq![], seq![]),
            warnings,
        ),
    ensures
        r matches Ok(PullOutcome::Rewritten { source: t, warnings: _ }) ==> t@ == source,
{
    overlay::law_nothing_pulled(current, deployed, seq![]);
    law_pull_same(r, source, spans, current, warnings);
}

/// A pull warns of each field that cannot be pulled, and of no other: of all of
/// them where the whole entry is pulled, else of those that the pulled keys reach.
pub proof fn law_warned(fields: Seq<BlockedModel>, pulled: Option<Seq<Seq<char>>>, n: nat)
    requires
        n <= fields.len(),
    ensures
        forall|i: int|
            0 <= i < n && (pulled is None || overlay::reaches(
                pulled->0,
                (#[trigger] fields[i]).name,
            )) ==> blocked_warnings(fields, pulled, n).contains(blocked_warning(fields[i])),
        forall|k: int|
            0 <= k < blocked_warnings(fields, pulled, n).len() ==> exists|i: int|
                0 <= i < n && (pulled is None || overlay::reaches(
                    pulled->0,
                    (#[trigger] fields[i]).name,
                )) && #[trigger] blocked_warnings(fields, pulled, n)[k] == blocked_warning(
                    fields[i],
                ),
        blocked_warnings(fields, pulled, n).len() <= n,
    decreases n,
{
    if n > 0 {
        law_warned(fields, pulled, (n - 1) as nat);
        let before = blocked_warnings(fields, pulled, (n - 1) as nat);
        let all = blocked_warnings(fields, pulled, n);
        let wanted = pulled is None || overlay::reaches(pulled->0, fields[n - 1].name);
        if wanted {
            assert(all[before.len() as int] == blocked_warning(fields[n - 1]));
        }
        assert forall|i: int|
            0 <= i < n && (pulled is None || overlay::reaches(
                pulled->0,
                (#[trigger] fields[i]).name,
            )) implies all.contains(blocked_warning(fields[i])) by {
            if i < n - 1 {
                assert(before.contains(blocked_warning(fields[i])));
                let k = before.index_of(blocked_warning(fields[i]));
                assert(all[k] == before[k]);
            }
        }
        assert forall|k: int| 0 <= k < all.len() implies exists|i: int|
            0 <= i < n && (pulled is None || overlay::reaches(
                pulled->0,
                (#[trigger] fields[i]).name,
            )) && #[trigger] all[k] == blocked_warning(fields[i]) by {
            if k < before.len() {
                assert(all[k] == before[k]);
                let i = choose|i: int|
                    0 <= i < n - 1 && (pulled is None || overlay::reaches(
                        pulled->0,
                        (#[trigger] fields[i]).name,
                    )) && before[k] == blocked_warning(fields[i]);
                assert(fields[i] == fields[i]);
            } else {
                assert(fields[n - 1] == fields[n - 1]);
            }
        }
    }
}

} // verus!
