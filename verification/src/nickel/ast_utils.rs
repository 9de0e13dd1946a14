//! The walk that finds, in the source of an order, the values that can be
//! rewritten in place.
//!
//! A value is followed through conditionals along the branch that is active on
//! the machine at hand, down to a literal.
use crate::metadata;
use crate::metadata::{Metadata, MetadataModel};
use crate::nickel::term;
use crate::nickel::term::{
    Branch, BranchModel, Chunk, ChunkModel, Field, FieldModel, Kind, KindModel, Pattern,
    PatternModel, Span, Term, TermModel,
};
use crate::text;
use vstd::prelude::*;
use vstd::string::*;
use vstd::utf8::*;

verus! {

// ---------------------------------------------------------------------------
// Results
// ---------------------------------------------------------------------------

/// A leaf value's place in the source, whether it stands at the top level or
/// inside a conditional branch.
#[derive(Debug)]
pub struct LeafSpan {
    /// Field name.
    pub name: String,
    /// Byte offset of the value.
    pub value_start: usize,
    /// Byte offset of the value's end.
    pub value_end: usize,
    /// Trail of conditions followed to reach this value.
    pub branch_context: Vec<String>,
}

/// A field whose value cannot be rewritten.
#[derive(Debug)]
pub struct NonRewritableField {
    /// Field name.
    pub name: String,
    /// Why it cannot be rewritten.
    pub reason: String,
    /// Conditions followed before the walk ended.
    pub branch_context: Vec<String>,
}

/// Result of analysing a `from_config` value.
#[derive(Debug)]
pub enum RewriteResult {
    /// All fields reach rewritable leaf values.
    Rewritable { leaf_spans: Vec<LeafSpan> },
    /// Some fields are rewritable, some are not.
    Partial { rewritable: Vec<LeafSpan>, non_rewritable: Vec<NonRewritableField> },
    /// Nothing is rewritable, or there is no `from_config`.
    NotRewritable,
}

/// What stands where a record was looked for.
#[derive(Debug, Clone, Copy, PartialEq, Eq, Structural)]
pub enum Found {
    Scalar,
    Text,
    Array,
    Match,
    Application,
    Conditional,
    Access,
    Comparison,
    Variable,
    Other,
}

/// Why a source has no file entry at an index.
#[derive(Debug, Clone, Copy, PartialEq, Eq, Structural)]
pub enum EntryFailure {
    /// The source is not a record but something else.
    NoRecord(Found),
    NoBlend,
    BlendWithoutValue,
    BlendNotRecord,
    NoFiles,
    FilesWithoutValue,
    FilesNotArray,
    IndexOutOfBounds,
    EntryNotRecord,
}

/// Why the `from_config` of a file entry could not be looked for.
#[derive(Debug)]
pub enum LocateError {
    /// The source does not parse, with the parser's message.
    Parse(String),
    /// The source has no such file entry.
    Entry(EntryFailure),
}

/// A span as mathematics sees it.
pub struct SpanModel {
    pub name: Seq<char>,
    pub value_start: nat,
    pub value_end: nat,
    pub branch_context: Seq<Seq<char>>,
}

/// A field that cannot be rewritten as mathematics sees it.
pub struct BlockedModel {
    pub name: Seq<char>,
    pub reason: Seq<char>,
    pub branch_context: Seq<Seq<char>>,
}

/// The result of an analysis as mathematics sees it.
pub enum RewriteModel {
    Rewritable(Seq<SpanModel>),
    Partial(Seq<SpanModel>, Seq<BlockedModel>),
    NotRewritable,
}

impl View for LeafSpan {
    type V = SpanModel;

    open spec fn view(&self) -> SpanModel {
        SpanModel {
            name: self.name@,
            value_start: self.value_start as nat,
            value_end: self.value_end as nat,
            branch_context: text::texts(self.branch_context@),
        }
    }
}

impl View for NonRewritableField {
    type V = BlockedModel;

    open spec fn view(&self) -> BlockedModel {
        BlockedModel {
            name: self.name@,
            reason: self.reason@,
            branch_context: text::texts(self.branch_context@),
        }
    }
}

/// What a list of spans holds.
pub open spec fn spans_model(spans: Seq<LeafSpan>) -> Seq<SpanModel> {
    spans.map_values(|s: LeafSpan| s@)
}

/// What a list of fields that cannot be rewritten holds.
pub open spec fn blocked_model(fields: Seq<NonRewritableField>) -> Seq<BlockedModel> {
    fields.map_values(|f: NonRewritableField| f@)
}

impl View for RewriteResult {
    type V = RewriteModel;

    open spec fn view(&self) -> RewriteModel {
        match self {
            RewriteResult::Rewritable { leaf_spans } => RewriteModel::Rewritable(
                spans_model(leaf_spans@),
            ),
            RewriteResult::Partial { rewritable, non_rewritable } => RewriteModel::Partial(
                spans_model(rewritable@),
                blocked_model(non_rewritable@),
            ),
            RewriteResult::NotRewritable => RewriteModel::NotRewritable,
        }
    }
}

impl RewriteModel {
    /// The spans that can be rewritten.
    pub open spec fn spans(self) -> Seq<SpanModel> {
        match self {
            RewriteModel::Rewritable(spans) => spans,
            RewriteModel::Partial(spans, _) => spans,
            RewriteModel::NotRewritable => seq![],
        }
    }

    /// The fields that cannot be rewritten.
    pub open spec fn blocked(self) -> Seq<BlockedModel> {
        match self {
            RewriteModel::Partial(_, blocked) => blocked,
            _ => seq![],
        }
    }
}

impl RewriteResult {
    /// Whether every field can be rewritten.
    pub fn is_rewritable(&self) -> (r: bool)
        ensures
            r == (self@ is Rewritable),
    {
        matches!(self, RewriteResult::Rewritable { .. })
    }

    /// Whether some field can be rewritten.
    pub fn has_any_rewritable(&self) -> (r: bool)
        ensures
            r == (self@ is Rewritable || self@ is Partial),
    {
        matches!(self, RewriteResult::Rewritable { .. } | RewriteResult::Partial { .. })
    }

    /// All spans that can be rewritten.
    pub fn rewritable_spans(&self) -> (r: &[LeafSpan])
        ensures
            spans_model(r@) == self@.spans(),
    {
        match self {
            RewriteResult::Rewritable { leaf_spans } => leaf_spans,
            RewriteResult::Partial { rewritable, .. } => rewritable,
            RewriteResult::NotRewritable => {
                let none: &[LeafSpan] = &[];
                assert(spans_model(none@) =~= seq![]);
                none
            },
        }
    }

    /// All fields that cannot be rewritten.
    pub fn non_rewritable_fields(&self) -> (r: &[NonRewritableField])
        ensures
            blocked_model(r@) == self@.blocked(),
    {
        match self {
            RewriteResult::Partial { non_rewritable, .. } => non_rewritable,
            _ => {
                let none: &[NonRewritableField] = &[];
                assert(blocked_model(none@) =~= seq![]);
                none
            },
        }
    }
}

// ---------------------------------------------------------------------------
// The walk through one value
// ---------------------------------------------------------------------------

/// Where the walk through a value ends, with the conditions that it followed.
#[derive(Debug)]
pub enum SingleFieldResult {
    Rewritable { value_start: usize, value_end: usize, branch_context: Vec<String> },
    NotRewritable { reason: String, branch_context: Vec<String> },
}

/// Where the walk ends, as mathematics sees it.
pub enum WalkModel {
    Leaf { value_start: nat, value_end: nat, trail: Seq<Seq<char>> },
    Blocked { reason: Seq<char>, trail: Seq<Seq<char>> },
}

impl View for SingleFieldResult {
    type V = WalkModel;

    open spec fn view(&self) -> WalkModel {
        match self {
            SingleFieldResult::Rewritable {
                value_start,
                value_end,
                branch_context,
            } => WalkModel::Leaf {
                value_start: *value_start as nat,
                value_end: *value_end as nat,
                trail: text::texts(branch_context@),
            },
            SingleFieldResult::NotRewritable { reason, branch_context } => WalkModel::Blocked {
                reason: reason@,
                trail: text::texts(branch_context@),
            },
        }
    }
}

/// The field of the machine that an expression reads, as `metadata.os` does.
pub open spec fn resolved_field(node: KindModel, m: MetadataModel) -> Option<Seq<char>> {
    match node {
        KindModel::Access { field, args } => if args.len() > 0 && args[0].kind == KindModel::Var(
            "metadata"@,
        ) {
            metadata::metadata_field(m, field)
        } else {
            None
        },
        _ => None,
    }
}

/// The text of a string literal without interpolation.
pub open spec fn string_literal(node: KindModel) -> Option<Seq<char>> {
    match node {
        KindModel::Text(t) => Some(t),
        KindModel::Chunks(chunks) => if chunks.len() == 1 {
            match chunks[0] {
                ChunkModel::Literal(t) => Some(t),
                ChunkModel::Interpolated => None,
            }
        } else {
            None
        },
        _ => None,
    }
}

/// Whether no piece of a string is interpolated.
pub open spec fn literal_chunks(chunks: Seq<ChunkModel>) -> bool {
    forall|i: int| 0 <= i < chunks.len() ==> (#[trigger] chunks[i]) is Literal
}

/// What a condition comes to: a field of the machine compared with a string
/// literal, on either side.
pub open spec fn condition_value(node: KindModel, m: MetadataModel) -> Option<bool> {
    match node {
        KindModel::Equal(args) => if args.len() == 2 {
            match (
                resolved_field(args[0].kind, m),
                string_literal(args[1].kind),
                resolved_field(args[1].kind, m),
                string_literal(args[0].kind),
            ) {
                (Some(a), Some(b), _, _) => Some(a == b),
                (_, _, Some(a), Some(b)) => Some(a == b),
                _ => None,
            }
        } else {
            None
        },
        _ => None,
    }
}

/// Whether a pattern matches a string.
pub open spec fn pattern_accepts(pattern: PatternModel, value: Seq<char>) -> bool {
    match pattern {
        PatternModel::Wildcard => true,
        PatternModel::Any => true,
        PatternModel::Text(t) => t == value,
        PatternModel::Other => false,
    }
}

/// The position, at or behind `from`, of the first branch that matches.
pub open spec fn first_match(branches: Seq<BranchModel>, value: Seq<char>, from: nat) -> nat
    decreases branches.len() - from,
{
    if from >= branches.len() || pattern_accepts(branches[from as int].pattern, value) {
        from
    } else {
        first_match(branches, value, from + 1)
    }
}

/// How a followed `match` is described.
pub open spec fn match_context(node: KindModel, value: Seq<char>) -> Seq<char> {
    match node {
        KindModel::Access { field, .. } => field + " == \""@ + value + "\""@,
        _ => "matched \""@ + value + "\""@,
    }
}

/// How a followed `if` is described.
pub open spec fn if_context(taken: bool) -> Seq<char> {
    if taken {
        "if condition \u{2192} then"@
    } else {
        "if condition \u{2192} else"@
    }
}

/// A literal ends the walk; it can be rewritten where its place is known.
pub open spec fn leaf(span: Option<Span>, trail: Seq<Seq<char>>) -> WalkModel {
    match span {
        Some(s) => WalkModel::Leaf {
            value_start: s.start as nat,
            value_end: s.end as nat,
            trail,
        },
        None => WalkModel::Blocked { reason: "no source position"@, trail },
    }
}

/// The walk through a value: along the active branches to a literal.
pub open spec fn walk(t: TermModel, m: MetadataModel, trail: Seq<Seq<char>>) -> WalkModel
    decreases t,
{
    match t.kind {
        KindModel::Scalar => leaf(t.span, trail),
        KindModel::Text(_) => leaf(t.span, trail),
        KindModel::Record(_, _) => leaf(t.span, trail),
        KindModel::Array(_) => leaf(t.span, trail),
        KindModel::Chunks(chunks) => if literal_chunks(chunks) {
            leaf(t.span, trail)
        } else {
            WalkModel::Blocked { reason: "string with interpolation"@, trail }
        },
        KindModel::App { head, args } => match head.kind {
            KindModel::Match(branches) => if args.len() == 0 {
                WalkModel::Blocked { reason: "match applied without argument"@, trail }
            } else {
                match resolved_field(args[0].kind, m) {
                    Some(value) => {
                        let k = first_match(branches, value, 0) as int;
                        if 0 <= k < branches.len() {
                            walk(
                                branches[k].body,
                                m,
                                trail.push(match_context(args[0].kind, value)),
                            )
                        } else {
                            WalkModel::Blocked {
                                reason: "no match branch for value \""@ + value + "\""@,
                                trail,
                            }
                        }
                    },
                    None => WalkModel::Blocked {
                        reason: "cannot resolve match argument against metadata"@,
                        trail,
                    },
                }
            },
            _ => WalkModel::Blocked { reason: "unsupported expression type"@, trail },
        },
        KindModel::IfThenElse { cond, then_branch, else_branch } => match condition_value(
            cond.kind,
            m,
        ) {
            Some(taken) => walk(
                if taken {
                    *then_branch
                } else {
                    *else_branch
                },
                m,
                trail.push(if_context(taken)),
            ),
            None => WalkModel::Blocked { reason: "cannot evaluate if condition"@, trail },
        },
        _ => WalkModel::Blocked { reason: "unsupported expression type"@, trail },
    }
}

fn try_resolve_metadata_field(node: &Kind, m: &Metadata) -> (r: Option<String>)
    ensures
        metadata::optional_text(r) == resolved_field(node.model(), m@),
{
    broadcast use term::group_kind_models;

    match node {
        Kind::Access { field, args } => {
            let ghost a = term::terms_model(args@);
            if args.len() > 0 {
                assert(a[0] == args@[0].model());
                match &args[0].kind {
                    Kind::Var(name) => {
                        if text::str_eq(name, "metadata") {
                            return m.field(field);
                        }
                    },
                    _ => {},
                }
            }
            None
        },
        _ => None,
    }
}

fn try_extract_string_literal(node: &Kind) -> (r: Option<String>)
    ensures
        metadata::optional_text(r) == string_literal(node.model()),
{
    match node {
        Kind::Text(t) => Some(text::owned(t)),
        Kind::Chunks(chunks) => {
            if chunks.len() == 1 {
                match &chunks[0] {
                    Chunk::Literal(t) => Some(text::owned(t)),
                    Chunk::Interpolated => None,
                }
            } else {
                None
            }
        },
        _ => None,
    }
}

fn try_evaluate_condition(node: &Kind, m: &Metadata) -> (r: Option<bool>)
    ensures
        r == condition_value(node.model(), m@),
{
    broadcast use term::group_kind_models;

    match node {
        Kind::Equal(args) => {
            let ghost a = term::terms_model(args@);
            if args.len() != 2 {
                return None;
            }
            assert(a[0] == args@[0].model() && a[1] == args@[1].model());
            match (
                try_resolve_metadata_field(&args[0].kind, m),
                try_extract_string_literal(&args[1].kind),
            ) {
                (Some(x), Some(y)) => {
                    return Some(text::str_eq(&x, &y));
                },
                _ => {},
            }
            match (
                try_resolve_metadata_field(&args[1].kind, m),
                try_extract_string_literal(&args[0].kind),
            ) {
                (Some(x), Some(y)) => Some(text::str_eq(&x, &y)),
                _ => None,
            }
        },
        _ => None,
    }
}

fn match_pattern(pattern: &Pattern, value: &str) -> (r: bool)
    ensures
        r == pattern_accepts(pattern@, value@),
{
    match pattern {
        Pattern::Wildcard => true,
        Pattern::Any => true,
        Pattern::Text(t) => text::str_eq(t, value),
        Pattern::Other => false,
    }
}

fn find_match(branches: &Vec<Branch>, value: &str) -> (r: usize)
    ensures
        r <= branches@.len(),
        r == first_match(term::branches_model(branches@), value@, 0),
{
    let ghost m = term::branches_model(branches@);
    let mut i: usize = 0;
    while i < branches.len()
        invariant
            i <= branches@.len(),
            m == term::branches_model(branches@),
            first_match(m, value@, 0) == first_match(m, value@, i as nat),
        decreases branches@.len() - i,
    {
        assert(m[i as int] == branches@[i as int].model());
        if match_pattern(&branches[i].pattern, value) {
            return i;
        }
        i = i + 1;
    }
    i
}

fn format_match_context(node: &Kind, value: &str) -> (r: String)
    ensures
        r@ == match_context(node.model(), value@),
{
    match node {
        Kind::Access { field, .. } => {
            text::concat2(&text::concat3(field, " == \"", value), "\"")
        },
        _ => text::concat3("matched \"", value, "\""),
    }
}

fn leaf_at(span: Option<Span>, context: Vec<String>) -> (r: SingleFieldResult)
    ensures
        r@ == leaf(span, text::texts(context@)),
{
    match span {
        Some(s) => SingleFieldResult::Rewritable {
            value_start: s.start,
            value_end: s.end,
            branch_context: context,
        },
        None => blocked("no source position", context),
    }
}

fn blocked(reason: &str, context: Vec<String>) -> (r: SingleFieldResult)
    ensures
        r@ == (WalkModel::Blocked { reason: reason@, trail: text::texts(context@) }),
{
    SingleFieldResult::NotRewritable { reason: text::owned(reason), branch_context: context }
}

fn all_literal(chunks: &Vec<Chunk>) -> (r: bool)
    ensures
        r == literal_chunks(term::chunks_model(chunks@)),
{
    let ghost m = term::chunks_model(chunks@);
    let mut i: usize = 0;
    while i < chunks.len()
        invariant
            i <= chunks@.len(),
            m == term::chunks_model(chunks@),
            forall|k: int| 0 <= k < i ==> (#[trigger] m[k]) is Literal,
        decreases chunks@.len() - i,
    {
        assert(m[i as int] == chunks@[i as int]@);
        match &chunks[i] {
            Chunk::Literal(_) => {},
            Chunk::Interpolated => {
                assert(!(m[i as int] is Literal));
                return false;
            },
        }
        i = i + 1;
    }
    true
}

/// Follows a value along the branches that are active on a machine.
pub fn find_rewritable_value(t: &Term, m: &Metadata, context: Vec<String>) -> (r: SingleFieldResult)
    ensures
        r@ == walk(t@, m@, text::texts(context@)),
    decreases t,
{
    broadcast use term::group_kind_models;

    let ghost trail = text::texts(context@);
    match &t.kind {
        Kind::Scalar => leaf_at(t.span, context),
        Kind::Text(_) => leaf_at(t.span, context),
        Kind::Record(_, _) => leaf_at(t.span, context),
        Kind::Array(_) => leaf_at(t.span, context),
        Kind::Chunks(chunks) => {
            if all_literal(chunks) {
                leaf_at(t.span, context)
            } else {
                blocked("string with interpolation", context)
            }
        },
        Kind::App { head, args } => {
            let ghost a = term::terms_model(args@);
            proof {
                term::lemma_app_kind(*head, *args);
                assert(head.model().kind == head.kind.model());
            }
            match &head.kind {
                Kind::Match(branches) => {
                    let ghost b = term::branches_model(branches@);
                    proof {
                        term::lemma_match_kind(*branches);
                    }
                    if args.len() == 0 {
                        return blocked("match applied without argument", context);
                    }
                    assert(a[0] == args@[0].model());
                    match try_resolve_metadata_field(&args[0].kind, m) {
                        Some(value) => {
                            let k = find_match(branches, &value);
                            if k < branches.len() {
                                assert(b[k as int] == branches@[k as int].model());
                                let step = format_match_context(&args[0].kind, &value);
                                let mut trail_now = context;
                                proof {
                                    text::lemma_texts_push(trail_now@, step);
                                }
                                trail_now.push(step);
                                assert(decreases_to!(t => t.kind));
                                assert(decreases_to!(t.kind => t.kind->App_head));
                                assert(decreases_to!(head => head.kind));
                                assert(decreases_to!(head.kind => head.kind->Match_0));
                                assert(decreases_to!(branches@ => branches@[k as int]));
                                assert(decreases_to!(branches@[k as int] => branches@[k as int].body));
                                find_rewritable_value(&branches[k].body, m, trail_now)
                            } else {
                                let reason = text::concat3(
                                    "no match branch for value \"",
                                    &value,
                                    "\"",
                                );
                                blocked(&reason, context)
                            }
                        },
                        None => blocked(
                            "cannot resolve match argument against metadata",
                            context,
                        ),
                    }
                },
                _ => blocked("unsupported expression type", context),
            }
        },
        Kind::IfThenElse { cond, then_branch, else_branch } => {
            match try_evaluate_condition(&cond.kind, m) {
                Some(taken) => {
                    let step = if taken {
                        text::owned("if condition \u{2192} then")
                    } else {
                        text::owned("if condition \u{2192} else")
                    };
                    let mut trail_now = context;
                    proof {
                        text::lemma_texts_push(trail_now@, step);
                    }
                    trail_now.push(step);
                    assert(decreases_to!(t => t.kind));
                    if taken {
                        assert(decreases_to!(t.kind => t.kind->IfThenElse_then_branch));
                        find_rewritable_value(then_branch, m, trail_now)
                    } else {
                        assert(decreases_to!(t.kind => t.kind->IfThenElse_else_branch));
                        find_rewritable_value(else_branch, m, trail_now)
                    }
                },
                None => blocked("cannot evaluate if condition", context),
            }
        },
        _ => blocked("unsupported expression type", context),
    }
}

/// The conditions that the end of a walk reports.
pub open spec fn walk_trail(w: WalkModel) -> Seq<Seq<char>> {
    match w {
        WalkModel::Leaf { trail, .. } => trail,
        WalkModel::Blocked { trail, .. } => trail,
    }
}

/// A walk only adds to the conditions that it starts from, and where it ends
/// does not depend on them.
pub proof fn law_walk_trail(t: TermModel, m: MetadataModel, trail: Seq<Seq<char>>)
    ensures
        walk_trail(walk(t, m, trail)) == trail + walk_trail(walk(t, m, seq![])),
        match (walk(t, m, trail), walk(t, m, seq![])) {
            (
                WalkModel::Leaf { value_start: s, value_end: e, .. },
                WalkModel::Leaf { value_start, value_end, .. },
            ) => s == value_start && e == value_end,
            (
                WalkModel::Blocked { reason: r, .. },
                WalkModel::Blocked { reason, .. },
            ) => r == reason,
            _ => false,
        },
    decreases t,
{
    let none = Seq::<Seq<char>>::empty();
    assert(trail + none =~= trail);
    match t.kind {
        KindModel::App { head, args } => match head.kind {
            KindModel::Match(branches) => if args.len() > 0 {
                match resolved_field(args[0].kind, m) {
                    Some(value) => {
                        let k = first_match(branches, value, 0) as int;
                        if 0 <= k < branches.len() {
                            let step = match_context(args[0].kind, value);
                            law_walk_trail(branches[k].body, m, trail.push(step));
                            law_walk_trail(branches[k].body, m, none.push(step));
                            let rest = walk_trail(walk(branches[k].body, m, none));
                            assert(trail.push(step) + rest =~= trail + (none.push(step) + rest));
                        }
                    },
                    None => {},
                }
            },
            _ => {},
        },
        KindModel::IfThenElse { cond, then_branch, else_branch } => match condition_value(
            cond.kind,
            m,
        ) {
            Some(taken) => {
                let step = if_context(taken);
                if taken {
                    law_walk_trail(*then_branch, m, trail.push(step));
                    law_walk_trail(*then_branch, m, none.push(step));
                    let rest = walk_trail(walk(*then_branch, m, none));
                    assert(trail.push(step) + rest =~= trail + (none.push(step) + rest));
                } else {
                    law_walk_trail(*else_branch, m, trail.push(step));
                    law_walk_trail(*else_branch, m, none.push(step));
                    let rest = walk_trail(walk(*else_branch, m, none));
                    assert(trail.push(step) + rest =~= trail + (none.push(step) + rest));
                }
            },
            None => {},
        },
        _ => {},
    }
}

/// An `if` on a field of the machine leads to the branch that the machine takes
/// and never to the other one.
pub proof fn law_active_branch(
    cond: TermModel,
    then_branch: TermModel,
    else_branch: TermModel,
    other: TermModel,
    span: Option<Span>,
    m: MetadataModel,
)
    requires
        condition_value(cond.kind, m) is Some,
    ensures
        ({
            let here = TermModel {
                kind: KindModel::IfThenElse {
                    cond: Box::new(cond),
                    then_branch: Box::new(then_branch),
                    else_branch: Box::new(else_branch),
                },
                span,
            };
            let changed = TermModel {
                kind: if condition_value(cond.kind, m) == Some(true) {
                    KindModel::IfThenElse {
                        cond: Box::new(cond),
                        then_branch: Box::new(then_branch),
                        else_branch: Box::new(other),
                    }
                } else {
                    KindModel::IfThenElse {
                        cond: Box::new(cond),
                        then_branch: Box::new(other),
                        else_branch: Box::new(else_branch),
                    }
                },
                span,
            };
            walk(here, m, seq![]) == walk(changed, m, seq![])
        }),
{
}

// ---------------------------------------------------------------------------
// The way to a file entry
// ---------------------------------------------------------------------------

/// The fields of the record that a source comes to, behind its `let` bindings
/// and annotations.
pub open spec fn root_fields(t: TermModel) -> Option<Seq<FieldModel>>
    decreases t,
{
    match t.kind {
        KindModel::Record(fields, _) => Some(fields),
        KindModel::Let(body) => root_fields(*body),
        KindModel::Annotated(inner) => root_fields(*inner),
        _ => None,
    }
}

/// What an expression that is no record counts as.
pub open spec fn found_kind(kind: KindModel) -> Found {
    match kind {
        KindModel::Scalar => Found::Scalar,
        KindModel::Text(_) => Found::Text,
        KindModel::Chunks(_) => Found::Text,
        KindModel::Array(_) => Found::Array,
        KindModel::Match(_) => Found::Match,
        KindModel::App { .. } => Found::Application,
        KindModel::IfThenElse { .. } => Found::Conditional,
        KindModel::Access { .. } => Found::Access,
        KindModel::Equal(_) => Found::Comparison,
        KindModel::Var(_) => Found::Variable,
        _ => Found::Other,
    }
}

/// What a source comes to, behind its `let` bindings and annotations.
pub open spec fn root_found(t: TermModel) -> Found
    decreases t,
{
    match t.kind {
        KindModel::Let(body) => root_found(*body),
        KindModel::Annotated(inner) => root_found(*inner),
        kind => found_kind(kind),
    }
}

/// The first field with a name.
pub open spec fn named_field(fields: Seq<FieldModel>, name: Seq<char>) -> Option<FieldModel>
    decreases fields.len(),
{
    if fields.len() == 0 {
        None
    } else if fields[0].name() == Some(name) {
        Some(fields[0])
    } else {
        named_field(fields.skip(1), name)
    }
}

/// The spans that the first `n` fields of a record reach.
pub open spec fn reached_spans(fields: Seq<FieldModel>, m: MetadataModel, n: nat) -> Seq<SpanModel>
    decreases n,
{
    if n == 0 || n > fields.len() {
        seq![]
    } else {
        let before = reached_spans(fields, m, (n - 1) as nat);
        match (fields[n - 1].name(), fields[n - 1].value) {
            (Some(name), Some(value)) => match walk(value, m, seq![]) {
                WalkModel::Leaf { value_start, value_end, trail } => before.push(
                    SpanModel { name, value_start, value_end, branch_context: trail },
                ),
                WalkModel::Blocked { .. } => before,
            },
            _ => before,
        }
    }
}

/// The report of a field whose path is not one identifier: no key stands for it,
/// so it is not rewritten.
pub open spec fn unnamed_field(f: FieldModel) -> BlockedModel {
    BlockedModel {
        name: f.label(),
        reason: "field name is not a single identifier"@,
        branch_context: seq![],
    }
}

/// The fields, among the first `n` of a record, that have a value but reach no
/// literal, or have no single name.
pub open spec fn blocked_fields(fields: Seq<FieldModel>, m: MetadataModel, n: nat) -> Seq<
    BlockedModel,
>
    decreases n,
{
    if n == 0 || n > fields.len() {
        seq![]
    } else {
        let before = blocked_fields(fields, m, (n - 1) as nat);
        match (fields[n - 1].name(), fields[n - 1].value) {
            (Some(name), Some(value)) => match walk(value, m, seq![]) {
                WalkModel::Leaf { .. } => before,
                WalkModel::Blocked { reason, trail } => before.push(
                    BlockedModel { name, reason, branch_context: trail },
                ),
            },
            (None, Some(_)) => before.push(unnamed_field(fields[n - 1])),
            _ => before,
        }
    }
}

/// The report of a field that a record includes: its value stands elsewhere.
pub open spec fn included_field(name: Seq<char>) -> BlockedModel {
    BlockedModel { name, reason: "field is included"@, branch_context: seq![] }
}

/// The reports of the fields that a record includes.
pub open spec fn included_fields(names: Seq<Seq<char>>) -> Seq<BlockedModel> {
    names.map_values(|name: Seq<char>| included_field(name))
}

/// The analysis of a `from_config` value: of a record, field by field; of
/// anything else, as one value without a name.
pub open spec fn analysed(v: TermModel, m: MetadataModel) -> RewriteModel {
    match v.kind {
        KindModel::Record(fields, includes) => {
            let spans = reached_spans(fields, m, fields.len());
            let blocked = blocked_fields(fields, m, fields.len()) + included_fields(includes);
            if spans.len() == 0 {
                RewriteModel::NotRewritable
            } else if blocked.len() == 0 {
                RewriteModel::Rewritable(spans)
            } else {
                RewriteModel::Partial(spans, blocked)
            }
        },
        _ => match walk(v, m, seq![]) {
            WalkModel::Leaf { value_start, value_end, trail } => RewriteModel::Rewritable(
                seq![SpanModel { name: seq![], value_start, value_end, branch_context: trail }],
            ),
            WalkModel::Blocked { .. } => RewriteModel::NotRewritable,
        },
    }
}

/// The fields of the file entry at an index.
pub open spec fn entry_fields(t: TermModel, index: nat) -> Result<Seq<FieldModel>, EntryFailure> {
    match root_fields(t) {
        None => Err(EntryFailure::NoRecord(root_found(t))),
        Some(root) => match named_field(root, "blend"@) {
            None => Err(EntryFailure::NoBlend),
            Some(blend) => match blend.value {
                None => Err(EntryFailure::BlendWithoutValue),
                Some(blend_value) => match blend_value.kind {
                    KindModel::Record(blend_fields, _) => files_entry(blend_fields, index),
                    _ => Err(EntryFailure::BlendNotRecord),
                },
            },
        },
    }
}

/// The fields of the file entry at an index of the `files` of a `blend` record.
pub open spec fn files_entry(blend_fields: Seq<FieldModel>, index: nat) -> Result<
    Seq<FieldModel>,
    EntryFailure,
> {
    match named_field(blend_fields, "files"@) {
        None => Err(EntryFailure::NoFiles),
        Some(files) => match files.value {
            None => Err(EntryFailure::FilesWithoutValue),
            Some(files_value) => match files_value.kind {
                KindModel::Array(entries) => if index >= entries.len() {
                    Err(EntryFailure::IndexOutOfBounds)
                } else {
                    match entries[index as int].kind {
                        KindModel::Record(fields, _) => Ok(fields),
                        _ => Err(EntryFailure::EntryNotRecord),
                    }
                },
                _ => Err(EntryFailure::FilesNotArray),
            },
        },
    }
}

/// The analysis of the `from_config` of the file entry at an index.
pub open spec fn located(t: TermModel, index: nat, m: MetadataModel) -> Result<
    RewriteModel,
    EntryFailure,
> {
    match entry_fields(t, index) {
        Err(e) => Err(e),
        Ok(fields) => Ok(
            match named_field(fields, "from_config"@) {
                Some(field) => match field.value {
                    Some(value) => analysed(value, m),
                    None => RewriteModel::NotRewritable,
                },
                None => RewriteModel::NotRewritable,
            },
        ),
    }
}

/// A field with a single name whose value reaches a literal.
pub open spec fn reaches_literal(f: FieldModel, m: MetadataModel) -> bool {
    f.name() is Some && (f.value matches Some(v) && walk(v, m, seq![]) is Leaf)
}

/// The positions, among the first `n` fields, of those whose value is rewritable,
/// or of those with a value that is not.
pub open spec fn positions(
    fields: Seq<FieldModel>,
    m: MetadataModel,
    rewritable: bool,
    n: nat,
) -> Seq<int>
    decreases n,
{
    if n == 0 || n > fields.len() {
        seq![]
    } else {
        let before = positions(fields, m, rewritable, (n - 1) as nat);
        let f = fields[n - 1];
        if f.value is Some && reaches_literal(f, m) == rewritable {
            before.push(n - 1)
        } else {
            before
        }
    }
}

/// Positions below `n` that ascend.
pub open spec fn ascending(p: Seq<int>, n: int) -> bool {
    &&& forall|i: int| 0 <= i < p.len() ==> 0 <= #[trigger] p[i] < n
    &&& forall|i: int, j: int| 0 <= i < j < p.len() ==> #[trigger] p[i] < #[trigger] p[j]
}

/// A span is that of a field: its name, and where the walk through its value ends.
pub open spec fn span_of_field(s: SpanModel, f: FieldModel, m: MetadataModel) -> bool {
    &&& f.name() == Some(s.name)
    &&& f.value matches Some(v) && walk(v, m, seq![]) == (WalkModel::Leaf {
        value_start: s.value_start,
        value_end: s.value_end,
        trail: s.branch_context,
    })
}

/// A report is that of a field: its name, with the reason why the walk through
/// its value ends without a literal; or that of a field without a single name.
pub open spec fn report_of_field(b: BlockedModel, f: FieldModel, m: MetadataModel) -> bool {
    match (f.name(), f.value) {
        (Some(name), Some(v)) => name == b.name && walk(v, m, seq![]) == (WalkModel::Blocked {
            reason: b.reason,
            trail: b.branch_context,
        }),
        (None, Some(_)) => b == unnamed_field(f),
        _ => false,
    }
}

/// Every field with a value is accounted for exactly once: the spans are those of
/// the fields whose values are rewritable, the reports those of all others, each
/// list in the order of the fields.
pub proof fn law_fields_accounted(fields: Seq<FieldModel>, m: MetadataModel, n: nat)
    requires
        n <= fields.len(),
    ensures
        reached_spans(fields, m, n).len() == positions(fields, m, true, n).len(),
        blocked_fields(fields, m, n).len() == positions(fields, m, false, n).len(),
        forall|i: int|
            0 <= i < reached_spans(fields, m, n).len() ==> span_of_field(
                #[trigger] reached_spans(fields, m, n)[i],
                fields[positions(fields, m, true, n)[i]],
                m,
            ),
        forall|i: int|
            0 <= i < blocked_fields(fields, m, n).len() ==> report_of_field(
                #[trigger] blocked_fields(fields, m, n)[i],
                fields[positions(fields, m, false, n)[i]],
                m,
            ),
        ascending(positions(fields, m, true, n), n as int),
        ascending(positions(fields, m, false, n), n as int),
        forall|rewritable: bool, i: int|
            0 <= i < n ==> (#[trigger] positions(fields, m, rewritable, n).contains(i) <==> (
            fields[i].value is Some && reaches_literal(fields[i], m) == rewritable)),
    decreases n,
{
    if n > 0 {
        law_fields_accounted(fields, m, (n - 1) as nat);
        assert forall|rewritable: bool, i: int| 0 <= i < n implies (#[trigger] positions(
            fields,
            m,
            rewritable,
            n,
        ).contains(i) <==> (fields[i].value is Some && reaches_literal(fields[i], m)
            == rewritable)) by {
            lemma_positions(fields, m, rewritable, n, i);
        }
        lemma_positions_ascend(fields, m, true, n);
        lemma_positions_ascend(fields, m, false, n);
    }
}

proof fn lemma_positions(
    fields: Seq<FieldModel>,
    m: MetadataModel,
    rewritable: bool,
    n: nat,
    i: int,
)
    requires
        n <= fields.len(),
        0 <= i < n,
    ensures
        positions(fields, m, rewritable, n).contains(i) <==> (fields[i].value is Some
            && reaches_literal(fields[i], m) == rewritable),
    decreases n,
{
    let now = positions(fields, m, rewritable, n);
    let before = positions(fields, m, rewritable, (n - 1) as nat);
    lemma_positions_ascend(fields, m, rewritable, (n - 1) as nat);
    if i < n - 1 {
        lemma_positions(fields, m, rewritable, (n - 1) as nat, i);
        if before.contains(i) {
            let k = choose|k: int| 0 <= k < before.len() && before[k] == i;
            assert(now[k] == i);
        }
    } else if fields[n - 1].value is Some && reaches_literal(fields[n - 1], m) == rewritable {
        assert(now.last() == i);
    } else if now.contains(i) {
        let k = choose|k: int| 0 <= k < before.len() && before[k] == i;
        assert(before[k] < n - 1);
    }
}

proof fn lemma_positions_ascend(
    fields: Seq<FieldModel>,
    m: MetadataModel,
    rewritable: bool,
    n: nat,
)
    requires
        n <= fields.len(),
    ensures
        ascending(positions(fields, m, rewritable, n), n as int),
    decreases n,
{
    if n > 0 {
        lemma_positions_ascend(fields, m, rewritable, (n - 1) as nat);
    }
}

/// What the kinds of an analysis say: one that is rewritable has a span and no
/// field without, a partial one has both spans and reports, and a record is not
/// rewritable exactly where no field reaches a literal.
pub proof fn law_analysis(v: TermModel, m: MetadataModel)
    ensures
        analysed(v, m) matches RewriteModel::Rewritable(spans) ==> spans.len() > 0,
        analysed(v, m) matches RewriteModel::Partial(spans, blocked) ==> spans.len() > 0
            && blocked.len() > 0,
        v.kind matches KindModel::Record(fields, includes) ==> {
            &&& analysed(v, m) is NotRewritable <==> forall|i: int|
                0 <= i < fields.len() ==> !reaches_literal(#[trigger] fields[i], m)
            &&& analysed(v, m) is Rewritable ==> includes.len() == 0 && forall|i: int|
                0 <= i < fields.len() && (#[trigger] fields[i]).value is Some ==> reaches_literal(
                    fields[i],
                    m,
                )
        },
{
    match v.kind {
        KindModel::Record(fields, includes) => {
            assert(included_fields(includes).len() == includes.len());
            let n = fields.len();
            law_fields_accounted(fields, m, n);
            let reached = positions(fields, m, true, n);
            let others = positions(fields, m, false, n);
            assert forall|i: int| 0 <= i < fields.len() && reached.len() == 0 implies
            !reaches_literal(#[trigger] fields[i], m) by {
                assert(!reached.contains(i));
            }
            if reached.len() > 0 {
                lemma_positions_ascend(fields, m, true, n);
                assert(reached.contains(reached[0]));
                assert(reaches_literal(fields[reached[0]], m));
            }
            assert forall|i: int|
                0 <= i < fields.len() && others.len() == 0 && (
                #[trigger] fields[i]).value is Some implies reaches_literal(fields[i], m) by {
                assert(!others.contains(i));
            }
        },
        _ => {},
    }
}

/// Each of the spans lies in the bytes of a source, on boundaries of characters.
pub open spec fn spans_lie_in(spans: Seq<SpanModel>, bytes: Seq<u8>) -> bool {
    forall|i: int|
        0 <= i < spans.len() ==> term::range_lies_in(
            (#[trigger] spans[i]).value_start,
            spans[i].value_end,
            bytes,
        )
}

proof fn lemma_walk_placed(t: TermModel, m: MetadataModel, trail: Seq<Seq<char>>, bytes: Seq<u8>)
    requires
        term::well_placed(t, bytes),
    ensures
        walk(t, m, trail) matches WalkModel::Leaf { value_start, value_end, .. }
            ==> term::range_lies_in(value_start, value_end, bytes),
    decreases t,
{
    match t.kind {
        KindModel::App { head, args } => match head.kind {
            KindModel::Match(branches) => if args.len() > 0 {
                match resolved_field(args[0].kind, m) {
                    Some(value) => {
                        let k = first_match(branches, value, 0) as int;
                        if 0 <= k < branches.len() {
                            assert(term::well_placed(*head, bytes));
                            assert(term::well_placed(branches[k].body, bytes));
                            lemma_walk_placed(
                                branches[k].body,
                                m,
                                trail.push(match_context(args[0].kind, value)),
                                bytes,
                            );
                        }
                    },
                    None => {},
                }
            },
            _ => {},
        },
        KindModel::IfThenElse { cond, then_branch, else_branch } => match condition_value(
            cond.kind,
            m,
        ) {
            Some(taken) => {
                if taken {
                    lemma_walk_placed(*then_branch, m, trail.push(if_context(taken)), bytes);
                } else {
                    lemma_walk_placed(*else_branch, m, trail.push(if_context(taken)), bytes);
                }
            },
            None => {},
        },
        _ => {},
    }
}

proof fn lemma_reached_placed(
    fields: Seq<FieldModel>,
    m: MetadataModel,
    n: nat,
    bytes: Seq<u8>,
)
    requires
        n <= fields.len(),
        fields_placed(fields, bytes),
    ensures
        spans_lie_in(reached_spans(fields, m, n), bytes),
    decreases n,
{
    if n > 0 {
        lemma_reached_placed(fields, m, (n - 1) as nat, bytes);
        match fields[n - 1].value {
            Some(v) => {
                assert(field_placed(fields[n - 1], bytes));
                lemma_walk_placed(v, m, seq![], bytes);
            },
            None => {},
        }
    }
}

/// The value of a field, where it has one, is well placed.
spec fn field_placed(f: FieldModel, bytes: Seq<u8>) -> bool {
    f.value matches Some(v) ==> term::well_placed(v, bytes)
}

spec fn fields_placed(fields: Seq<FieldModel>, bytes: Seq<u8>) -> bool {
    forall|i: int| 0 <= i < fields.len() ==> field_placed(#[trigger] fields[i], bytes)
}

proof fn lemma_record_placed(t: TermModel, bytes: Seq<u8>)
    requires
        term::well_placed(t, bytes),
    ensures
        t.kind matches KindModel::Record(fields, _) ==> fields_placed(fields, bytes),
{
    match t.kind {
        KindModel::Record(fields, _) => {
            assert forall|i: int| 0 <= i < fields.len() implies field_placed(
                #[trigger] fields[i],
                bytes,
            ) by {}
        },
        _ => {},
    }
}

proof fn lemma_root_placed(t: TermModel, bytes: Seq<u8>)
    requires
        term::well_placed(t, bytes),
    ensures
        root_fields(t) matches Some(fields) ==> fields_placed(fields, bytes),
    decreases t,
{
    match t.kind {
        KindModel::Let(body) => {
            lemma_root_placed(*body, bytes);
        },
        KindModel::Annotated(inner) => {
            lemma_root_placed(*inner, bytes);
        },
        _ => {
            lemma_record_placed(t, bytes);
        },
    }
}

proof fn lemma_named_placed(fields: Seq<FieldModel>, name: Seq<char>, bytes: Seq<u8>)
    requires
        fields_placed(fields, bytes),
    ensures
        named_field(fields, name) matches Some(f) ==> field_placed(f, bytes),
    decreases fields.len(),
{
    if fields.len() > 0 {
        let rest = fields.skip(1);
        assert(field_placed(fields[0], bytes));
        assert forall|i: int| 0 <= i < rest.len() implies field_placed(#[trigger] rest[i], bytes) by {
            assert(rest[i] == fields[i + 1]);
        }
        lemma_named_placed(rest, name, bytes);
    }
}

/// The spans that an analysis reports lie in the source, on boundaries of
/// characters, where the parsed source does.
pub proof fn law_located_placed(t: TermModel, index: nat, m: MetadataModel, bytes: Seq<u8>)
    requires
        term::well_placed(t, bytes),
    ensures
        located(t, index, m) matches Ok(found) ==> spans_lie_in(found.spans(), bytes),
{
    lemma_root_placed(t, bytes);
    match entry_fields(t, index) {
        Ok(fields) => {
            let root = root_fields(t)->0;
            lemma_named_placed(root, "blend"@, bytes);
            let blend_value = named_field(root, "blend"@)->0.value->0;
            lemma_record_placed(blend_value, bytes);
            let blend_fields = blend_value.kind->Record_0;
            lemma_named_placed(blend_fields, "files"@, bytes);
            let files_value = named_field(blend_fields, "files"@)->0.value->0;
            let entries = files_value.kind->Array_0;
            assert(term::well_placed(entries[index as int], bytes));
            lemma_record_placed(entries[index as int], bytes);
            lemma_named_placed(fields, "from_config"@, bytes);
            match named_field(fields, "from_config"@) {
                Some(field) => match field.value {
                    Some(value) => {
                        lemma_record_placed(value, bytes);
                        lemma_walk_placed(value, m, seq![], bytes);
                        match value.kind {
                            KindModel::Record(inner, _) => {
                                lemma_reached_placed(inner, m, inner.len(), bytes);
                            },
                            _ => {},
                        }
                    },
                    None => {},
                },
                None => {},
            }
        },
        Err(_) => {},
    }
}

fn kind_found(kind: &Kind) -> (r: Found)
    ensures
        r == found_kind(kind.model()),
{
    match kind {
        Kind::Scalar => Found::Scalar,
        Kind::Text(_) => Found::Text,
        Kind::Chunks(_) => Found::Text,
        Kind::Array(_) => Found::Array,
        Kind::Match(_) => Found::Match,
        Kind::App { .. } => Found::Application,
        Kind::IfThenElse { .. } => Found::Conditional,
        Kind::Access { .. } => Found::Access,
        Kind::Equal(_) => Found::Comparison,
        Kind::Var(_) => Found::Variable,
        _ => Found::Other,
    }
}

fn unwrap_to_record(t: &Term) -> (r: Result<&Vec<Field>, Found>)
    ensures
        match r {
            Ok(fields) => root_fields(t@) == Some(term::fields_model(fields@)),
            Err(found) => root_fields(t@) is None && found == root_found(t@),
        },
    decreases t,
{
    broadcast use term::group_kind_models;

    match &t.kind {
        Kind::Record(fields, _) => Ok(fields),
        Kind::Let(body) => {
            assert(decreases_to!(t => t.kind));
            assert(decreases_to!(t.kind => t.kind->Let_0));
            unwrap_to_record(body)
        },
        Kind::Annotated(inner) => {
            assert(decreases_to!(t => t.kind));
            assert(decreases_to!(t.kind => t.kind->Annotated_0));
            unwrap_to_record(inner)
        },
        kind => Err(kind_found(kind)),
    }
}

fn find_field<'a>(fields: &'a Vec<Field>, name: &str) -> (r: Option<&'a Field>)
    ensures
        match r {
            Some(field) => named_field(term::fields_model(fields@), name@) == Some(field.model()),
            None => named_field(term::fields_model(fields@), name@) is None,
        },
{
    let ghost m = term::fields_model(fields@);
    let mut i: usize = 0;
    assert(m.skip(0) =~= m);
    while i < fields.len()
        invariant
            i <= fields@.len(),
            m == term::fields_model(fields@),
            named_field(m, name@) == named_field(m.skip(i as int), name@),
        decreases fields@.len() - i,
    {
        let ghost rest = m.skip(i as int);
        assert(rest[0] == fields@[i as int].model());
        assert(rest.skip(1) =~= m.skip(i + 1));
        match fields[i].name() {
            Some(n) => {
                if text::str_eq(n, name) {
                    return Some(&fields[i]);
                }
            },
            None => {},
        }
        i = i + 1;
    }
    None
}

proof fn lemma_spans_push(spans: Seq<LeafSpan>, s: LeafSpan)
    ensures
        spans_model(spans.push(s)) == spans_model(spans).push(s@),
{
    assert(spans_model(spans.push(s)) =~= spans_model(spans).push(s@));
}

proof fn lemma_blocked_push(fields: Seq<NonRewritableField>, f: NonRewritableField)
    ensures
        blocked_model(fields.push(f)) == blocked_model(fields).push(f@),
{
    assert(blocked_model(fields.push(f)) =~= blocked_model(fields).push(f@));
}

fn analyse(v: &Term, metadata: &Metadata) -> (r: RewriteResult)
    ensures
        r@ == analysed(v@, metadata@),
{
    broadcast use term::group_kind_models;

    let ghost m = metadata@;
    let none: Vec<String> = Vec::new();
    assert(text::texts(none@) =~= seq![]);
    match &v.kind {
        Kind::Record(fields, includes) => {
            let ghost f = term::fields_model(fields@);
            let ghost names = text::texts(includes@);
            proof {
                term::lemma_record_kind(*fields, *includes);
                assert(v@.kind == KindModel::Record(f, names));
            }
            let mut rewritable: Vec<LeafSpan> = Vec::new();
            let mut non_rewritable: Vec<NonRewritableField> = Vec::new();
            assert(spans_model(rewritable@) =~= seq![]);
            assert(blocked_model(non_rewritable@) =~= seq![]);
            let mut i: usize = 0;
            while i < fields.len()
                invariant
                    i <= fields@.len(),
                    m == metadata@,
                    f == term::fields_model(fields@),
                    spans_model(rewritable@) == reached_spans(f, m, i as nat),
                    blocked_model(non_rewritable@) == blocked_fields(f, m, i as nat),
                decreases fields@.len() - i,
            {
                assert(f[i as int] == fields@[i as int].model());
                match (fields[i].name(), &fields[i].value) {
                    (Some(name), Some(value)) => {
                        let context: Vec<String> = Vec::new();
                        assert(text::texts(context@) =~= seq![]);
                        match find_rewritable_value(value, metadata, context) {
                            SingleFieldResult::Rewritable {
                                value_start,
                                value_end,
                                branch_context,
                            } => {
                                let span = LeafSpan {
                                    name: text::owned(name),
                                    value_start,
                                    value_end,
                                    branch_context,
                                };
                                proof {
                                    lemma_spans_push(rewritable@, span);
                                }
                                rewritable.push(span);
                            },
                            SingleFieldResult::NotRewritable { reason, branch_context } => {
                                let field = NonRewritableField {
                                    name: text::owned(name),
                                    reason,
                                    branch_context,
                                };
                                proof {
                                    lemma_blocked_push(non_rewritable@, field);
                                }
                                non_rewritable.push(field);
                            },
                        }
                    },
                    (None, Some(_)) => {
                        let branch_context: Vec<String> = Vec::new();
                        let field = NonRewritableField {
                            name: fields[i].label(),
                            reason: text::owned("field name is not a single identifier"),
                            branch_context,
                        };
                        proof {
                            assert(text::texts(branch_context@) =~= seq![]);
                            lemma_blocked_push(non_rewritable@, field);
                        }
                        non_rewritable.push(field);
                    },
                    _ => {},
                }
                i = i + 1;
            }
            let ghost own = blocked_model(non_rewritable@);
            let mut k: usize = 0;
            assert(own =~= own + included_fields(names).take(0));
            while k < includes.len()
                invariant
                    k <= includes@.len(),
                    names == text::texts(includes@),
                    blocked_model(non_rewritable@) == own + included_fields(names).take(k as int),
                decreases includes@.len() - k,
            {
                let branch_context: Vec<String> = Vec::new();
                let field = NonRewritableField {
                    name: text::owned(&includes[k]),
                    reason: text::owned("field is included"),
                    branch_context,
                };
                proof {
                    assert(names[k as int] == includes@[k as int]@);
                    assert(text::texts(branch_context@) =~= seq![]);
                    assert(field@ == included_fields(names)[k as int]);
                    lemma_blocked_push(non_rewritable@, field);
                }
                non_rewritable.push(field);
                k = k + 1;
                assert(blocked_model(non_rewritable@) =~= own + included_fields(names).take(
                    k as int,
                ));
            }
            assert(included_fields(names).take(k as int) =~= included_fields(names));
            assert(spans_model(rewritable@).len() == rewritable@.len());
            assert(blocked_model(non_rewritable@).len() == non_rewritable@.len());
            if rewritable.len() == 0 {
                RewriteResult::NotRewritable
            } else if non_rewritable.len() == 0 {
                RewriteResult::Rewritable { leaf_spans: rewritable }
            } else {
                RewriteResult::Partial { rewritable, non_rewritable }
            }
        },
        _ => match find_rewritable_value(v, metadata, none) {
            SingleFieldResult::Rewritable { value_start, value_end, branch_context } => {
                let span = LeafSpan {
                    name: String::new(),
                    value_start,
                    value_end,
                    branch_context,
                };
                let mut leaf_spans: Vec<LeafSpan> = Vec::new();
                proof {
                    assert(span.name@ =~= Seq::<char>::empty());
                    lemma_spans_push(leaf_spans@, span);
                    assert(spans_model(leaf_spans@) =~= seq![]);
                }
                leaf_spans.push(span);
                assert(spans_model(leaf_spans@) =~= seq![span@]);
                RewriteResult::Rewritable { leaf_spans }
            },
            SingleFieldResult::NotRewritable { .. } => RewriteResult::NotRewritable,
        },
    }
}

fn find_entry(t: &Term, index: usize) -> (r: Result<&Vec<Field>, EntryFailure>)
    ensures
        match r {
            Ok(fields) => entry_fields(t@, index as nat) == Ok::<Seq<FieldModel>, EntryFailure>(
                term::fields_model(fields@),
            ),
            Err(e) => entry_fields(t@, index as nat) == Err::<Seq<FieldModel>, EntryFailure>(e),
        },
{
    broadcast use term::group_kind_models;

    let root = match unwrap_to_record(t) {
        Ok(fields) => fields,
        Err(found) => {
            return Err(EntryFailure::NoRecord(found));
        },
    };
    let blend = match find_field(root, "blend") {
        Some(field) => field,
        None => {
            return Err(EntryFailure::NoBlend);
        },
    };
    let blend_value = match &blend.value {
        Some(value) => value,
        None => {
            return Err(EntryFailure::BlendWithoutValue);
        },
    };
    let (blend_fields, blend_includes) = match &blend_value.kind {
        Kind::Record(fields, includes) => (fields, includes),
        _ => {
            return Err(EntryFailure::BlendNotRecord);
        },
    };
    proof {
        term::lemma_record_kind(*blend_fields, *blend_includes);
        assert(blend.model().value == Some(blend_value.model()));
        assert(blend_value.model().kind == KindModel::Record(
            term::fields_model(blend_fields@),
            text::texts(blend_includes@),
        ));
        assert(entry_fields(t@, index as nat) == files_entry(
            term::fields_model(blend_fields@),
            index as nat,
        ));
    }
    let files = match find_field(blend_fields, "files") {
        Some(field) => field,
        None => {
            return Err(EntryFailure::NoFiles);
        },
    };
    let files_value = match &files.value {
        Some(value) => value,
        None => {
            return Err(EntryFailure::FilesWithoutValue);
        },
    };
    let entries = match &files_value.kind {
        Kind::Array(entries) => entries,
        _ => {
            return Err(EntryFailure::FilesNotArray);
        },
    };
    proof {
        term::lemma_array_kind(*entries);
        assert(files.model().value == Some(files_value.model()));
        assert(files_value.model().kind == KindModel::Array(term::terms_model(entries@)));
    }
    if index >= entries.len() {
        return Err(EntryFailure::IndexOutOfBounds);
    }
    assert(term::terms_model(entries@)[index as int] == entries@[index as int].model());
    let entry = &entries[index];
    assert(entry.model().kind == entry.kind.model());
    match &entry.kind {
        Kind::Record(fields, includes) => {
            proof {
                term::lemma_record_kind(*fields, *includes);
            }
            Ok(fields)
        },
        _ => Err(EntryFailure::EntryNotRecord),
    }
}

/// Analyses the `from_config` of the file entry at an index of a parsed source.
pub fn locate_in_term(t: &Term, file_entry_index: usize, metadata: &Metadata) -> (r: Result<
    RewriteResult,
    EntryFailure,
>)
    ensures
        match r {
            Ok(found) => located(t@, file_entry_index as nat, metadata@) == Ok::<
                RewriteModel,
                EntryFailure,
            >(found@),
            Err(e) => located(t@, file_entry_index as nat, metadata@) == Err::<
                RewriteModel,
                EntryFailure,
            >(e),
        },
{
    match find_entry(t, file_entry_index) {
        Ok(fields) => match find_field(fields, "from_config") {
            Some(field) => match &field.value {
                Some(value) => Ok(analyse(value, metadata)),
                None => Ok(RewriteResult::NotRewritable),
            },
            None => Ok(RewriteResult::NotRewritable),
        },
        Err(e) => Err(e),
    }
}

/// Parses the source of an order and analyses the `from_config` of the file
/// entry at an index, with the conditionals resolved for a machine.
pub fn locate_from_config(source: &str, file_entry_index: usize, metadata: &Metadata) -> (r: Result<
    RewriteResult,
    LocateError,
>)
    ensures
        match r {
            Ok(found) => term::parsed_nickel(source@) matches Some(t) && located(
                t,
                file_entry_index as nat,
                metadata@,
            ) == Ok::<RewriteModel, EntryFailure>(found@) && (encode_utf8(source@).len() <= u32::MAX
                ==> spans_lie_in(found@.spans(), encode_utf8(source@))),
            Err(LocateError::Entry(e)) => term::parsed_nickel(source@) matches Some(t) && located(
                t,
                file_entry_index as nat,
                metadata@,
            ) == Err::<RewriteModel, EntryFailure>(e),
            Err(LocateError::Parse(_)) => term::parsed_nickel(source@) is None,
        },
{
    match term::parse_nickel(source) {
        Ok(t) => match locate_in_term(&t, file_entry_index, metadata) {
            Ok(found) => {
                proof {
                    if encode_utf8(source@).len() <= u32::MAX {
                        law_located_placed(
                            t@,
                            file_entry_index as nat,
                            metadata@,
                            encode_utf8(source@),
                        );
                    }
                }
                Ok(found)
            },
            Err(e) => Err(LocateError::Entry(e)),
        },
        Err(message) => Err(LocateError::Parse(message)),
    }
}

/// How what stands in place of a record is called.
pub open spec fn found_text(f: Found) -> Seq<char> {
    match f {
        Found::Scalar => "a scalar"@,
        Found::Text => "a string"@,
        Found::Array => "an array"@,
        Found::Match => "a match"@,
        Found::Application => "an application"@,
        Found::Conditional => "a conditional"@,
        Found::Access => "a field access"@,
        Found::Comparison => "a comparison"@,
        Found::Variable => "a variable"@,
        Found::Other => "another expression"@,
    }
}

/// What a failure to find a file entry is reported as.
pub open spec fn entry_failure_text(e: EntryFailure) -> Seq<char> {
    match e {
        EntryFailure::NoRecord(f) => "Expected record at top level, found "@ + found_text(f),
        EntryFailure::NoBlend => "No 'blend' field found in order.ncl"@,
        EntryFailure::BlendWithoutValue => "'blend' field has no value"@,
        EntryFailure::BlendNotRecord => "'blend' field is not a record"@,
        EntryFailure::NoFiles => "No 'files' field found in blend"@,
        EntryFailure::FilesWithoutValue => "'files' field has no value"@,
        EntryFailure::FilesNotArray => "'files' is not an array"@,
        EntryFailure::IndexOutOfBounds => "file_entry_index out of bounds"@,
        EntryFailure::EntryNotRecord => "file entry is not a record"@,
    }
}

fn name_found(f: Found) -> (r: String)
    ensures
        r@ == found_text(f),
{
    text::owned(
        match f {
            Found::Scalar => "a scalar",
            Found::Text => "a string",
            Found::Array => "an array",
            Found::Match => "a match",
            Found::Application => "an application",
            Found::Conditional => "a conditional",
            Found::Access => "a field access",
            Found::Comparison => "a comparison",
            Found::Variable => "a variable",
            Found::Other => "another expression",
        },
    )
}

impl LocateError {
    /// The message that reports the error.
    pub fn message(&self) -> (r: String)
        ensures
            match self {
                LocateError::Parse(m) => r@ == "Failed to parse .ncl file: "@ + m@,
                LocateError::Entry(e) => r@ == entry_failure_text(*e),
            },
    {
        match self {
            LocateError::Parse(m) => text::concat2("Failed to parse .ncl file: ", m),
            LocateError::Entry(e) => match e {
                EntryFailure::NoRecord(f) => text::concat2(
                    "Expected record at top level, found ",
                    &name_found(*f),
                ),
                EntryFailure::NoBlend => text::owned("No 'blend' field found in order.ncl"),
                EntryFailure::BlendWithoutValue => text::owned("'blend' field has no value"),
                EntryFailure::BlendNotRecord => text::owned("'blend' field is not a record"),
                EntryFailure::NoFiles => text::owned("No 'files' field found in blend"),
                EntryFailure::FilesWithoutValue => text::owned("'files' field has no value"),
                EntryFailure::FilesNotArray => text::owned("'files' is not an array"),
                EntryFailure::IndexOutOfBounds => text::owned("file_entry_index out of bounds"),
                EntryFailure::EntryNotRecord => text::owned("file entry is not a record"),
            },
        }
    }
}

} // verus!
