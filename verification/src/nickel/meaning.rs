//! What the expressions of an order come to on a machine.
use crate::json::JsonModel;
use crate::metadata;
use crate::metadata::MetadataModel;
use crate::nickel::ast_utils;
use crate::nickel::ast_utils::{EntryFailure, RewriteModel, SpanModel, WalkModel};
use crate::nickel::term::{
    BranchModel, FieldModel, KindModel, PatternModel, Span, TermModel,
};
use crate::pairs;
use crate::text;
use vstd::prelude::*;
use vstd::string::*;

verus! {

// ---------------------------------------------------------------------------
// Evaluation
// ---------------------------------------------------------------------------

/// The text that an order reads from a field of the machine's metadata.
pub open spec fn machine_text(m: MetadataModel, name: Seq<char>) -> Option<Seq<char>> {
    match pairs::lookup(metadata::metadata_json(m)->Object_0, name) {
        Some(JsonModel::Text(t)) => Some(t),
        _ => None,
    }
}

/// The text that an expression reads from the machine: `metadata` and a field.
pub open spec fn read_text(t: TermModel, m: MetadataModel) -> Option<Seq<char>> {
    match t.kind {
        KindModel::Access { field, args } => if args.len() > 0 && args[0].kind == KindModel::Var(
            "metadata"@,
        ) {
            machine_text(m, field)
        } else {
            None
        },
        _ => None,
    }
}

/// The text that an expression is written as.
pub open spec fn written_text(t: TermModel) -> Option<Seq<char>> {
    match t.kind {
        KindModel::Text(s) => Some(s),
        KindModel::Chunks(chunks) => if chunks.len() == 1 && chunks[0] is Literal {
            Some(chunks[0]->Literal_0)
        } else {
            None
        },
        _ => None,
    }
}

/// A condition compares a text of the machine with a written one, on either side.
pub open spec fn compares(c: TermModel, m: MetadataModel, a: Seq<char>, b: Seq<char>) -> bool {
    c.kind matches KindModel::Equal(args) && args.len() == 2 && {
        ||| read_text(args[0], m) == Some(a) && written_text(args[1]) == Some(b)
        ||| read_text(args[1], m) == Some(a) && written_text(args[0]) == Some(b)
    }
}

/// A condition that compares a text of the machine with a written one holds on the
/// machine, or does not.
pub open spec fn truth(c: TermModel, m: MetadataModel, holds: bool) -> bool {
    exists|a: Seq<char>, b: Seq<char>| #[trigger] compares(c, m, a, b) && holds == (a == b)
}

/// A pattern fits a text: the same text, a name or a wildcard.
pub open spec fn fits(p: PatternModel, v: Seq<char>) -> bool {
    p is Wildcard || p is Any || p == PatternModel::Text(v)
}

/// The branch that a `match` takes for a text: the first that fits.
pub open spec fn branch_taken(branches: Seq<BranchModel>, v: Seq<char>, k: int) -> bool {
    &&& 0 <= k < branches.len()
    &&& fits(branches[k].pattern, v)
    &&& forall|j: int| 0 <= j < k ==> !fits((#[trigger] branches[j]).pattern, v)
}

/// An expression is data that is written out.
pub open spec fn written_out(t: TermModel) -> bool {
    match t.kind {
        KindModel::Scalar => true,
        KindModel::Text(_) => true,
        KindModel::Record(_, _) => true,
        KindModel::Array(_) => true,
        KindModel::Chunks(chunks) => forall|i: int|
            0 <= i < chunks.len() ==> !((#[trigger] chunks[i]) is Interpolated),
        _ => false,
    }
}

/// An expression comes to another on a machine, along the branches that the
/// machine takes.
pub open spec fn comes_to(t: TermModel, m: MetadataModel, u: TermModel) -> bool
    decreases t,
{
    match t.kind {
        KindModel::IfThenElse { cond, then_branch, else_branch } => {
            ||| truth(*cond, m, true) && comes_to(*then_branch, m, u)
            ||| truth(*cond, m, false) && comes_to(*else_branch, m, u)
        },
        KindModel::App { head, args } => match head.kind {
            KindModel::Match(branches) => args.len() > 0 && read_text(args[0], m) is Some
                && exists|k: int|
                branch_taken(branches, read_text(args[0], m)->0, k) && 0 <= k < branches.len()
                    && comes_to((#[trigger] branches[k]).body, m, u),
            _ => false,
        },
        _ => written_out(t) && t == u,
    }
}

proof fn lemma_machine_text(m: MetadataModel, name: Seq<char>)
    ensures
        metadata::metadata_field(m, name) == machine_text(m, name),
{
    metadata::law_fields(m, name);
}

proof fn lemma_truth(c: TermModel, m: MetadataModel)
    ensures
        ast_utils::condition_value(c.kind, m) == Some(true) <==> truth(c, m, true),
        ast_utils::condition_value(c.kind, m) == Some(false) <==> truth(c, m, false),
{
    if let KindModel::Equal(args) = c.kind {
        if args.len() == 2 {
            lemma_read(args[0], m);
            lemma_read(args[1], m);
            if let (Some(a), Some(b)) = (read_text(args[0], m), written_text(args[1])) {
                assert(compares(c, m, a, b));
            }
            if let (Some(a), Some(b)) = (read_text(args[1], m), written_text(args[0])) {
                assert(compares(c, m, a, b));
            }
        }
    }
}

proof fn lemma_read(t: TermModel, m: MetadataModel)
    ensures
        ast_utils::resolved_field(t.kind, m) == read_text(t, m),
        ast_utils::string_literal(t.kind) == written_text(t),
        read_text(t, m) is None || written_text(t) is None,
{
    if let KindModel::Access { field, args } = t.kind {
        lemma_machine_text(m, field);
    }
}

proof fn lemma_taken(branches: Seq<BranchModel>, v: Seq<char>, from: nat)
    requires
        from <= branches.len(),
        forall|j: int| 0 <= j < from ==> !fits((#[trigger] branches[j]).pattern, v),
    ensures
        ({
            let k = ast_utils::first_match(branches, v, from) as int;
            &&& k < branches.len() ==> branch_taken(branches, v, k)
            &&& k >= branches.len() ==> forall|j: int|
                0 <= j < branches.len() ==> !fits((#[trigger] branches[j]).pattern, v)
        }),
    decreases branches.len() - from,
{
    if from < branches.len() && !ast_utils::pattern_accepts(branches[from as int].pattern, v) {
        lemma_taken(branches, v, from + 1);
    }
}

/// The walk through a value ends at the literal that the value comes to on the
/// machine, at its place in the source, and it ends at a literal wherever the
/// value comes to one whose place is known.
pub proof fn law_walk_comes_to(t: TermModel, m: MetadataModel, trail: Seq<Seq<char>>)
    ensures
        ast_utils::walk(t, m, trail) matches WalkModel::Leaf { value_start, value_end, .. }
            ==> exists|u: TermModel| #[trigger]
            comes_to(t, m, u) && written_out(u) && (u.span matches Some(s) && s.start
                == value_start && s.end == value_end),
        forall|u: TermModel| #[trigger]
            comes_to(t, m, u) && u.span is Some ==> (ast_utils::walk(
                t,
                m,
                trail,
            ) matches WalkModel::Leaf { value_start, value_end, .. } && value_start
                == u.span->0.start && value_end == u.span->0.end),
    decreases t,
{
    match t.kind {
        KindModel::IfThenElse { cond, then_branch, else_branch } => {
            lemma_truth(*cond, m);
            if let Some(taken) = ast_utils::condition_value(cond.kind, m) {
                let next = trail.push(ast_utils::if_context(taken));
                if taken {
                    law_walk_comes_to(*then_branch, m, next);
                    assert forall|u: TermModel| #[trigger] comes_to(t, m, u) == comes_to(
                        *then_branch,
                        m,
                        u,
                    ) by {}
                    assert forall|u: TermModel| #[trigger] comes_to(*then_branch, m, u) implies comes_to(
                        t,
                        m,
                        u,
                    ) by {}
                } else {
                    law_walk_comes_to(*else_branch, m, next);
                    assert forall|u: TermModel| #[trigger] comes_to(t, m, u) == comes_to(
                        *else_branch,
                        m,
                        u,
                    ) by {}
                    assert forall|u: TermModel| #[trigger] comes_to(*else_branch, m, u) implies comes_to(
                        t,
                        m,
                        u,
                    ) by {}
                }
            }
        },
        KindModel::App { head, args } => {
            if let KindModel::Match(branches) = head.kind {
                if args.len() > 0 {
                    lemma_read(args[0], m);
                    if let Some(v) = read_text(args[0], m) {
                        lemma_taken(branches, v, 0);
                        let k = ast_utils::first_match(branches, v, 0) as int;
                        if k < branches.len() {
                            let next = trail.push(ast_utils::match_context(args[0].kind, v));
                            law_walk_comes_to(branches[k].body, m, next);
                            assert forall|u: TermModel| #[trigger]
                                comes_to(branches[k].body, m, u) implies comes_to(t, m, u) by {
                                assert(branch_taken(branches, v, k));
                            }
                            assert forall|u: TermModel| #[trigger] comes_to(t, m, u) implies comes_to(
                                branches[k].body,
                                m,
                                u,
                            ) by {
                                let j = choose|j: int|
                                    branch_taken(branches, v, j) && 0 <= j < branches.len()
                                        && comes_to((#[trigger] branches[j]).body, m, u);
                                assert(j == k) by {
                                    if j < k {
                                        assert(!fits(branches[j].pattern, v));
                                    }
                                    if k < j {
                                        assert(!fits(branches[k].pattern, v));
                                    }
                                }
                            }
                        }
                    }
                }
            }
        },
        _ => {
            if written_out(t) {
                assert(comes_to(t, m, t));
            }
        },
    }
}

// ---------------------------------------------------------------------------
// The way to a file entry
// ---------------------------------------------------------------------------

/// A field is the first of a record with a name, and it has a value.
pub open spec fn field_is(fields: Seq<FieldModel>, name: Seq<char>, value: TermModel) -> bool {
    exists|i: int| #[trigger] first_named(fields, name, i) && fields[i].value == Some(value)
}

/// The first field of a record with a name stands at a place.
pub open spec fn first_named(fields: Seq<FieldModel>, name: Seq<char>, i: int) -> bool {
    &&& 0 <= i < fields.len()
    &&& fields[i].name() == Some(name)
    &&& forall|j: int| 0 <= j < i ==> (#[trigger] fields[j]).name() != Some(name)
}

proof fn lemma_named(fields: Seq<FieldModel>, name: Seq<char>, i: int)
    requires
        first_named(fields, name, i),
    ensures
        ast_utils::named_field(fields, name) == Some(fields[i]),
    decreases i,
{
    if i > 0 {
        let rest = fields.skip(1);
        assert(fields[0].name() != Some(name));
        assert(rest[i - 1] == fields[i]);
        assert forall|j: int| 0 <= j < i - 1 implies (#[trigger] rest[j]).name() != Some(name) by {
            assert(rest[j] == fields[j + 1]);
        }
        lemma_named(rest, name, i - 1);
    }
}

proof fn lemma_field_is(fields: Seq<FieldModel>, name: Seq<char>, value: TermModel)
    requires
        field_is(fields, name, value),
    ensures
        ast_utils::named_field(fields, name) matches Some(f) && f.value == Some(value),
{
    let i = choose|i: int| #[trigger]
        first_named(fields, name, i) && fields[i].value == Some(value);
    lemma_named(fields, name, i);
}

/// What stands behind `let` bindings and annotations is found as if they were not
/// there.
pub proof fn law_bindings_skipped(t: TermModel, inner: TermModel, index: nat, m: MetadataModel)
    requires
        t.kind == KindModel::Let(Box::new(inner)) || t.kind == KindModel::Annotated(
            Box::new(inner),
        ),
    ensures
        ast_utils::located(t, index, m) == ast_utils::located(inner, index, m),
{
}

/// The analysis at an index is that of the `from_config` of the file entry at that
/// index of the `files` of `blend`.
pub proof fn law_located(
    t: TermModel,
    blend: TermModel,
    files: TermModel,
    config: TermModel,
    index: nat,
    m: MetadataModel,
)
    requires
        t.kind is Record,
        field_is(t.kind->Record_0, "blend"@, blend),
        blend.kind is Record,
        field_is(blend.kind->Record_0, "files"@, files),
        files.kind is Array,
        index < files.kind->Array_0.len(),
        files.kind->Array_0[index as int].kind is Record,
        field_is(files.kind->Array_0[index as int].kind->Record_0, "from_config"@, config),
    ensures
        ast_utils::located(t, index, m) == Ok::<RewriteModel, EntryFailure>(
            ast_utils::analysed(config, m),
        ),
{
    lemma_field_is(t.kind->Record_0, "blend"@, blend);
    lemma_field_is(blend.kind->Record_0, "files"@, files);
    lemma_field_is(files.kind->Array_0[index as int].kind->Record_0, "from_config"@, config);
}

// ---------------------------------------------------------------------------
// The analysis of a record
// ---------------------------------------------------------------------------

/// A field can be rewritten: it has one name, and its value comes on the machine
/// to a literal whose place in the source is given.
pub open spec fn rewritable_at(f: FieldModel, m: MetadataModel, s: Span) -> bool {
    f.name() is Some && f.value is Some && exists|u: TermModel| #[trigger]
        comes_to(f.value->0, m, u) && u.span == Some(s)
}

/// A span is listed for a field: its name and its place.
pub open spec fn span_listed(spans: Seq<SpanModel>, name: Seq<char>, s: Span) -> bool {
    exists|i: int|
        0 <= i < spans.len() && (#[trigger] spans[i]).name == name && spans[i].value_start
            == s.start && spans[i].value_end == s.end
}

/// A listed span is that of a field that can be rewritten.
pub open spec fn span_earned(fields: Seq<FieldModel>, m: MetadataModel, x: SpanModel) -> bool {
    exists|i: int, s: Span|
        0 <= i < fields.len() && #[trigger] rewritable_at(fields[i], m, s) && fields[i].name()
            == Some(x.name) && x.value_start == s.start && x.value_end == s.end
}

/// The analysis of a record lists, for each field that can be rewritten, its name
/// with the place of the literal that it comes to, and for nothing else.
pub proof fn law_analysed_fields(v: TermModel, m: MetadataModel)
    requires
        v.kind is Record,
    ensures
        ({
            let fields = v.kind->Record_0;
            let spans = ast_utils::analysed(v, m).spans();
            &&& forall|i: int, s: Span|
                0 <= i < fields.len() && #[trigger] rewritable_at(fields[i], m, s) ==> span_listed(
                    spans,
                    fields[i].name()->0,
                    s,
                )
            &&& forall|k: int|
                0 <= k < spans.len() ==> span_earned(fields, m, #[trigger] spans[k])
        }),
{
    let fields = v.kind->Record_0;
    let n = fields.len();
    let reached = ast_utils::reached_spans(fields, m, n);
    let spans = ast_utils::analysed(v, m).spans();
    assert(v.kind == KindModel::Record(fields, v.kind->Record_1));
    assert(spans =~= reached);
    ast_utils::law_fields_accounted(fields, m, n);
    let at = ast_utils::positions(fields, m, true, n);
    assert forall|i: int, s: Span|
        0 <= i < fields.len() && #[trigger] rewritable_at(fields[i], m, s) implies span_listed(
        spans,
        fields[i].name()->0,
        s,
    ) by {
        let value = fields[i].value->0;
        law_walk_comes_to(value, m, seq![]);
        let u = choose|u: TermModel| #[trigger] comes_to(value, m, u) && u.span == Some(s);
        assert(comes_to(value, m, u));
        assert(ast_utils::reaches_literal(fields[i], m));
        assert(at.contains(i));
        let k = at.index_of(i);
        assert(ast_utils::span_of_field(reached[k], fields[at[k]], m));
        assert(spans[k].name == fields[i].name()->0);
    }
    assert forall|k: int| 0 <= k < spans.len() implies span_earned(
        fields,
        m,
        #[trigger] spans[k],
    ) by {
        let i = at[k];
        assert(ast_utils::span_of_field(reached[k], fields[i], m));
        let value = fields[i].value->0;
        law_walk_comes_to(value, m, seq![]);
        let u = choose|u: TermModel| #[trigger]
            comes_to(value, m, u) && written_out(u) && (u.span matches Some(s) && s.start
                == spans[k].value_start && s.end == spans[k].value_end);
        assert(comes_to(value, m, u) && u.span == Some(u.span->0));
        assert(rewritable_at(fields[i], m, u.span->0));
    }
}

/// Each field of a record that has a value and cannot be rewritten is reported, and
/// so is each that the record takes from around it, where some other field can be
/// rewritten.
pub proof fn law_analysed_reports(v: TermModel, m: MetadataModel, i: int)
    requires
        v.kind is Record,
        ast_utils::analysed(v, m).spans().len() > 0,
    ensures
        ({
            let fields = v.kind->Record_0;
            let blocked = ast_utils::analysed(v, m).blocked();
            let taken = v.kind->Record_1;
            &&& 0 <= i < taken.len() ==> exists|k: int|
                0 <= k < blocked.len() && (#[trigger] blocked[k]).name == taken[i]
            &&& 0 <= i < fields.len() && fields[i].name() is Some && fields[i].value is Some && (
            forall|s: Span| !#[trigger] rewritable_at(fields[i], m, s)) ==> exists|k: int|
                0 <= k < blocked.len() && (#[trigger] blocked[k]).name == fields[i].name()->0
        }),
{
    let fields = v.kind->Record_0;
    let n = fields.len();
    let taken = v.kind->Record_1;
    let own = ast_utils::blocked_fields(fields, m, n);
    let extra = ast_utils::included_fields(taken);
    let all = own + extra;
    assert(v.kind == KindModel::Record(fields, taken));
    assert(ast_utils::analysed(v, m).blocked() =~= all);
    ast_utils::law_fields_accounted(fields, m, n);
    let at = ast_utils::positions(fields, m, false, n);
    if 0 <= i < taken.len() {
        assert(all[own.len() + i].name == taken[i]);
    }
    if 0 <= i < fields.len() && fields[i].name() is Some && fields[i].value is Some && (forall|
        s: Span,
    | !#[trigger] rewritable_at(fields[i], m, s)) {
        let value = fields[i].value->0;
        law_walk_comes_to(value, m, seq![]);
        if ast_utils::reaches_literal(fields[i], m) {
            let u = choose|u: TermModel| #[trigger]
                comes_to(value, m, u) && written_out(u) && u.span is Some;
            assert(comes_to(value, m, u) && u.span == Some(u.span->0));
            assert(rewritable_at(fields[i], m, u.span->0));
        }
        assert(at.contains(i));
        let k = at.index_of(i);
        assert(ast_utils::report_of_field(own[k], fields[at[k]], m));
        assert(all[k].name == fields[i].name()->0);
    }
}

/// The walk tells of the conditions that it follows: of an `if`, which branch the
/// machine takes, and of a `match` on a field of the machine, the field and what it
/// holds. Data that is written out stands under no condition.
pub proof fn law_conditions_told(t: TermModel, m: MetadataModel, holds: bool, k: int)
    ensures
        ({
            let trail = ast_utils::walk_trail(ast_utils::walk(t, m, seq![]));
            &&& t.kind matches KindModel::IfThenElse { cond, .. } ==> (truth(*cond, m, holds) ==> {
                &&& trail.len() > 0
                &&& text::ends(trail[0], "then"@) <==> holds
                &&& text::ends(trail[0], "else"@) <==> !holds
            })
            &&& t.kind matches KindModel::App { head, args } ==> (
            head.kind matches KindModel::Match(branches) ==> (args.len() > 0 && read_text(
                args[0],
                m,
            ) is Some && branch_taken(branches, read_text(args[0], m)->0, k) ==> {
                &&& trail.len() > 0
                &&& args[0].kind is Access
                &&& trail[0] == args[0].kind->Access_field + " == \""@ + read_text(args[0], m)->0
                    + "\""@
            }))
            &&& written_out(t) ==> trail.len() == 0
        }),
{
    let none = Seq::<Seq<char>>::empty();
    match t.kind {
        KindModel::IfThenElse { cond, then_branch, else_branch } => {
            lemma_truth(*cond, m);
            if truth(*cond, m, holds) {
                assert(ast_utils::condition_value(cond.kind, m) == Some(holds));
                let step = ast_utils::if_context(holds);
                let branch = if holds {
                    *then_branch
                } else {
                    *else_branch
                };
                ast_utils::law_walk_trail(branch, m, none.push(step));
                assert(ast_utils::walk_trail(ast_utils::walk(t, m, none))[0] == step);
                lemma_if_told(holds);
            }
        },
        KindModel::App { head, args } => {
            if let KindModel::Match(branches) = head.kind {
                if args.len() > 0 && read_text(args[0], m) is Some && branch_taken(
                    branches,
                    read_text(args[0], m)->0,
                    k,
                ) {
                    let v = read_text(args[0], m)->0;
                    lemma_read(args[0], m);
                    lemma_taken(branches, v, 0);
                    let j = ast_utils::first_match(branches, v, 0) as int;
                    assert(fits(branches[k].pattern, v));
                    assert(0 <= j < branches.len());
                    let step = ast_utils::match_context(args[0].kind, v);
                    ast_utils::law_walk_trail(branches[j].body, m, none.push(step));
                    assert(ast_utils::walk_trail(ast_utils::walk(t, m, none))[0] == step);
                }
            }
        },
        _ => {},
    }
}

proof fn lemma_if_told(taken: bool)
    ensures
        text::ends(ast_utils::if_context(taken), "then"@) <==> taken,
        text::ends(ast_utils::if_context(taken), "else"@) <==> !taken,
{
    reveal_strlit("if condition \u{2192} then");
    reveal_strlit("if condition \u{2192} else");
    reveal_strlit("then");
    reveal_strlit("else");
    let s = ast_utils::if_context(taken);
    let tail = s.skip(s.len() - 4);
    assert("then"@.len() == 4 && "else"@.len() == 4);
    assert("then"@[0] == 't' && "else"@[0] == 'e');
    if taken {
        assert(tail =~= "then"@);
    } else {
        assert(tail =~= "else"@);
    }
}

/// No field of a record has a name.
pub open spec fn none_named(fields: Seq<FieldModel>, name: Seq<char>) -> bool {
    forall|i: int| 0 <= i < fields.len() ==> (#[trigger] fields[i]).name() != Some(name)
}

proof fn lemma_none_named(fields: Seq<FieldModel>, name: Seq<char>)
    requires
        none_named(fields, name),
    ensures
        ast_utils::named_field(fields, name) is None,
    decreases fields.len(),
{
    if fields.len() > 0 {
        let rest = fields.skip(1);
        assert(fields[0].name() != Some(name));
        assert forall|i: int| 0 <= i < rest.len() implies (#[trigger] rest[i]).name() != Some(
            name,
        ) by {
            assert(rest[i] == fields[i + 1]);
        }
        lemma_none_named(rest, name);
    }
}

/// What the search for a file entry fails for is what is missing on the way to it:
/// the `blend` field, a record in it, its `files`, a list in them, an entry at the
/// index, or a record there.
pub proof fn law_not_located(
    t: TermModel,
    blend: TermModel,
    files: TermModel,
    index: nat,
    m: MetadataModel,
)
    requires
        t.kind is Record,
    ensures
        none_named(t.kind->Record_0, "blend"@) ==> ast_utils::located(t, index, m) == Err::<
            RewriteModel,
            EntryFailure,
        >(EntryFailure::NoBlend),
        field_is(t.kind->Record_0, "blend"@, blend) ==> {
            &&& !(blend.kind is Record) ==> ast_utils::located(t, index, m) == Err::<
                RewriteModel,
                EntryFailure,
            >(EntryFailure::BlendNotRecord)
            &&& blend.kind is Record && none_named(blend.kind->Record_0, "files"@)
                ==> ast_utils::located(t, index, m) == Err::<RewriteModel, EntryFailure>(
                EntryFailure::NoFiles,
            )
            &&& blend.kind is Record && field_is(blend.kind->Record_0, "files"@, files) ==> {
                &&& !(files.kind is Array) ==> ast_utils::located(t, index, m) == Err::<
                    RewriteModel,
                    EntryFailure,
                >(EntryFailure::FilesNotArray)
                &&& files.kind is Array && index >= files.kind->Array_0.len()
                    ==> ast_utils::located(t, index, m) == Err::<RewriteModel, EntryFailure>(
                    EntryFailure::IndexOutOfBounds,
                )
                &&& files.kind is Array && index < files.kind->Array_0.len() && !(
                files.kind->Array_0[index as int].kind is Record) ==> ast_utils::located(
                    t,
                    index,
                    m,
                ) == Err::<RewriteModel, EntryFailure>(EntryFailure::EntryNotRecord)
            }
        },
{
    let root = t.kind->Record_0;
    if none_named(root, "blend"@) {
        lemma_none_named(root, "blend"@);
    }
    if field_is(root, "blend"@, blend) {
        lemma_field_is(root, "blend"@, blend);
        if blend.kind is Record {
            let inner = blend.kind->Record_0;
            if none_named(inner, "files"@) {
                lemma_none_named(inner, "files"@);
            }
            if field_is(inner, "files"@, files) {
                lemma_field_is(inner, "files"@, files);
            }
        }
    }
}

} // verus!
