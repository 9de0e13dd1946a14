//! Parsed Nickel source, as far as order files are walked.
use crate::text;
use nickel_lang_parser::ast;
use nickel_lang_parser::files::Files;
use nickel_lang_parser::grammar;
use nickel_lang_parser::lexer::Lexer;
use nickel_lang_parser::ErrorTolerantParser;
use vstd::prelude::*;
use vstd::string::*;
use vstd::utf8::*;

verus! {

/// A range of bytes in the source.
#[derive(Debug, Clone, Copy, PartialEq, Eq, Structural)]
pub struct Span {
    pub start: usize,
    pub end: usize,
}

/// An expression with its place in the source, where it has one.
#[derive(Debug)]
pub struct Term {
    pub kind: Kind,
    pub span: Option<Span>,
}

/// The kinds of expression that a walk tells apart.
#[derive(Debug)]
pub enum Kind {
    /// `null`, a boolean or a number.
    Scalar,
    /// A string literal.
    Text(String),
    /// A string in pieces.
    Chunks(Vec<Chunk>),
    /// A record: its field definitions, and the names of the fields that it
    /// includes from around it.
    Record(Vec<Field>, Vec<String>),
    Array(Vec<Term>),
    /// A `match` that is still to be applied.
    Match(Vec<Branch>),
    App { head: Box<Term>, args: Vec<Term> },
    IfThenElse { cond: Box<Term>, then_branch: Box<Term>, else_branch: Box<Term> },
    /// The access to a field by its name.
    Access { field: String, args: Vec<Term> },
    /// A comparison with `==`.
    Equal(Vec<Term>),
    Var(String),
    /// A `let`, by its body.
    Let(Box<Term>),
    /// An annotated expression, by what is annotated.
    Annotated(Box<Term>),
    /// Every other expression.
    Other,
}

/// A piece of a string.
#[derive(Debug)]
pub enum Chunk {
    Literal(String),
    Interpolated,
}

/// A field definition: the names along its path, where they are not computed, and
/// its value.
#[derive(Debug)]
pub struct Field {
    pub path: Vec<Option<String>>,
    pub value: Option<Term>,
}

/// A branch of a `match`.
#[derive(Debug)]
pub struct Branch {
    pub pattern: Pattern,
    pub body: Term,
}

/// The kinds of pattern that a walk tells apart.
#[derive(Debug)]
pub enum Pattern {
    Wildcard,
    /// An identifier, which matches everything.
    Any,
    /// A string constant.
    Text(String),
    Other,
}

// ---------------------------------------------------------------------------
// Models
// ---------------------------------------------------------------------------

/// An expression as mathematics sees it.
pub struct TermModel {
    pub kind: KindModel,
    pub span: Option<Span>,
}

pub enum KindModel {
    Scalar,
    Text(Seq<char>),
    Chunks(Seq<ChunkModel>),
    Record(Seq<FieldModel>, Seq<Seq<char>>),
    Array(Seq<TermModel>),
    Match(Seq<BranchModel>),
    App { head: Box<TermModel>, args: Seq<TermModel> },
    IfThenElse {
        cond: Box<TermModel>,
        then_branch: Box<TermModel>,
        else_branch: Box<TermModel>,
    },
    Access { field: Seq<char>, args: Seq<TermModel> },
    Equal(Seq<TermModel>),
    Var(Seq<char>),
    Let(Box<TermModel>),
    Annotated(Box<TermModel>),
    Other,
}

pub enum ChunkModel {
    Literal(Seq<char>),
    Interpolated,
}

pub struct FieldModel {
    pub path: Seq<Option<Seq<char>>>,
    pub value: Option<TermModel>,
}

impl FieldModel {
    /// The name of a field whose path is one identifier.
    pub open spec fn name(self) -> Option<Seq<char>> {
        if self.path.len() == 1 {
            self.path[0]
        } else {
            None
        }
    }

    /// How the path of a field is shown, with computed names abbreviated.
    pub open spec fn label(self) -> Seq<char> {
        text::joined(shown_names(self.path), "."@)
    }
}

/// How the names along a path are shown.
pub open spec fn shown_names(path: Seq<Option<Seq<char>>>) -> Seq<Seq<char>> {
    path.map_values(
        |p: Option<Seq<char>>|
            match p {
                Some(name) => name,
                None => "%{...}"@,
            },
    )
}

pub struct BranchModel {
    pub pattern: PatternModel,
    pub body: TermModel,
}

pub enum PatternModel {
    Wildcard,
    Any,
    Text(Seq<char>),
    Other,
}

impl View for Chunk {
    type V = ChunkModel;

    open spec fn view(&self) -> ChunkModel {
        match self {
            Chunk::Literal(t) => ChunkModel::Literal(t@),
            Chunk::Interpolated => ChunkModel::Interpolated,
        }
    }
}

impl View for Pattern {
    type V = PatternModel;

    open spec fn view(&self) -> PatternModel {
        match self {
            Pattern::Wildcard => PatternModel::Wildcard,
            Pattern::Any => PatternModel::Any,
            Pattern::Text(t) => PatternModel::Text(t@),
            Pattern::Other => PatternModel::Other,
        }
    }
}

/// What a list of pieces holds.
pub open spec fn chunks_model(chunks: Seq<Chunk>) -> Seq<ChunkModel> {
    chunks.map_values(|c: Chunk| c@)
}

impl Term {
    pub open spec fn model(&self) -> TermModel
        decreases self,
    {
        TermModel { kind: self.kind.model(), span: self.span }
    }
}

impl Kind {
    pub open spec fn model(&self) -> KindModel
        decreases self,
    {
        match self {
            Kind::Scalar => KindModel::Scalar,
            Kind::Text(t) => KindModel::Text(t@),
            Kind::Chunks(chunks) => KindModel::Chunks(chunks_model(chunks@)),
            Kind::Record(fields, includes) => KindModel::Record(
                Seq::new(
                    fields@.len(),
                    |i: int|
                        if 0 <= i < fields@.len() {
                            fields@[i].model()
                        } else {
                            FieldModel { path: seq![], value: None }
                        },
                ),
                text::texts(includes@),
            ),
            Kind::Array(items) => KindModel::Array(
                Seq::new(
                    items@.len(),
                    |i: int|
                        if 0 <= i < items@.len() {
                            items@[i].model()
                        } else {
                            no_term()
                        },
                ),
            ),
            Kind::Match(branches) => KindModel::Match(
                Seq::new(
                    branches@.len(),
                    |i: int|
                        if 0 <= i < branches@.len() {
                            branches@[i].model()
                        } else {
                            BranchModel { pattern: PatternModel::Other, body: no_term() }
                        },
                ),
            ),
            Kind::App { head, args } => KindModel::App {
                head: Box::new(head.model()),
                args: Seq::new(
                    args@.len(),
                    |i: int|
                        if 0 <= i < args@.len() {
                            args@[i].model()
                        } else {
                            no_term()
                        },
                ),
            },
            Kind::IfThenElse { cond, then_branch, else_branch } => KindModel::IfThenElse {
                cond: Box::new(cond.model()),
                then_branch: Box::new(then_branch.model()),
                else_branch: Box::new(else_branch.model()),
            },
            Kind::Access { field, args } => KindModel::Access {
                field: field@,
                args: Seq::new(
                    args@.len(),
                    |i: int|
                        if 0 <= i < args@.len() {
                            args@[i].model()
                        } else {
                            no_term()
                        },
                ),
            },
            Kind::Equal(args) => KindModel::Equal(
                Seq::new(
                    args@.len(),
                    |i: int|
                        if 0 <= i < args@.len() {
                            args@[i].model()
                        } else {
                            no_term()
                        },
                ),
            ),
            Kind::Var(name) => KindModel::Var(name@),
            Kind::Let(body) => KindModel::Let(Box::new(body.model())),
            Kind::Annotated(inner) => KindModel::Annotated(Box::new(inner.model())),
            Kind::Other => KindModel::Other,
        }
    }
}

impl Field {
    pub open spec fn model(&self) -> FieldModel
        decreases self,
    {
        FieldModel {
            path: path_model(self.path@),
            value: match self.value {
                Some(v) => Some(v.model()),
                None => None,
            },
        }
    }
}

impl Branch {
    pub open spec fn model(&self) -> BranchModel
        decreases self,
    {
        BranchModel { pattern: self.pattern@, body: self.body.model() }
    }
}

/// What the names along a path hold.
pub open spec fn path_model(path: Seq<Option<String>>) -> Seq<Option<Seq<char>>> {
    path.map_values(|p: Option<String>| crate::metadata::optional_text(p))
}

impl Field {
    /// The name of the field, where its path is one identifier.
    pub fn name(&self) -> (r: Option<&String>)
        ensures
            match r {
                Some(name) => self.model().name() == Some(name@),
                None => self.model().name() is None,
            },
    {
        let ghost m = path_model(self.path@);
        if self.path.len() != 1 {
            return None;
        }
        assert(m[0] == crate::metadata::optional_text(self.path@[0]));
        match &self.path[0] {
            Some(name) => Some(name),
            None => None,
        }
    }

    /// How the path of the field is shown.
    pub fn label(&self) -> (r: String)
        ensures
            r@ == self.model().label(),
    {
        let ghost m = path_model(self.path@);
        let mut names: Vec<String> = Vec::new();
        let mut i: usize = 0;
        while i < self.path.len()
            invariant
                i <= self.path@.len(),
                m == path_model(self.path@),
                names@.len() == i,
                forall|k: int| 0 <= k < i ==> (#[trigger] names@[k])@ == shown_names(m)[k],
            decreases self.path@.len() - i,
        {
            assert(m[i as int] == crate::metadata::optional_text(self.path@[i as int]));
            let name = match &self.path[i] {
                Some(name) => text::owned(name),
                None => text::owned("%{...}"),
            };
            assert(name@ == shown_names(m)[i as int]);
            names.push(name);
            i = i + 1;
        }
        assert(text::texts(names@) =~= shown_names(m));
        text::join(&names, ".")
    }
}

/// An expression of no kind.
pub open spec fn no_term() -> TermModel {
    TermModel { kind: KindModel::Other, span: None }
}

impl View for Term {
    type V = TermModel;

    open spec fn view(&self) -> TermModel {
        self.model()
    }
}

/// A range lies in the bytes of a source, on boundaries of characters.
pub open spec fn range_lies_in(start: nat, end: nat, bytes: Seq<u8>) -> bool {
    &&& start <= end <= bytes.len()
    &&& is_char_boundary(bytes, start as int)
    &&& is_char_boundary(bytes, end as int)
}

/// An expression, and every expression that a walk can reach from it, stands
/// within the bytes of a source wherever its place is known.
pub open spec fn well_placed(t: TermModel, bytes: Seq<u8>) -> bool
    decreases t,
{
    &&& match t.span {
        Some(s) => range_lies_in(s.start as nat, s.end as nat, bytes),
        None => true,
    }
    &&& match t.kind {
        KindModel::Record(fields, _) => forall|i: int|
            0 <= i < fields.len() ==> match (#[trigger] fields[i]).value {
                Some(v) => well_placed(v, bytes),
                None => true,
            },
        KindModel::Array(items) => forall|i: int|
            0 <= i < items.len() ==> well_placed(#[trigger] items[i], bytes),
        KindModel::Match(branches) => forall|i: int|
            0 <= i < branches.len() ==> well_placed((#[trigger] branches[i]).body, bytes),
        KindModel::App { head, .. } => well_placed(*head, bytes),
        KindModel::IfThenElse { then_branch, else_branch, .. } => {
            &&& well_placed(*then_branch, bytes)
            &&& well_placed(*else_branch, bytes)
        },
        KindModel::Let(body) => well_placed(*body, bytes),
        KindModel::Annotated(inner) => well_placed(*inner, bytes),
        _ => true,
    }
}

/// What a list of expressions holds.
pub open spec fn terms_model(terms: Seq<Term>) -> Seq<TermModel> {
    terms.map_values(|t: Term| t.model())
}

/// What a list of fields holds.
pub open spec fn fields_model(fields: Seq<Field>) -> Seq<FieldModel> {
    fields.map_values(|f: Field| f.model())
}

/// What a list of branches holds.
pub open spec fn branches_model(branches: Seq<Branch>) -> Seq<BranchModel> {
    branches.map_values(|b: Branch| b.model())
}

pub broadcast proof fn lemma_array_kind(items: Vec<Term>)
    ensures
        #[trigger] Kind::Array(items).model() == KindModel::Array(terms_model(items@)),
{
    assert(Kind::Array(items).model()->Array_0 =~= terms_model(items@));
}

pub broadcast proof fn lemma_record_kind(fields: Vec<Field>, includes: Vec<String>)
    ensures
        #[trigger] Kind::Record(fields, includes).model() == KindModel::Record(
            fields_model(fields@),
            text::texts(includes@),
        ),
{
    assert(Kind::Record(fields, includes).model()->Record_0 =~= fields_model(fields@));
}

pub broadcast proof fn lemma_match_kind(branches: Vec<Branch>)
    ensures
        #[trigger] Kind::Match(branches).model() == KindModel::Match(branches_model(branches@)),
{
    assert(Kind::Match(branches).model()->Match_0 =~= branches_model(branches@));
}

pub broadcast proof fn lemma_equal_kind(args: Vec<Term>)
    ensures
        #[trigger] Kind::Equal(args).model() == KindModel::Equal(terms_model(args@)),
{
    assert(Kind::Equal(args).model()->Equal_0 =~= terms_model(args@));
}

pub broadcast proof fn lemma_app_kind(head: Box<Term>, args: Vec<Term>)
    ensures
        (#[trigger] (Kind::App { head, args }).model()) == (KindModel::App {
            head: Box::new(head.model()),
            args: terms_model(args@),
        }),
{
    assert((Kind::App { head, args }).model()->App_args =~= terms_model(args@));
}

pub broadcast proof fn lemma_access_kind(field: String, args: Vec<Term>)
    ensures
        (#[trigger] (Kind::Access { field, args }).model()) == (KindModel::Access {
            field: field@,
            args: terms_model(args@),
        }),
{
    assert((Kind::Access { field, args }).model()->Access_args =~= terms_model(args@));
}

pub broadcast group group_kind_models {
    lemma_array_kind,
    lemma_record_kind,
    lemma_match_kind,
    lemma_equal_kind,
    lemma_app_kind,
    lemma_access_kind,
}

// ---------------------------------------------------------------------------
// The parser
// ---------------------------------------------------------------------------

#[verifier::external_type_specification]
#[verifier::external_body]
pub struct ExAst<'ast>(ast::Ast<'ast>);

#[verifier::external_type_specification]
#[verifier::external_body]
pub struct ExNode<'ast>(ast::Node<'ast>);

#[verifier::external_type_specification]
#[verifier::external_body]
pub struct ExFieldDef<'ast>(ast::record::FieldDef<'ast>);

#[verifier::external_type_specification]
#[verifier::external_body]
pub struct ExPatternData<'ast>(ast::pattern::PatternData<'ast>);

#[verifier::external_type_specification]
#[verifier::external_body]
pub struct ExPrimOp(ast::primop::PrimOp);

/// What the term parser of `nickel_lang_parser` makes of a source; `None` where
/// it reports an error.
pub uninterp spec fn parsed_nickel(source: Seq<char>) -> Option<TermModel>;

/// The expression that an `ast::Ast` is, with the bytes that its position gives.
#[verifier::external_body]
fn term_of(term: &ast::Ast<'_>) -> (r: Term) {
    Term {
        kind: kind_of(&term.node),
        span: term.pos.into_opt().map(|s| Span { start: s.start.into(), end: s.end.into() }),
    }
}

/// The kind of an `ast::Node` that holds data or names it; the others are told
/// apart by `expression_of`.
#[verifier::external_body]
fn kind_of(node: &ast::Node<'_>) -> (r: Kind) {
    match node {
        ast::Node::Null => Kind::Scalar,
        ast::Node::Bool(_) => Kind::Scalar,
        ast::Node::Number(_) => Kind::Scalar,
        ast::Node::String(s) => Kind::Text(s.to_string()),
        ast::Node::Var(id) => Kind::Var(id.label().to_string()),
        ast::Node::Array(items) => Kind::Array(items.iter().map(term_of).collect()),
        ast::Node::Record(r) => Kind::Record(
            r.field_defs.iter().map(field_of).collect(),
            r.includes.iter().map(|i| i.ident.label().to_string()).collect(),
        ),
        other => expression_of(other),
    }
}

/// The field that an `ast::record::FieldDef` defines.
#[verifier::external_body]
fn field_of(f: &ast::record::FieldDef<'_>) -> (r: Field) {
    Field {
        path: f.path.iter().map(|e| e.try_as_ident().map(|id| id.into_label())).collect(),
        value: f.value.as_ref().map(term_of),
    }
}

/// The kind of an `ast::Node` that is put together from expressions; the others
/// are told apart by `branching_of`.
#[verifier::external_body]
fn expression_of(node: &ast::Node<'_>) -> (r: Kind) {
    match node {
        ast::Node::Let { body, .. } => Kind::Let(Box::new(term_of(body))),
        ast::Node::Annotated { inner, .. } => Kind::Annotated(Box::new(term_of(inner))),
        ast::Node::StringChunks(chunks) => Kind::Chunks(chunks.iter().map(|c| match c {
            ast::StringChunk::Literal(s) => Chunk::Literal(s.clone()),
            ast::StringChunk::Expr(_, _) => Chunk::Interpolated,
        }).collect()),
        ast::Node::App { head, args } => Kind::App {
            head: Box::new(term_of(head)),
            args: args.iter().map(term_of).collect(),
        },
        other => branching_of(other),
    }
}

/// The kind of an `ast::Node` that decides or computes.
#[verifier::external_body]
fn branching_of(node: &ast::Node<'_>) -> (r: Kind) {
    match node {
        ast::Node::IfThenElse { cond, then_branch, else_branch } => Kind::IfThenElse {
            cond: Box::new(term_of(cond)),
            then_branch: Box::new(term_of(then_branch)),
            else_branch: Box::new(term_of(else_branch)),
        },
        ast::Node::Match(m) => Kind::Match(m.branches.iter().map(|b| Branch {
            pattern: pattern_of(&b.pattern.data),
            body: term_of(&b.body),
        }).collect()),
        ast::Node::PrimOpApp { op, args } => {
            operation_of(op, args.iter().map(term_of).collect())
        },
        _ => Kind::Other,
    }
}

/// The kind of an `ast::primop::PrimOp` that is applied to arguments.
#[verifier::external_body]
fn operation_of(op: &ast::primop::PrimOp, args: Vec<Term>) -> (r: Kind) {
    match op {
        ast::primop::PrimOp::RecordStatAccess(id) => Kind::Access {
            field: id.label().to_string(),
            args,
        },
        ast::primop::PrimOp::Eq => Kind::Equal(args),
        _ => Kind::Other,
    }
}

/// The kind of an `ast::pattern::PatternData`.
#[verifier::external_body]
fn pattern_of(pattern: &ast::pattern::PatternData<'_>) -> (r: Pattern) {
    match pattern {
        ast::pattern::PatternData::Wildcard => Pattern::Wildcard,
        ast::pattern::PatternData::Any(_) => Pattern::Any,
        ast::pattern::PatternData::Constant(c) => match &c.data {
            ast::pattern::ConstantPatternData::String(s) => Pattern::Text(s.to_string()),
            _ => Pattern::Other,
        },
        _ => Pattern::Other,
    }
}

/// `ErrorTolerantParser::parse_strict` of `grammar::TermParser` parses a source
/// without evaluating it. What it makes of a source, and whether it fails, is
/// determined by the source; nothing is claimed of the message of an error. The
/// position of an expression runs from the start of its first token to the end
/// of its last one, so it lies in the source, as long as offsets in the source
/// fit the 32 bits that a position holds them in.
#[verifier::external_body]
pub(crate) fn parse_nickel(source: &str) -> (r: Result<Term, String>)
    ensures
        match r {
            Ok(t) => parsed_nickel(source@) == Some(t@) && (encode_utf8(source@).len() <= u32::MAX
                ==> well_placed(t@, encode_utf8(source@))),
            Err(_) => parsed_nickel(source@) is None,
        },
{
    let alloc = ast::AstAlloc::new();
    let mut files = Files::empty();
    let file_id = files.add("order.ncl", source);
    let parser = grammar::TermParser::new();
    match parser.parse_strict(&alloc, file_id, Lexer::new(source)) {
        Ok(term) => Ok(term_of(&term)),
        Err(e) => Err(format!("{:?}", e)),
    }
}

} // verus!
