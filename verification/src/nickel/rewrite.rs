//! Rewriting values of an order in place.
use crate::json;
use crate::json::{Json, JsonModel};
use crate::nickel::ast_utils;
use crate::nickel::ast_utils::{LeafSpan, SpanModel};
use crate::nickel::literal;
use crate::nickel::term;
use crate::pairs;
use crate::text;
use vstd::prelude::*;
use vstd::string::*;
use vstd::utf8::*;

verus! {

/// The replacement of a range of bytes by a text.
#[derive(Debug)]
pub struct Edit {
    pub start: usize,
    pub end: usize,
    pub text: String,
}

/// A replacement as mathematics sees it.
pub struct EditModel {
    pub start: nat,
    pub end: nat,
    pub text: Seq<char>,
}

impl View for Edit {
    type V = EditModel;

    open spec fn view(&self) -> EditModel {
        EditModel { start: self.start as nat, end: self.end as nat, text: self.text@ }
    }
}

/// What a list of edits holds.
pub open spec fn edits_model(edits: Seq<Edit>) -> Seq<EditModel> {
    edits.map_values(|e: Edit| e@)
}

/// Why values could not be rewritten.
#[derive(Debug, Clone, Copy, PartialEq, Eq, Structural)]
pub enum RewriteError {
    /// The current `from_config` value is not an object.
    CurrentNotObject,
    /// The deployed value is not an object.
    DeployedNotObject,
    /// A span does not lie on character boundaries of the source.
    SpanOutsideSource,
}

// ---------------------------------------------------------------------------
// Which values change
// ---------------------------------------------------------------------------

/// The last span with a name.
pub open spec fn span_named(spans: Seq<SpanModel>, name: Seq<char>) -> Option<SpanModel>
    decreases spans.len(),
{
    if spans.len() == 0 {
        None
    } else if spans.last().name == name {
        Some(spans.last())
    } else {
        span_named(spans.drop_last(), name)
    }
}

/// The edits for the first `n` deployed keys: one for each key that is current
/// as well, with another value, and whose place is known.
pub open spec fn changed_edits(
    spans: Seq<SpanModel>,
    current: json::EntriesModel,
    deployed: json::EntriesModel,
    pad: Seq<char>,
    n: nat,
) -> Seq<EditModel>
    decreases n,
{
    if n == 0 || n > deployed.len() {
        seq![]
    } else {
        let before = changed_edits(spans, current, deployed, pad, (n - 1) as nat);
        let entry = deployed[n - 1];
        match (pairs::lookup(current, entry.0), span_named(spans, entry.0)) {
            (Some(value), Some(span)) => if json::json_equal(value, entry.1) {
                before
            } else {
                before.push(
                    EditModel {
                        start: span.value_start,
                        end: span.value_end,
                        text: literal::nickel_text(entry.1, pad),
                    },
                )
            },
            _ => before,
        }
    }
}

fn find_span<'a>(spans: &'a [LeafSpan], name: &str) -> (r: Option<&'a LeafSpan>)
    ensures
        match r {
            Some(s) => span_named(ast_utils::spans_model(spans@), name@) == Some(s@),
            None => span_named(ast_utils::spans_model(spans@), name@) is None,
        },
{
    let ghost m = ast_utils::spans_model(spans@);
    let mut n: usize = spans.len();
    assert(m.take(n as int) =~= m);
    while n > 0
        invariant
            n <= spans@.len(),
            m == ast_utils::spans_model(spans@),
            span_named(m, name@) == span_named(m.take(n as int), name@),
        decreases n,
    {
        let ghost rest = m.take(n as int);
        assert(rest.last() == spans@[n - 1]@);
        assert(rest.drop_last() =~= m.take(n - 1));
        if text::str_eq(&spans[n - 1].name, name) {
            return Some(&spans[n - 1]);
        }
        n = n - 1;
    }
    None
}

fn collect_edits(
    spans: &[LeafSpan],
    current: &Vec<(String, Json)>,
    deployed: &Vec<(String, Json)>,
    indent: usize,
) -> (r: Vec<Edit>)
    ensures
        edits_model(r@) == changed_edits(
            ast_utils::spans_model(spans@),
            json::entries_model(current@),
            json::entries_model(deployed@),
            text::repeated("  "@, indent as nat),
            deployed@.len(),
        ),
{
    let ghost s = ast_utils::spans_model(spans@);
    let ghost c = json::entries_model(current@);
    let ghost d = json::entries_model(deployed@);
    let ghost pad = text::repeated("  "@, indent as nat);
    let mut edits: Vec<Edit> = Vec::new();
    assert(edits_model(edits@) =~= seq![]);
    let mut i: usize = 0;
    while i < deployed.len()
        invariant
            i <= deployed@.len(),
            s == ast_utils::spans_model(spans@),
            c == json::entries_model(current@),
            d == json::entries_model(deployed@),
            pad == text::repeated("  "@, indent as nat),
            edits_model(edits@) == changed_edits(s, c, d, pad, i as nat),
        decreases deployed@.len() - i,
    {
        let ghost before = edits@;
        assert(d[i as int] == (deployed@[i as int].0@, deployed@[i as int].1@));
        match (json::find_key(current, &deployed[i].0), find_span(spans, &deployed[i].0)) {
            (Some(k), Some(span)) => {
                if !json::equal(&current[k].1, &deployed[i].1) {
                    let edit = Edit {
                        start: span.value_start,
                        end: span.value_end,
                        text: literal::json_to_nickel(&deployed[i].1, indent),
                    };
                    edits.push(edit);
                    assert(edits_model(edits@) =~= edits_model(before).push(edit@));
                }
            },
            _ => {},
        }
        i = i + 1;
    }
    edits
}

// ---------------------------------------------------------------------------
// From the back to the front
// ---------------------------------------------------------------------------

/// A list of edits with one more, behind all that start at or after it.
pub open spec fn placed(edits: Seq<EditModel>, e: EditModel) -> Seq<EditModel>
    decreases edits.len(),
{
    if edits.len() == 0 || edits.last().start >= e.start {
        edits.push(e)
    } else {
        placed(edits.drop_last(), e).push(edits.last())
    }
}

/// The edits by descending start; edits with the same start keep their order.
pub open spec fn descending(edits: Seq<EditModel>) -> Seq<EditModel>
    decreases edits.len(),
{
    if edits.len() == 0 {
        seq![]
    } else {
        placed(descending(edits.drop_last()), edits.last())
    }
}

/// No edit starts before one that follows it.
pub open spec fn starts_descend(edits: Seq<EditModel>) -> bool {
    forall|i: int, j: int|
        0 <= i < j < edits.len() ==> (#[trigger] edits[i]).start >= (#[trigger] edits[j]).start
}

proof fn lemma_placed(edits: Seq<EditModel>, e: EditModel)
    requires
        starts_descend(edits),
    ensures
        starts_descend(placed(edits, e)),
        placed(edits, e).len() == edits.len() + 1,
        placed(edits, e).to_multiset() == edits.to_multiset().insert(e),
        forall|i: int|
            0 <= i < placed(edits, e).len() ==> (#[trigger] placed(edits, e)[i]) == e
                || exists|j: int| 0 <= j < edits.len() && edits[j] == placed(edits, e)[i],
    decreases edits.len(),
{
    broadcast use vstd::seq_lib::group_to_multiset_ensures;

    if edits.len() == 0 || edits.last().start >= e.start {
        let r = edits.push(e);
        assert forall|i: int, j: int| 0 <= i < j < r.len() implies (#[trigger] r[i]).start >= (
        #[trigger] r[j]).start by {
            if j == edits.len() && i < edits.len() - 1 {
                assert(edits[i].start >= edits[edits.len() - 1].start);
            }
        }
        assert forall|i: int| 0 <= i < r.len() implies (#[trigger] r[i]) == e || exists|j: int|
            0 <= j < edits.len() && edits[j] == r[i] by {
            if i < edits.len() {
                assert(edits[i] == r[i]);
            }
        }
    } else {
        let init = edits.drop_last();
        lemma_placed(init, e);
        let p = placed(init, e);
        let r = p.push(edits.last());
        assert forall|i: int, j: int| 0 <= i < j < r.len() implies (#[trigger] r[i]).start >= (
        #[trigger] r[j]).start by {
            if j == p.len() {
                assert(r[i] == p[i]);
                if p[i] != e {
                    let k = choose|k: int| 0 <= k < init.len() && init[k] == p[i];
                    assert(edits[k].start >= edits[edits.len() - 1].start);
                }
            }
        }
        assert forall|i: int| 0 <= i < r.len() implies (#[trigger] r[i]) == e || exists|j: int|
            0 <= j < edits.len() && edits[j] == r[i] by {
            if i < p.len() {
                assert(r[i] == p[i]);
                if p[i] != e {
                    let k = choose|k: int| 0 <= k < init.len() && init[k] == p[i];
                    assert(edits[k] == r[i]);
                }
            } else {
                assert(edits[edits.len() - 1] == r[i]);
            }
        }
        assert(edits =~= init.push(edits.last()));
    }
}

/// Ordering edits loses none and adds none, and their starts descend.
pub proof fn law_descending(edits: Seq<EditModel>)
    ensures
        starts_descend(descending(edits)),
        descending(edits).to_multiset() == edits.to_multiset(),
        descending(edits).len() == edits.len(),
    decreases edits.len(),
{
    broadcast use vstd::seq_lib::group_to_multiset_ensures;

    if edits.len() > 0 {
        law_descending(edits.drop_last());
        lemma_placed(descending(edits.drop_last()), edits.last());
        assert(edits =~= edits.drop_last().push(edits.last()));
    } else {
        assert(descending(edits) =~= edits);
    }
}

proof fn lemma_placed_at(edits: Seq<EditModel>, e: EditModel, at: int)
    requires
        0 <= at <= edits.len(),
        at > 0 ==> edits[at - 1].start >= e.start,
        forall|i: int| at <= i < edits.len() ==> (#[trigger] edits[i]).start < e.start,
    ensures
        placed(edits, e) == edits.insert(at, e),
    decreases edits.len(),
{
    if at < edits.len() {
        let init = edits.drop_last();
        assert(edits[edits.len() - 1].start < e.start);
        lemma_placed_at(init, e, at);
        assert(init.insert(at, e).push(edits.last()) =~= edits.insert(at, e));
    } else {
        assert(edits.push(e) =~= edits.insert(at, e));
    }
}

fn sort_edits(edits: &Vec<Edit>) -> (r: Vec<Edit>)
    ensures
        edits_model(r@) == descending(edits_model(edits@)),
{
    let ghost m = edits_model(edits@);
    let mut out: Vec<Edit> = Vec::new();
    assert(edits_model(out@) =~= descending(m.take(0)));
    let mut i: usize = 0;
    while i < edits.len()
        invariant
            i <= edits@.len(),
            m == edits_model(edits@),
            edits_model(out@) == descending(m.take(i as int)),
        decreases edits@.len() - i,
    {
        let ghost before = edits_model(out@);
        let edit = Edit {
            start: edits[i].start,
            end: edits[i].end,
            text: text::owned(&edits[i].text),
        };
        assert(m.take(i + 1).drop_last() =~= m.take(i as int));
        assert(m.take(i + 1).last() == edit@);
        let mut at: usize = out.len();
        while at > 0 && out[at - 1].start < edit.start
            invariant
                at <= out@.len(),
                before == edits_model(out@),
                forall|k: int| at <= k < before.len() ==> (#[trigger] before[k]).start < edit.start,
            decreases at,
        {
            assert(before[at - 1] == out@[at - 1]@);
            at = at - 1;
        }
        proof {
            if at > 0 {
                assert(before[at - 1] == out@[at - 1]@);
            }
            lemma_placed_at(before, edit@, at as int);
        }
        out.insert(at, edit);
        assert(edits_model(out@) =~= before.insert(at as int, edit@));
        i = i + 1;
    }
    assert(m.take(i as int) =~= m);
    out
}

// ---------------------------------------------------------------------------
// Applying edits
// ---------------------------------------------------------------------------

/// Bytes with a range replaced.
pub open spec fn replaced_range(bytes: Seq<u8>, e: EditModel) -> Seq<u8> {
    bytes.take(e.start as int) + encode_utf8(e.text) + bytes.skip(e.end as int)
}

/// A range lies in the bytes, on boundaries of characters.
pub open spec fn range_fits(bytes: Seq<u8>, e: EditModel) -> bool {
    &&& e.start <= e.end <= bytes.len()
    &&& is_char_boundary(bytes, e.start as int)
    &&& is_char_boundary(bytes, e.end as int)
}

/// Bytes after the first `n` edits, one after the other.
pub open spec fn applied(bytes: Seq<u8>, edits: Seq<EditModel>, n: nat) -> Seq<u8>
    decreases n,
{
    if n == 0 || n > edits.len() {
        bytes
    } else {
        replaced_range(applied(bytes, edits, (n - 1) as nat), edits[n - 1])
    }
}

/// Each of the edits fits the bytes that it is applied to.
pub open spec fn all_fit(bytes: Seq<u8>, edits: Seq<EditModel>) -> bool {
    forall|i: int|
        0 <= i < edits.len() ==> range_fits(applied(bytes, edits, i as nat), #[trigger] edits[i])
}

fn replace_range(s: &str, start: usize, end: usize, with: &str) -> (r: Option<String>)
    ensures
        match r {
            Some(t) => {
                let e = EditModel { start: start as nat, end: end as nat, text: with@ };
                range_fits(encode_utf8(s@), e) && encode_utf8(t@) == replaced_range(
                    encode_utf8(s@),
                    e,
                )
            },
            None => !range_fits(
                encode_utf8(s@),
                EditModel { start: start as nat, end: end as nat, text: with@ },
            ),
        },
{
    let ghost bytes = encode_utf8(s@);
    let len = s.as_bytes().len();
    if start > end || end > len {
        return None;
    }
    if !s.is_char_boundary(start) || !s.is_char_boundary(end) {
        return None;
    }
    let (head, _) = s.split_at(start);
    let (_, tail) = s.split_at(end);
    let r = text::concat3(head, with, tail);
    proof {
        text::lemma_encode_concat(head@, with@);
        text::lemma_encode_concat(head@ + with@, tail@);
        assert(bytes.subrange(0, start as int) =~= bytes.take(start as int));
        assert(bytes.subrange(end as int, bytes.len() as int) =~= bytes.skip(end as int));
    }
    Some(r)
}

/// Applies edits one after the other; `None` where one does not fit.
pub fn apply_edits(source: &str, edits: &Vec<Edit>) -> (r: Option<String>)
    ensures
        match r {
            Some(t) => {
                &&& all_fit(encode_utf8(source@), edits_model(edits@))
                &&& encode_utf8(t@) == applied(
                    encode_utf8(source@),
                    edits_model(edits@),
                    edits@.len(),
                )
            },
            None => !all_fit(encode_utf8(source@), edits_model(edits@)),
        },
{
    let ghost bytes = encode_utf8(source@);
    let ghost m = edits_model(edits@);
    let mut now = text::owned(source);
    let mut i: usize = 0;
    while i < edits.len()
        invariant
            i <= edits@.len(),
            bytes == encode_utf8(source@),
            m == edits_model(edits@),
            encode_utf8(now@) == applied(bytes, m, i as nat),
            forall|k: int|
                0 <= k < i ==> range_fits(applied(bytes, m, k as nat), #[trigger] m[k]),
        decreases edits@.len() - i,
    {
        assert(m[i as int] == edits@[i as int]@);
        match replace_range(&now, edits[i].start, edits[i].end, &edits[i].text) {
            Some(t) => {
                now = t;
            },
            None => {
                assert(!range_fits(applied(bytes, m, i as nat), m[i as int]));
                return None;
            },
        }
        i = i + 1;
    }
    Some(now)
}

/// The edits that bring the deployed values of changed keys into a source.
pub open spec fn rewrite_edits(
    spans: Seq<SpanModel>,
    current: json::EntriesModel,
    deployed: json::EntriesModel,
    base_indent: nat,
) -> Seq<EditModel> {
    descending(
        changed_edits(
            spans,
            current,
            deployed,
            text::repeated("  "@, base_indent + 1),
            deployed.len(),
        ),
    )
}

/// Brings the deployed values of changed keys into a source, each at its span,
/// after a test that the spans fit the source.
pub fn checked_rewrite(
    source: &str,
    leaf_spans: &[LeafSpan],
    current_json: &Json,
    deployed_json: &Json,
    base_indent: usize,
) -> (r: Result<String, RewriteError>)
    requires
        base_indent < usize::MAX,
    ensures
        match (current_json@, deployed_json@) {
            (JsonModel::Object(current), JsonModel::Object(deployed)) => {
                let edits = rewrite_edits(
                    ast_utils::spans_model(leaf_spans@),
                    current,
                    deployed,
                    base_indent as nat,
                );
                match r {
                    Ok(t) => all_fit(encode_utf8(source@), edits) && encode_utf8(t@) == applied(
                        encode_utf8(source@),
                        edits,
                        edits.len(),
                    ),
                    Err(e) => e == RewriteError::SpanOutsideSource && !all_fit(
                        encode_utf8(source@),
                        edits,
                    ),
                }
            },
            (JsonModel::Object(_), _) => r == Err::<String, RewriteError>(
                RewriteError::DeployedNotObject,
            ),
            _ => r == Err::<String, RewriteError>(RewriteError::CurrentNotObject),
        },
{
    broadcast use {json::lemma_array_model, json::lemma_object_model};

    let current = match current_json {
        Json::Object(entries) => entries,
        _ => {
            return Err(RewriteError::CurrentNotObject);
        },
    };
    let deployed = match deployed_json {
        Json::Object(entries) => entries,
        _ => {
            return Err(RewriteError::DeployedNotObject);
        },
    };
    let edits = collect_edits(leaf_spans, current, deployed, base_indent + 1);
    match apply_edits(source, &sort_edits(&edits)) {
        Some(t) => Ok(t),
        None => Err(RewriteError::SpanOutsideSource),
    }
}

/// Brings the deployed values of changed keys into a source, each at its span.
/// A key that is not current, or whose place is not known, is left alone.
pub fn surgical_rewrite(
    source: &str,
    leaf_spans: &[LeafSpan],
    current_json: &Json,
    deployed_json: &Json,
    base_indent: usize,
) -> (r: Result<String, RewriteError>)
    requires
        base_indent < usize::MAX,
        current_json@ is Object && deployed_json@ is Object ==> all_fit(
            encode_utf8(source@),
            rewrite_edits(
                ast_utils::spans_model(leaf_spans@),
                current_json@->Object_0,
                deployed_json@->Object_0,
                base_indent as nat,
            ),
        ),
    ensures
        match (current_json@, deployed_json@) {
            (JsonModel::Object(current), JsonModel::Object(deployed)) => {
                let edits = rewrite_edits(
                    ast_utils::spans_model(leaf_spans@),
                    current,
                    deployed,
                    base_indent as nat,
                );
                r matches Ok(t) && encode_utf8(t@) == applied(
                    encode_utf8(source@),
                    edits,
                    edits.len(),
                )
            },
            (JsonModel::Object(_), _) => r == Err::<String, RewriteError>(
                RewriteError::DeployedNotObject,
            ),
            _ => r == Err::<String, RewriteError>(RewriteError::CurrentNotObject),
        },
{
    checked_rewrite(source, leaf_spans, current_json, deployed_json, base_indent)
}

// ---------------------------------------------------------------------------
// Laws of the rewrite
// ---------------------------------------------------------------------------

/// No edit reaches into the one before it: each ends where that one starts, or
/// earlier.
pub open spec fn disjoint(edits: Seq<EditModel>) -> bool {
    forall|i: int, j: int|
        0 <= i < j < edits.len() ==> (#[trigger] edits[j]).end <= (#[trigger] edits[i]).start
}

/// What stands from the start of the `n`th edit on, counted from the back of
/// the bytes: its text, then the old bytes up to the next edit, and so on.
pub open spec fn spliced(bytes: Seq<u8>, edits: Seq<EditModel>, n: nat) -> Seq<u8>
    decreases n,
{
    if n == 0 || n > edits.len() {
        seq![]
    } else if n == 1 {
        encode_utf8(edits[0].text) + bytes.skip(edits[0].end as int)
    } else {
        encode_utf8(edits[n - 1].text) + bytes.subrange(
            edits[n - 1].end as int,
            edits[n - 2].start as int,
        ) + spliced(bytes, edits, (n - 1) as nat)
    }
}

/// A rewrite touches nothing but the ranges of its edits: before the first
/// range, between two ranges and behind the last one the old bytes stand, and
/// each range holds the text of its edit.
pub proof fn law_rewrite_local(bytes: Seq<u8>, edits: Seq<EditModel>, n: nat)
    requires
        0 < n <= edits.len(),
        disjoint(edits),
        forall|i: int|
            0 <= i < edits.len() ==> (#[trigger] edits[i]).start <= edits[i].end <= bytes.len(),
    ensures
        applied(bytes, edits, n) == bytes.take(edits[n - 1].start as int) + spliced(
            bytes,
            edits,
            n,
        ),
    decreases n,
{
    let e = edits[n - 1];
    if n == 1 {
        assert(applied(bytes, edits, 0) == bytes);
        assert(applied(bytes, edits, 1) == replaced_range(bytes, e));
        assert(applied(bytes, edits, n) =~= bytes.take(e.start as int) + spliced(bytes, edits, n));
    } else {
        law_rewrite_local(bytes, edits, (n - 1) as nat);
        let f = edits[n - 2];
        let before = applied(bytes, edits, (n - 1) as nat);
        let rest = spliced(bytes, edits, (n - 1) as nat);
        assert(e.end <= f.start);
        assert(before == bytes.take(f.start as int) + rest);
        assert(before.take(e.start as int) =~= bytes.take(e.start as int));
        assert(before.skip(e.end as int) =~= bytes.subrange(e.end as int, f.start as int) + rest);
        assert(applied(bytes, edits, n) == replaced_range(before, e));
        assert(applied(bytes, edits, n) =~= bytes.take(e.start as int) + spliced(bytes, edits, n));
    }
}

/// Two edits do not overlap, nor start at the same place.
pub open spec fn apart(a: EditModel, b: EditModel) -> bool {
    a.start != b.start && (a.end <= b.start || b.end <= a.start)
}

/// No two edits overlap, nor start at the same place.
pub open spec fn all_apart(edits: Seq<EditModel>) -> bool {
    forall|i: int, j: int|
        0 <= i < j < edits.len() ==> apart(#[trigger] edits[i], #[trigger] edits[j])
}

/// The spans lie in the bytes, on boundaries of characters, and no two of them
/// overlap or start at the same place.
pub open spec fn spans_apart(spans: Seq<SpanModel>, bytes: Seq<u8>) -> bool {
    &&& forall|i: int|
        0 <= i < spans.len() ==> term::range_lies_in(
            (#[trigger] spans[i]).value_start,
            spans[i].value_end,
            bytes,
        )
    &&& forall|i: int, j: int|
        0 <= i < j < spans.len() ==> {
            &&& (#[trigger] spans[i]).value_start != (#[trigger] spans[j]).value_start
            &&& spans[i].value_end <= spans[j].value_start || spans[j].value_end
                <= spans[i].value_start
        }
}

/// No two spans have the same name.
pub open spec fn distinct_names(spans: Seq<SpanModel>) -> bool {
    forall|i: int, j: int|
        0 <= i < j < spans.len() ==> (#[trigger] spans[i]).name != (#[trigger] spans[j]).name
}

proof fn lemma_placed_apart(edits: Seq<EditModel>, e: EditModel)
    requires
        starts_descend(edits),
        all_apart(edits),
        forall|i: int| 0 <= i < edits.len() ==> apart(#[trigger] edits[i], e),
    ensures
        all_apart(placed(edits, e)),
    decreases edits.len(),
{
    if edits.len() > 0 && edits.last().start < e.start {
        let init = edits.drop_last();
        lemma_placed_apart(init, e);
        lemma_placed(init, e);
        let p = placed(init, e);
        let r = p.push(edits.last());
        assert forall|i: int, j: int| 0 <= i < j < r.len() implies apart(
            #[trigger] r[i],
            #[trigger] r[j],
        ) by {
            assert(r[i] == p[i]);
            if j == p.len() {
                if p[i] != e {
                    let k = choose|k: int| 0 <= k < init.len() && init[k] == p[i];
                    assert(apart(edits[k], edits[edits.len() - 1]));
                } else {
                    assert(apart(edits[edits.len() - 1], e));
                }
            } else {
                assert(r[j] == p[j]);
            }
        }
    }
}

proof fn lemma_descending_apart(edits: Seq<EditModel>)
    requires
        all_apart(edits),
    ensures
        all_apart(descending(edits)),
        forall|i: int|
            0 <= i < descending(edits).len() ==> exists|j: int|
                0 <= j < edits.len() && edits[j] == #[trigger] descending(edits)[i],
    decreases edits.len(),
{
    if edits.len() > 0 {
        let init = edits.drop_last();
        let e = edits.last();
        assert(all_apart(init)) by {
            assert forall|i: int, j: int| 0 <= i < j < init.len() implies apart(
                #[trigger] init[i],
                #[trigger] init[j],
            ) by {
                assert(apart(edits[i], edits[j]));
            }
        }
        lemma_descending_apart(init);
        law_descending(init);
        let d = descending(init);
        assert forall|i: int| 0 <= i < d.len() implies apart(#[trigger] d[i], e) by {
            let j = choose|j: int| 0 <= j < init.len() && init[j] == d[i];
            assert(apart(edits[j], edits[edits.len() - 1]));
        }
        lemma_placed_apart(d, e);
        lemma_placed(d, e);
        let p = placed(d, e);
        assert forall|i: int| 0 <= i < p.len() implies exists|j: int|
            0 <= j < edits.len() && edits[j] == #[trigger] p[i] by {
            if p[i] == e {
                assert(edits[edits.len() - 1] == p[i]);
            } else {
                let k = choose|k: int| 0 <= k < d.len() && d[k] == p[i];
                let j = choose|j: int| 0 <= j < init.len() && init[j] == d[k];
                assert(edits[j] == p[i]);
            }
        }
    }
}

proof fn lemma_span_named(spans: Seq<SpanModel>, name: Seq<char>) -> (at: int)
    ensures
        span_named(spans, name) matches Some(s) ==> 0 <= at < spans.len() && spans[at] == s
            && s.name == name,
    decreases spans.len(),
{
    if spans.len() == 0 {
        0
    } else if spans.last().name == name {
        spans.len() - 1
    } else {
        lemma_span_named(spans.drop_last(), name)
    }
}

/// An edit replaces the span of a key that both sides have, with different
/// values, by the deployed value as a literal.
pub open spec fn edit_at(
    spans: Seq<SpanModel>,
    current: json::EntriesModel,
    deployed: json::EntriesModel,
    pad: Seq<char>,
    e: EditModel,
    at: int,
    k: int,
) -> bool {
    &&& 0 <= at < spans.len()
    &&& changed_key(current, deployed, k)
    &&& spans[at].name == deployed[k].0
    &&& e.start == spans[at].value_start
    &&& e.end == spans[at].value_end
    &&& e.text == literal::nickel_text(deployed[k].1, pad)
}

/// A deployed key that is current as well, with another value.
pub open spec fn changed_key(
    current: json::EntriesModel,
    deployed: json::EntriesModel,
    k: int,
) -> bool {
    &&& 0 <= k < deployed.len()
    &&& pairs::lookup(current, deployed[k].0) matches Some(v) && !json::json_equal(
        v,
        deployed[k].1,
    )
}

/// An edit is the one of one of the first `n` deployed keys.
pub open spec fn edit_placed(
    spans: Seq<SpanModel>,
    current: json::EntriesModel,
    deployed: json::EntriesModel,
    pad: Seq<char>,
    e: EditModel,
    n: nat,
) -> bool {
    exists|at: int, k: int|
        k < n && #[trigger] edit_at(spans, current, deployed, pad, e, at, k)
}

/// The edits hold that of a deployed key at a span.
pub open spec fn edit_made(
    spans: Seq<SpanModel>,
    deployed: json::EntriesModel,
    pad: Seq<char>,
    edits: Seq<EditModel>,
    at: int,
    k: int,
) -> bool {
    edits.contains(
        EditModel {
            start: spans[at].value_start,
            end: spans[at].value_end,
            text: literal::nickel_text(deployed[k].1, pad),
        },
    )
}

proof fn lemma_span_distinct(spans: Seq<SpanModel>, at: int)
    requires
        distinct_names(spans),
        0 <= at < spans.len(),
    ensures
        span_named(spans, spans[at].name) == Some(spans[at]),
    decreases spans.len(),
{
    if at < spans.len() - 1 {
        let init = spans.drop_last();
        assert(spans[at].name != spans[spans.len() - 1].name);
        assert forall|i: int, j: int| 0 <= i < j < init.len() implies (#[trigger] init[i]).name != (
        #[trigger] init[j]).name by {
            assert(spans[i].name != spans[j].name);
        }
        lemma_span_distinct(init, at);
        assert(init[at] == spans[at]);
    }
}

proof fn lemma_changed_apart(
    spans: Seq<SpanModel>,
    current: json::EntriesModel,
    deployed: json::EntriesModel,
    pad: Seq<char>,
    bytes: Seq<u8>,
    n: nat,
)
    requires
        n <= deployed.len(),
        pairs::distinct_keys(deployed),
        spans_apart(spans, bytes),
    ensures
        all_apart(changed_edits(spans, current, deployed, pad, n)),
        forall|i: int|
            0 <= i < changed_edits(spans, current, deployed, pad, n).len() ==> edit_placed(
                spans,
                current,
                deployed,
                pad,
                #[trigger] changed_edits(spans, current, deployed, pad, n)[i],
                n,
            ),
    decreases n,
{
    if n > 0 {
        let m = (n - 1) as nat;
        lemma_changed_apart(spans, current, deployed, pad, bytes, m);
        let before = changed_edits(spans, current, deployed, pad, m);
        let now = changed_edits(spans, current, deployed, pad, n);
        let key = deployed[n - 1].0;
        let at = lemma_span_named(spans, key);
        assert forall|i: int| 0 <= i < now.len() implies edit_placed(
            spans,
            current,
            deployed,
            pad,
            #[trigger] now[i],
            n,
        ) by {
            if i < before.len() {
                assert(edit_placed(spans, current, deployed, pad, before[i], m));
                let (a, k) = choose|a: int, k: int|
                    k < m && #[trigger] edit_at(spans, current, deployed, pad, before[i], a, k);
                assert(edit_at(spans, current, deployed, pad, now[i], a, k));
            } else {
                assert(edit_at(spans, current, deployed, pad, now[i], at, n - 1));
            }
        }
        assert forall|i: int, j: int| 0 <= i < j < now.len() implies apart(
            #[trigger] now[i],
            #[trigger] now[j],
        ) by {
            assert(now[i] == before[i]);
            if j < before.len() {
                assert(now[j] == before[j]);
            } else {
                assert(edit_placed(spans, current, deployed, pad, before[i], m));
                let (a, k) = choose|a: int, k: int|
                    k < m && #[trigger] edit_at(spans, current, deployed, pad, before[i], a, k);
                assert(deployed[k].0 != deployed[n - 1].0);
                assert(a != at);
                if a < at {
                    assert(spans[a].value_start != spans[at].value_start);
                } else {
                    assert(spans[at].value_start != spans[a].value_start);
                }
            }
        }
    }
}

proof fn lemma_changed_made(
    spans: Seq<SpanModel>,
    current: json::EntriesModel,
    deployed: json::EntriesModel,
    pad: Seq<char>,
    n: nat,
    at: int,
    k: int,
)
    requires
        n <= deployed.len(),
        distinct_names(spans),
        0 <= at < spans.len(),
        0 <= k < n,
        changed_key(current, deployed, k),
        spans[at].name == deployed[k].0,
    ensures
        edit_made(spans, deployed, pad, changed_edits(spans, current, deployed, pad, n), at, k),
    decreases n,
{
    let now = changed_edits(spans, current, deployed, pad, n);
    if k < n - 1 {
        lemma_changed_made(spans, current, deployed, pad, (n - 1) as nat, at, k);
        let before = changed_edits(spans, current, deployed, pad, (n - 1) as nat);
        let e = EditModel {
            start: spans[at].value_start,
            end: spans[at].value_end,
            text: literal::nickel_text(deployed[k].1, pad),
        };
        let i = choose|i: int| 0 <= i < before.len() && before[i] == e;
        assert(now[i] == e);
    } else {
        lemma_span_distinct(spans, at);
        assert(now[now.len() - 1] == now.last());
    }
}

proof fn lemma_spliced_valid(bytes: Seq<u8>, edits: Seq<EditModel>, n: nat)
    requires
        valid_utf8(bytes),
        0 < n <= edits.len(),
        disjoint(edits),
        forall|i: int| 0 <= i < edits.len() ==> range_fits(bytes, #[trigger] edits[i]),
    ensures
        valid_utf8(spliced(bytes, edits, n)),
    decreases n,
{
    let e = edits[n - 1];
    assert(range_fits(bytes, e));
    encode_utf8_valid_utf8(e.text);
    if n == 1 {
        is_char_boundary_start_end_of_seq(bytes);
        text::lemma_between_valid(bytes, e.end as int, bytes.len() as int);
        assert(bytes.subrange(e.end as int, bytes.len() as int) =~= bytes.skip(e.end as int));
        valid_utf8_concat(encode_utf8(e.text), bytes.skip(e.end as int));
    } else {
        let f = edits[n - 2];
        assert(range_fits(bytes, f));
        assert(e.end <= f.start);
        lemma_spliced_valid(bytes, edits, (n - 1) as nat);
        text::lemma_between_valid(bytes, e.end as int, f.start as int);
        let middle = bytes.subrange(e.end as int, f.start as int);
        valid_utf8_concat(encode_utf8(e.text), middle);
        valid_utf8_concat(encode_utf8(e.text) + middle, spliced(bytes, edits, (n - 1) as nat));
    }
}

proof fn lemma_all_fit(bytes: Seq<u8>, edits: Seq<EditModel>)
    requires
        valid_utf8(bytes),
        disjoint(edits),
        forall|i: int| 0 <= i < edits.len() ==> range_fits(bytes, #[trigger] edits[i]),
    ensures
        all_fit(bytes, edits),
{
    assert forall|i: int| 0 <= i < edits.len() implies range_fits(
        applied(bytes, edits, i as nat),
        #[trigger] edits[i],
    ) by {
        let e = edits[i];
        assert(range_fits(bytes, e));
        if i > 0 {
            let f = edits[i - 1];
            assert(range_fits(bytes, f));
            assert(e.end <= f.start);
            law_rewrite_local(bytes, edits, i as nat);
            lemma_spliced_valid(bytes, edits, i as nat);
            let head = bytes.take(f.start as int);
            let rest = spliced(bytes, edits, i as nat);
            text::lemma_take_boundary(bytes, e.start as int, f.start as int);
            text::lemma_take_boundary(bytes, e.end as int, f.start as int);
            text::lemma_append_boundary(head, rest, e.start as int);
            text::lemma_append_boundary(head, rest, e.end as int);
        }
    }
}

/// Where spans of distinct names lie in the source, apart from each other, a
/// rewrite succeeds and does exactly this: each edit replaces the span of a key
/// that both sides have with different values, by the deployed value as a
/// literal; every such key whose span is given has its edit; and all other bytes
/// stay as they are, since the edits lie apart, from the back to the front.
pub proof fn law_rewrite_spans(
    source: Seq<char>,
    spans: Seq<SpanModel>,
    current: json::EntriesModel,
    deployed: json::EntriesModel,
    base_indent: nat,
)
    requires
        pairs::distinct_keys(deployed),
        distinct_names(spans),
        spans_apart(spans, encode_utf8(source)),
    ensures
        ({
            let edits = rewrite_edits(spans, current, deployed, base_indent);
            let bytes = encode_utf8(source);
            let pad = text::repeated("  "@, base_indent + 1);
            &&& all_fit(bytes, edits)
            &&& disjoint(edits)
            &&& forall|i: int|
                0 <= i < edits.len() ==> edit_placed(
                    spans,
                    current,
                    deployed,
                    pad,
                    #[trigger] edits[i],
                    deployed.len(),
                )
            &&& forall|at: int, k: int|
                0 <= at < spans.len() && changed_key(current, deployed, k) && spans[at].name
                    == deployed[k].0 ==> #[trigger] edit_made(spans, deployed, pad, edits, at, k)
            &&& edits.len() == 0 ==> applied(bytes, edits, edits.len()) == bytes
            &&& edits.len() > 0 ==> applied(bytes, edits, edits.len()) == bytes.take(
                edits.last().start as int,
            ) + spliced(bytes, edits, edits.len())
        }),
{
    broadcast use vstd::seq_lib::group_to_multiset_ensures;

    let bytes = encode_utf8(source);
    encode_utf8_valid_utf8(source);
    let pad = text::repeated("  "@, base_indent + 1);
    let changed = changed_edits(spans, current, deployed, pad, deployed.len());
    lemma_changed_apart(spans, current, deployed, pad, bytes, deployed.len());
    lemma_descending_apart(changed);
    law_descending(changed);
    let edits = descending(changed);
    assert forall|i: int| 0 <= i < edits.len() implies edit_placed(
        spans,
        current,
        deployed,
        pad,
        #[trigger] edits[i],
        deployed.len(),
    ) && range_fits(bytes, edits[i]) by {
        let j = choose|j: int| 0 <= j < changed.len() && changed[j] == edits[i];
        assert(edit_placed(spans, current, deployed, pad, changed[j], deployed.len()));
        let (at, k) = choose|at: int, k: int|
            k < deployed.len() && #[trigger] edit_at(
                spans,
                current,
                deployed,
                pad,
                changed[j],
                at,
                k,
            );
        assert(term::range_lies_in(spans[at].value_start, spans[at].value_end, bytes));
    }
    assert forall|i: int, j: int| 0 <= i < j < edits.len() implies (#[trigger] edits[j]).end <= (
    #[trigger] edits[i]).start by {
        assert(apart(edits[i], edits[j]));
        assert(edits[i].start >= edits[j].start);
        assert(range_fits(bytes, edits[i]));
    }
    lemma_all_fit(bytes, edits);
    assert forall|at: int, k: int|
        0 <= at < spans.len() && changed_key(current, deployed, k) && spans[at].name
            == deployed[k].0 implies #[trigger] edit_made(spans, deployed, pad, edits, at, k) by {
        lemma_changed_made(spans, current, deployed, pad, deployed.len(), at, k);
        let e = EditModel {
            start: spans[at].value_start,
            end: spans[at].value_end,
            text: literal::nickel_text(deployed[k].1, pad),
        };
        assert(changed.to_multiset().count(e) > 0);
        assert(edits.to_multiset().count(e) > 0);
    }
    if edits.len() > 0 {
        law_rewrite_local(bytes, edits, edits.len());
    }
}

proof fn lemma_no_edits(
    spans: Seq<SpanModel>,
    current: json::EntriesModel,
    deployed: json::EntriesModel,
    pad: Seq<char>,
    n: nat,
)
    requires
        n <= deployed.len(),
        forall|i: int|
            0 <= i < deployed.len() ==> (pairs::lookup(current, (#[trigger] deployed[i]).0) is Some
                ==> json::json_equal(
                pairs::lookup(current, deployed[i].0)->0,
                deployed[i].1,
            )),
    ensures
        changed_edits(spans, current, deployed, pad, n) == Seq::<EditModel>::empty(),
    decreases n,
{
    if n > 0 {
        lemma_no_edits(spans, current, deployed, pad, (n - 1) as nat);
    }
}

/// Where every deployed key that is current has its current value, the source
/// stays as it is.
pub proof fn law_rewrite_unchanged(
    source: Seq<char>,
    spans: Seq<SpanModel>,
    current: json::EntriesModel,
    deployed: json::EntriesModel,
    base_indent: nat,
)
    requires
        forall|i: int|
            0 <= i < deployed.len() ==> (pairs::lookup(current, (#[trigger] deployed[i]).0) is Some
                ==> json::json_equal(
                pairs::lookup(current, deployed[i].0)->0,
                deployed[i].1,
            )),
    ensures
        ({
            let edits = rewrite_edits(spans, current, deployed, base_indent);
            applied(encode_utf8(source), edits, edits.len()) == encode_utf8(source)
        }),
{
    lemma_no_edits(
        spans,
        current,
        deployed,
        text::repeated("  "@, base_indent + 1),
        deployed.len(),
    );
}

/// Rewriting the current values themselves leaves the source as it is.
pub proof fn law_rewrite_same(
    source: Seq<char>,
    spans: Seq<SpanModel>,
    current: json::EntriesModel,
    base_indent: nat,
)
    requires
        json::well_formed(JsonModel::Object(current)),
    ensures
        ({
            let edits = rewrite_edits(spans, current, current, base_indent);
            applied(encode_utf8(source), edits, edits.len()) == encode_utf8(source)
        }),
{
    assert(JsonModel::Object(current)->Object_0 == current);
    assert forall|i: int|
        0 <= i < current.len() && pairs::lookup(current, (#[trigger] current[i]).0) is Some implies
    json::json_equal(pairs::lookup(current, current[i].0)->0, current[i].1) by {
        pairs::lemma_lookup_distinct(current, i);
        json::law_equal_reflexive(current[i].1);
    }
    law_rewrite_unchanged(source, spans, current, current, base_indent);
}

// ---------------------------------------------------------------------------
// Indentation
// ---------------------------------------------------------------------------

/// The indentation level at a byte offset: half the bytes of white space that
/// begin the line, as far as the offset.
pub open spec fn indent_level(source: Seq<char>, offset: nat) -> nat {
    let before = decode_utf8(encode_utf8(source).take(offset as int));
    let line = text::after_last(before, '\n');
    encode_utf8(line.take(text::leading_space(line) as int)).len() / 2
}

/// Determines the indentation level at a byte offset.
pub fn detect_indent_level(source: &str, offset: usize) -> (r: usize)
    requires
        is_char_boundary(encode_utf8(source@), offset as int),
    ensures
        r == indent_level(source@, offset as nat),
        r < usize::MAX,
{
    let ghost bytes = encode_utf8(source@);
    let (before, _) = source.split_at(offset);
    proof {
        assert(bytes.subrange(0, offset as int) =~= bytes.take(offset as int));
        encode_utf8_decode_utf8(before@);
        assert(decode_utf8(bytes.take(offset as int)) == before@);
    }
    let x = text::chars_of(before);
    let from = text::find_after_last(&x, '\n');
    let ghost line = text::after_last(before@, '\n');
    let mut to: usize = from;
    while to < x.len() && text::is_white_space(x[to])
        invariant
            from <= to <= x@.len(),
            line == x@.skip(from as int),
            forall|i: int| 0 <= i < to - from ==> text::white_space(line[i]),
        decreases x@.len() - to,
    {
        to = to + 1;
    }
    proof {
        text::lemma_leading_space(line, to - from);
        assert(x@.subrange(from as int, to as int) =~= line.take(to - from));
    }
    let spaces = text::string_of(&x, from, to);
    spaces.as_str().as_bytes().len() / 2
}

proof fn lemma_pad_bytes(n: nat)
    ensures
        text::repeated("  "@, n).len() == 2 * n,
        forall|i: int| 0 <= i < 2 * n ==> text::repeated("  "@, n)[i] == ' ',
        encode_utf8(text::repeated("  "@, n)).len() == 2 * n,
    decreases n,
{
    reveal_strlit("  ");
    if n > 0 {
        lemma_pad_bytes((n - 1) as nat);
    }
    let pad = text::repeated("  "@, n);
    assert(is_ascii_chars(pad));
    is_ascii_chars_encode_utf8(pad);
}

/// The indentation at an offset is that of the line on which it stands: a line
/// that begins with a number of double spaces is indented as often, whatever
/// stands before the line and behind the offset.
pub proof fn law_indent(head: Seq<char>, n: nat, line: Seq<char>, tail: Seq<char>)
    requires
        head.len() == 0 || head.last() == '\n',
        forall|i: int| 0 <= i < line.len() ==> line[i] != '\n',
        line.len() == 0 || !text::white_space(line[0]),
    ensures
        ({
            let before = head + text::repeated("  "@, n) + line;
            indent_level(before + tail, encode_utf8(before).len()) == n
        }),
{
    let pad = text::repeated("  "@, n);
    let before = head + pad + line;
    let source = before + tail;
    lemma_pad_bytes(n);
    text::lemma_encode_concat(before, tail);
    let bytes = encode_utf8(source);
    let at = encode_utf8(before).len();
    assert(bytes.take(at as int) =~= encode_utf8(before));
    encode_utf8_decode_utf8(before);
    let last = pad + line;
    assert(before =~= head + last);
    assert forall|i: int| head.len() <= i < before.len() implies before[i] != '\n' by {
        assert(before[i] == last[i - head.len()]);
    }
    text::lemma_after_last(before, '\n', head.len() as int);
    assert(before.skip(head.len() as int) =~= last);
    assert forall|i: int| 0 <= i < 2 * n implies text::white_space(last[i]) by {
        assert(last[i] == pad[i]);
    }
    text::lemma_leading_space(last, 2 * n as int);
    assert(last.take(2 * n as int) =~= pad);
}

} // verus!
