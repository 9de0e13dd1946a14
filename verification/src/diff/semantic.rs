//! Comparison of structured configuration, key by key.
use crate::diff;
use crate::diff::DiffResult;
use crate::formats;
use crate::formats::{get_renderer, Format};
use crate::json;
use crate::json::{Json, JsonModel};
use crate::output;
use crate::output::Tone;
use crate::pairs;
use crate::text;
use vstd::prelude::*;
use vstd::string::*;

verus! {

/// Type of change detected for a single key path.
#[derive(Debug, Clone, Copy, PartialEq, Eq, Structural)]
pub enum KeyChangeType {
    /// The key exists in the repo config but not in the deployed file.
    Added,
    /// The key exists in the deployed file but not in the repo config.
    Removed,
    /// The key exists in both with different values.
    Modified,
}

/// A single key-level change between repo and deployed configs.
#[derive(Debug)]
pub struct KeyChange {
    /// Dotted key path, such as `section.subsection.key`.
    pub path: String,
    /// What kind of change this is.
    pub change_type: KeyChangeType,
    /// The value in the repo config; `None` for a removed key.
    pub repo_value: Option<Json>,
    /// The value in the deployed file; `None` for an added key.
    pub deployed_value: Option<Json>,
    /// The line that shows the change.
    pub display: String,
}

/// A change as mathematics sees it.
#[verifier::ext_equal]
pub struct ChangeModel {
    pub path: Seq<char>,
    pub change_type: KeyChangeType,
    pub repo_value: Option<JsonModel>,
    pub deployed_value: Option<JsonModel>,
    pub display: Seq<char>,
}

pub open spec fn optional_model(v: Option<Json>) -> Option<JsonModel> {
    match v {
        Some(x) => Some(x@),
        None => None,
    }
}

impl View for KeyChange {
    type V = ChangeModel;

    open spec fn view(&self) -> ChangeModel {
        ChangeModel {
            path: self.path@,
            change_type: self.change_type,
            repo_value: optional_model(self.repo_value),
            deployed_value: optional_model(self.deployed_value),
            display: self.display@,
        }
    }
}

/// What a list of changes holds.
pub open spec fn changes_model(changes: Seq<KeyChange>) -> Seq<ChangeModel> {
    changes.map_values(|c: KeyChange| c@)
}

// ---------------------------------------------------------------------------
// Showing values
// ---------------------------------------------------------------------------

/// How a value is shown in a difference: text in quotation marks, lists of up
/// to three items in full, longer ones by their length, objects abbreviated.
pub open spec fn shown(v: JsonModel) -> Seq<char>
    decreases v,
{
    match v {
        JsonModel::Text(t) => "\""@ + t + "\""@,
        JsonModel::Array(items) => if items.len() <= 3 {
            "["@ + text::joined(shown_all(items), ", "@) + "]"@
        } else {
            "[..."@ + text::digits(items.len(), 10) + " items]"@
        },
        JsonModel::Object(_) => "{...}"@,
        JsonModel::Null => "null"@,
        JsonModel::Bool(b) => if b {
            "true"@
        } else {
            "false"@
        },
        JsonModel::Number(t) => t,
    }
}

/// How each value of a list is shown.
pub open spec fn shown_all(items: Seq<JsonModel>) -> Seq<Seq<char>>
    decreases items,
{
    Seq::new(
        items.len(),
        |i: int|
            if 0 <= i < items.len() {
                shown(items[i])
            } else {
                seq![]
            },
    )
}

/// How a value is shown in a difference.
pub fn format_value(value: &Json) -> (r: String)
    ensures
        r@ == shown(value@),
    decreases value, 1nat,
{
    broadcast use {json::lemma_array_model, json::lemma_object_model};

    match value {
        Json::Text(t) => text::concat3("\"", t, "\""),
        Json::Array(items) => {
            assert(decreases_to!(value => value->Array_0));
            format_array(items)
        },
        Json::Object(_) => text::owned("{...}"),
        Json::Null => text::owned("null"),
        Json::Bool(b) => if *b {
            text::owned("true")
        } else {
            text::owned("false")
        },
        Json::Number(t) => text::owned(t),
    }
}

fn format_array(items: &Vec<Json>) -> (r: String)
    ensures
        r@ == shown(JsonModel::Array(json::items_model(items@))),
    decreases items, 0nat,
{
    let ghost m = json::items_model(items@);
    if items.len() <= 3 {
        let mut parts: Vec<String> = Vec::new();
        let mut i: usize = 0;
        while i < items.len()
            invariant
                i <= items@.len(),
                m == json::items_model(items@),
                parts@.len() == i,
                forall|k: int| 0 <= k < i ==> (#[trigger] parts@[k])@ == shown(m[k]),
            decreases items@.len() - i,
        {
            assert(decreases_to!(items@ => items@[i as int]));
            parts.push(format_value(&items[i]));
            i = i + 1;
        }
        assert(text::texts(parts@) =~= shown_all(m));
        text::concat3("[", &text::join(&parts, ", "), "]")
    } else {
        text::concat3("[...", &text::decimal(items.len()), " items]")
    }
}

/// A key below a path.
pub open spec fn key_path(path: Seq<char>, key: Seq<char>) -> Seq<char> {
    if path.len() == 0 {
        key
    } else {
        path + "."@ + key
    }
}

/// The dotted path of a key below a path.
pub fn join_path(path: &str, key: &str) -> (r: String)
    ensures
        r@ == key_path(path@, key@),
{
    if is_empty(path) {
        text::owned(key)
    } else {
        text::concat3(path, ".", key)
    }
}

fn is_empty(s: &str) -> (r: bool)
    ensures
        r == (s@.len() == 0),
{
    proof {
        reveal_strlit("");
    }
    let r = text::str_eq(s, "");
    assert(s@.len() == 0 ==> s@ =~= ""@);
    r
}

/// A sign, a path and a value, all in one tone.
pub open spec fn sign_line(
    sign: Seq<char>,
    path: Seq<char>,
    value: Seq<char>,
    tone: Tone,
    styled: bool,
) -> Seq<char> {
    output::painted(sign, tone, styled) + " "@ + output::painted(path, tone, styled) + " = "@
        + output::painted(value, tone, styled)
}

fn signed(sign: &str, path: &str, value: &str, tone: Tone, styled: bool) -> (r: String)
    ensures
        r@ == sign_line(sign@, path@, value@, tone, styled),
{
    let head = text::concat3(
        &output::paint(sign, tone, styled),
        " ",
        &output::paint(path, tone, styled),
    );
    text::concat3(&head, " = ", &output::paint(value, tone, styled))
}

/// The line for a value that was replaced: old value, arrow, new value.
pub open spec fn replaced_line(
    path: Seq<char>,
    deployed: Seq<char>,
    generated: Seq<char>,
    styled: bool,
) -> Seq<char> {
    sign_head(path, styled) + output::painted(deployed, Tone::Red, styled) + " "@
        + output::painted("->"@, Tone::Dim, styled) + " "@ + output::painted(
        generated,
        Tone::Green,
        styled,
    )
}

/// What stands before the values of a modified key.
pub open spec fn sign_head(path: Seq<char>, styled: bool) -> Seq<char> {
    output::painted("~"@, Tone::Yellow, styled) + " "@ + output::painted(path, Tone::Yellow, styled)
        + " = "@
}

fn replaced(path: &str, deployed: &str, generated: &str, styled: bool) -> (r: String)
    ensures
        r@ == replaced_line(path@, deployed@, generated@, styled),
{
    let sign = text::concat2(&output::paint("~", Tone::Yellow, styled), " ");
    let head = text::concat3(&sign, &output::paint(path, Tone::Yellow, styled), " = ");
    let old_value = text::concat3(&head, &output::paint(deployed, Tone::Red, styled), " ");
    let arrow = text::concat3(&old_value, &output::paint("->", Tone::Dim, styled), " ");
    text::concat2(&arrow, &output::paint(generated, Tone::Green, styled))
}

// ---------------------------------------------------------------------------
// Ignored keys
// ---------------------------------------------------------------------------

#[verifier::external_type_specification]
#[verifier::external_body]
#[verifier::reject_recursive_types(K)]
#[verifier::reject_recursive_types(V)]
#[verifier::reject_recursive_types(S)]
pub struct ExIndexMap<K, V, S>(indexmap::IndexMap<K, V, S>);

/// The entries of an `indexmap::IndexMap`, in its order.
pub uninterp spec fn indexed(map: indexmap::IndexMap<String, Json>) -> json::EntriesModel;

/// `indexmap::IndexMap::new` makes a map without entries.
#[verifier::external_body]
fn index_new() -> (r: indexmap::IndexMap<String, Json>)
    ensures
        indexed(r) == Seq::<(Seq<char>, JsonModel)>::empty(),
{
    indexmap::IndexMap::new()
}

/// `indexmap::IndexMap::insert` replaces the value of a key that is there, in
/// place, and appends a key that is not.
#[verifier::external_body]
fn index_insert(map: &mut indexmap::IndexMap<String, Json>, key: String, value: Json)
    ensures
        indexed(*final(map)) == pairs::put(indexed(*old(map)), key@, value@),
{
    map.insert(key, value);
}

/// `indexmap::IndexMap::into_iter` hands the entries out in the map's order.
#[verifier::external_body]
fn index_entries(map: indexmap::IndexMap<String, Json>) -> (r: Vec<(String, Json)>)
    ensures
        json::entries_model(r@) == indexed(map),
{
    map.into_iter().collect()
}

/// A key at a path is ignored: by its name, wherever it stands, or by its dotted
/// path.
pub open spec fn is_ignored(ignored: Seq<Seq<char>>, path: Seq<char>, key: Seq<char>) -> bool {
    ignored.contains(key) || ignored.contains(key_path(path, key))
}

/// A value at a path without the entries whose key is ignored, at every depth.
/// The items of a list stand at the path of the list.
pub open spec fn filtered(v: JsonModel, ignored: Seq<Seq<char>>, path: Seq<char>) -> JsonModel
    decreases v, 0nat,
{
    match v {
        JsonModel::Object(entries) => JsonModel::Object(
            filtered_entries(entries, ignored, path, entries.len()),
        ),
        JsonModel::Array(items) => JsonModel::Array(
            Seq::new(
                items.len(),
                |i: int|
                    if 0 <= i < items.len() {
                        filtered(items[i], ignored, path)
                    } else {
                        JsonModel::Null
                    },
            ),
        ),
        _ => v,
    }
}

/// What is kept of the first `n` entries.
pub open spec fn filtered_entries(
    entries: json::EntriesModel,
    ignored: Seq<Seq<char>>,
    path: Seq<char>,
    n: nat,
) -> json::EntriesModel
    decreases entries, n,
{
    if n == 0 || n > entries.len() {
        seq![]
    } else {
        let before = filtered_entries(entries, ignored, path, (n - 1) as nat);
        let entry = entries[n - 1];
        if is_ignored(ignored, path, entry.0) {
            before
        } else {
            pairs::put(before, entry.0, filtered(entry.1, ignored, key_path(path, entry.0)))
        }
    }
}

/// Leaves out the entries whose key, or whose dotted path, is ignored.
pub fn filter_keys(value: &Json, ignore_keys: &[String]) -> (r: Json)
    ensures
        r@ == filtered(value@, text::texts(ignore_keys@), seq![]),
{
    proof {
        reveal_strlit("");
        assert(""@ =~= Seq::<char>::empty());
    }
    filter_at(value, ignore_keys, "")
}

fn filter_at(value: &Json, ignore_keys: &[String], path: &str) -> (r: Json)
    ensures
        r@ == filtered(value@, text::texts(ignore_keys@), path@),
    decreases value,
{
    broadcast use {json::lemma_array_model, json::lemma_object_model};

    let ghost ignored = text::texts(ignore_keys@);
    match value {
        Json::Object(entries) => {
            let ghost m = json::entries_model(entries@);
            let mut kept = index_new();
            let mut i: usize = 0;
            while i < entries.len()
                invariant
                    i <= entries@.len(),
                    value == Json::Object(*entries),
                    m == json::entries_model(entries@),
                    ignored == text::texts(ignore_keys@),
                    indexed(kept) == filtered_entries(m, ignored, path@, i as nat),
                decreases entries@.len() - i,
            {
                assert(m[i as int] == (entries@[i as int].0@, entries@[i as int].1@));
                let at = join_path(path, &entries[i].0);
                if !text::has_text(ignore_keys, &entries[i].0) && !text::has_text(
                    ignore_keys,
                    &at,
                ) {
                    assert(decreases_to!(value => value->Object_0));
                    assert(decreases_to!(entries@ => entries@[i as int]));
                    assert(decreases_to!(entries@[i as int] => entries@[i as int].1));
                    let sub = filter_at(&entries[i].1, ignore_keys, &at);
                    index_insert(&mut kept, text::owned(&entries[i].0), sub);
                }
                i = i + 1;
            }
            Json::Object(index_entries(kept))
        },
        Json::Array(items) => {
            let ghost m = json::items_model(items@);
            let mut out: Vec<Json> = Vec::new();
            let mut i: usize = 0;
            while i < items.len()
                invariant
                    i <= items@.len(),
                    value == Json::Array(*items),
                    m == json::items_model(items@),
                    ignored == text::texts(ignore_keys@),
                    out@.len() == i,
                    forall|k: int|
                        0 <= k < i ==> (#[trigger] out@[k])@ == filtered(m[k], ignored, path@),
                decreases items@.len() - i,
            {
                assert(decreases_to!(value => value->Array_0));
                assert(decreases_to!(items@ => items@[i as int]));
                out.push(filter_at(&items[i], ignore_keys, path));
                i = i + 1;
            }
            assert(json::items_model(out@) =~= filtered(value@, ignored, path@)->Array_0);
            Json::Array(out)
        },
        _ => value.copy(),
    }
}

// ---------------------------------------------------------------------------
// Changes
// ---------------------------------------------------------------------------

/// Values between which there is nothing to report: equal ones, numbers of equal
/// value, lists of as many items that are so one by one, and objects with the
/// same keys whose values are so under every key.
pub open spec fn equivalent(g: JsonModel, d: JsonModel) -> bool
    decreases g,
{
    json::json_equal(g, d) || match (g, d) {
        (JsonModel::Number(x), JsonModel::Number(y)) => json::same_double(x, y),
        (JsonModel::Array(x), JsonModel::Array(y)) => {
            &&& x.len() == y.len()
            &&& forall|i: int| 0 <= i < x.len() ==> equivalent(#[trigger] x[i], y[i])
        },
        (JsonModel::Object(x), JsonModel::Object(y)) => {
            &&& forall|i: int|
                0 <= i < x.len() ==> {
                    &&& pairs::lookup(y, (#[trigger] x[i]).0) is Some
                    &&& equivalent(x[i].1, pairs::lookup(y, x[i].0)->0)
                }
            &&& forall|i: int| 0 <= i < y.len() ==> pairs::lookup(x, (#[trigger] y[i]).0) is Some
        },
        _ => false,
    }
}

/// Two values that are compared as a whole and between which no change is
/// reported: equal ones, numbers of equal value, and lists of as many items
/// between which there is nothing to report.
pub open spec fn unchanged(generated: JsonModel, deployed: JsonModel) -> bool {
    json::json_equal(generated, deployed) || match (generated, deployed) {
        (JsonModel::Number(g), JsonModel::Number(d)) => json::same_double(g, d),
        (JsonModel::Array(g), JsonModel::Array(d)) => {
            &&& g.len() == d.len()
            &&& forall|i: int| 0 <= i < g.len() ==> equivalent(#[trigger] g[i], d[i])
        },
        _ => false,
    }
}

pub open spec fn added_change(path: Seq<char>, v: JsonModel, styled: bool) -> ChangeModel {
    ChangeModel {
        path,
        change_type: KeyChangeType::Added,
        repo_value: Some(v),
        deployed_value: None,
        display: sign_line("+"@, path, shown(v), Tone::Green, styled),
    }
}

pub open spec fn removed_change(path: Seq<char>, v: JsonModel, styled: bool) -> ChangeModel {
    ChangeModel {
        path,
        change_type: KeyChangeType::Removed,
        repo_value: None,
        deployed_value: Some(v),
        display: sign_line("-"@, path, shown(v), Tone::Red, styled),
    }
}

pub open spec fn modified_change(
    path: Seq<char>,
    generated: JsonModel,
    deployed: JsonModel,
    styled: bool,
) -> ChangeModel {
    ChangeModel {
        path,
        change_type: KeyChangeType::Modified,
        repo_value: Some(generated),
        deployed_value: Some(deployed),
        display: if generated is Array && deployed is Array {
            sign_line(
                "~"@,
                path,
                shown(deployed) + " -> "@ + shown(generated),
                Tone::Yellow,
                styled,
            )
        } else {
            replaced_line(path, shown(deployed), shown(generated), styled)
        },
    }
}

/// The changes between two values at a path: of two objects, those of their
/// entries; else one change of the whole value.
pub open spec fn key_changes(
    generated: JsonModel,
    deployed: JsonModel,
    path: Seq<char>,
    styled: bool,
) -> Seq<ChangeModel>
    decreases generated, 0nat,
{
    if unchanged(generated, deployed) {
        seq![]
    } else {
        match (generated, deployed) {
            (JsonModel::Object(g), JsonModel::Object(d)) => repo_changes(
                g,
                d,
                path,
                styled,
                g.len(),
            ) + removed_changes(g, d, path, styled, d.len()),
            _ => seq![modified_change(path, generated, deployed, styled)],
        }
    }
}

/// The changes at the first `n` keys of the repo's object.
pub open spec fn repo_changes(
    g: json::EntriesModel,
    d: json::EntriesModel,
    path: Seq<char>,
    styled: bool,
    n: nat,
) -> Seq<ChangeModel>
    decreases g, n,
{
    if n == 0 || n > g.len() {
        seq![]
    } else {
        let entry = g[n - 1];
        let at = key_path(path, entry.0);
        repo_changes(g, d, path, styled, (n - 1) as nat) + match pairs::lookup(d, entry.0) {
            Some(v) => key_changes(entry.1, v, at, styled),
            None => seq![added_change(at, entry.1, styled)],
        }
    }
}

/// The removals among the first `n` keys of the deployed object.
pub open spec fn removed_changes(
    g: json::EntriesModel,
    d: json::EntriesModel,
    path: Seq<char>,
    styled: bool,
    n: nat,
) -> Seq<ChangeModel>
    decreases n,
{
    if n == 0 || n > d.len() {
        seq![]
    } else {
        let entry = d[n - 1];
        let before = removed_changes(g, d, path, styled, (n - 1) as nat);
        if pairs::lookup(g, entry.0) is Some {
            before
        } else {
            before.push(removed_change(key_path(path, entry.0), entry.1, styled))
        }
    }
}

fn are_equivalent(g: &Vec<Json>, d: &Vec<Json>) -> (r: bool)
    ensures
        r == {
            &&& g@.len() == d@.len()
            &&& forall|i: int|
                0 <= i < g@.len() ==> equivalent(
                    #[trigger] json::items_model(g@)[i],
                    json::items_model(d@)[i],
                )
        },
    decreases g, 0nat,
{
    let ghost x = json::items_model(g@);
    let ghost y = json::items_model(d@);
    if g.len() != d.len() {
        return false;
    }
    let mut i: usize = 0;
    while i < g.len()
        invariant
            i <= g@.len() == d@.len(),
            x == json::items_model(g@),
            y == json::items_model(d@),
            forall|k: int| 0 <= k < i ==> equivalent(#[trigger] x[k], y[k]),
        decreases g@.len() - i,
    {
        assert(decreases_to!(g@ => g@[i as int]));
        assert(x[i as int] == g@[i as int]@ && y[i as int] == d@[i as int]@);
        if !is_equivalent(&g[i], &d[i]) {
            return false;
        }
        i = i + 1;
    }
    true
}

fn are_found(y: &Vec<(String, Json)>, x: &Vec<(String, Json)>) -> (r: bool)
    ensures
        r == forall|i: int|
            0 <= i < y@.len() ==> pairs::lookup(
                json::entries_model(x@),
                (#[trigger] json::entries_model(y@)[i]).0,
            ) is Some,
{
    let ghost m = json::entries_model(y@);
    let mut i: usize = 0;
    while i < y.len()
        invariant
            i <= y@.len(),
            m == json::entries_model(y@),
            forall|k: int|
                0 <= k < i ==> pairs::lookup(json::entries_model(x@), (#[trigger] m[k]).0) is Some,
        decreases y@.len() - i,
    {
        assert(m[i as int].0 == y@[i as int].0@);
        if json::find_key(x, &y[i].0).is_none() {
            return false;
        }
        i = i + 1;
    }
    true
}

/// Whether there is nothing to report between two values.
fn is_equivalent(g: &Json, d: &Json) -> (r: bool)
    ensures
        r == equivalent(g@, d@),
    decreases g, 1nat,
{
    broadcast use {json::lemma_array_model, json::lemma_object_model};

    if json::equal(g, d) {
        return true;
    }
    match (g, d) {
        (Json::Number(x), Json::Number(y)) => json::same_value(x, y),
        (Json::Array(x), Json::Array(y)) => {
            assert(decreases_to!(g => g->Array_0));
            are_equivalent(x, y)
        },
        (Json::Object(x), Json::Object(y)) => {
            let ghost mx = json::entries_model(x@);
            let ghost my = json::entries_model(y@);
            let mut i: usize = 0;
            while i < x.len()
                invariant
                    i <= x@.len(),
                    g == Json::Object(*x),
                    mx == json::entries_model(x@),
                    my == json::entries_model(y@),
                    g@ == JsonModel::Object(mx),
                    d@ == JsonModel::Object(my),
                    !json::json_equal(g@, d@),
                    forall|k: int|
                        0 <= k < i ==> {
                            &&& pairs::lookup(my, (#[trigger] mx[k]).0) is Some
                            &&& equivalent(mx[k].1, pairs::lookup(my, mx[k].0)->0)
                        },
                decreases x@.len() - i,
            {
                assert(mx[i as int] == (x@[i as int].0@, x@[i as int].1@));
                assert(decreases_to!(g => g->Object_0));
                assert(decreases_to!(x@ => x@[i as int]));
                assert(decreases_to!(x@[i as int] => x@[i as int].1));
                match json::find_key(y, &x[i].0) {
                    Some(j) => {
                        if !is_equivalent(&x[i].1, &y[j].1) {
                            return false;
                        }
                    },
                    None => {
                        return false;
                    },
                }
                i = i + 1;
            }
            are_found(y, x)
        },
        _ => false,
    }
}

/// Whether no change is reported between two values.
fn is_unchanged(generated: &Json, deployed: &Json) -> (r: bool)
    ensures
        r == unchanged(generated@, deployed@),
{
    broadcast use {json::lemma_array_model, json::lemma_object_model};

    if json::equal(generated, deployed) {
        return true;
    }
    match (generated, deployed) {
        (Json::Number(g), Json::Number(d)) => json::same_value(g, d),
        (Json::Array(g), Json::Array(d)) => are_equivalent(g, d),
        _ => false,
    }
}

fn added(path: String, v: &Json, styled: bool) -> (r: KeyChange)
    ensures
        r@ == added_change(path@, v@, styled),
{
    let display = signed("+", &path, &format_value(v), Tone::Green, styled);
    KeyChange {
        path,
        change_type: KeyChangeType::Added,
        repo_value: Some(v.copy()),
        deployed_value: None,
        display,
    }
}

fn removed(path: String, v: &Json, styled: bool) -> (r: KeyChange)
    ensures
        r@ == removed_change(path@, v@, styled),
{
    let display = signed("-", &path, &format_value(v), Tone::Red, styled);
    KeyChange {
        path,
        change_type: KeyChangeType::Removed,
        repo_value: None,
        deployed_value: Some(v.copy()),
        display,
    }
}

fn modified(path: &str, generated: &Json, deployed: &Json, styled: bool) -> (r: KeyChange)
    ensures
        r@ == modified_change(path@, generated@, deployed@, styled),
{
    let display = match (generated, deployed) {
        (Json::Array(_), Json::Array(_)) => {
            let arrow = text::concat3(&format_value(deployed), " -> ", &format_value(generated));
            signed("~", path, &arrow, Tone::Yellow, styled)
        },
        _ => replaced(path, &format_value(deployed), &format_value(generated), styled),
    };
    KeyChange {
        path: text::owned(path),
        change_type: KeyChangeType::Modified,
        repo_value: Some(generated.copy()),
        deployed_value: Some(deployed.copy()),
        display,
    }
}

proof fn lemma_changes_push(changes: Seq<KeyChange>, c: KeyChange)
    ensures
        changes_model(changes.push(c)) == changes_model(changes).push(c@),
{
    assert(changes_model(changes.push(c)) =~= changes_model(changes).push(c@));
}

/// Collects the changes between two values at a path, behind those that are
/// there.
pub fn collect_key_changes(
    generated: &Json,
    deployed: &Json,
    path: &str,
    styled: bool,
    changes: &mut Vec<KeyChange>,
)
    ensures
        changes_model(final(changes)@) == changes_model(old(changes)@) + key_changes(
            generated@,
            deployed@,
            path@,
            styled,
        ),
    decreases generated,
{
    broadcast use {json::lemma_array_model, json::lemma_object_model};

    let ghost start = changes_model(changes@);
    if is_unchanged(generated, deployed) {
        assert(start =~= start + key_changes(generated@, deployed@, path@, styled));
        return;
    }
    match (generated, deployed) {
        (Json::Object(gen_obj), Json::Object(dep_obj)) => {
            let ghost g = json::entries_model(gen_obj@);
            let ghost d = json::entries_model(dep_obj@);
            let mut i: usize = 0;
            assert(start =~= start + repo_changes(g, d, path@, styled, 0));
            while i < gen_obj.len()
                invariant
                    i <= gen_obj@.len(),
                    generated == Json::Object(*gen_obj),
                    g == json::entries_model(gen_obj@),
                    d == json::entries_model(dep_obj@),
                    changes_model(changes@) == start + repo_changes(g, d, path@, styled, i as nat),
                decreases gen_obj@.len() - i,
            {
                let ghost before = changes@;
                assert(g[i as int] == (gen_obj@[i as int].0@, gen_obj@[i as int].1@));
                let at = join_path(path, &gen_obj[i].0);
                match json::find_key(dep_obj, &gen_obj[i].0) {
                    Some(j) => {
                        assert(decreases_to!(generated => generated->Object_0));
                        assert(decreases_to!(gen_obj@ => gen_obj@[i as int]));
                        assert(decreases_to!(gen_obj@[i as int] => gen_obj@[i as int].1));
                        collect_key_changes(&gen_obj[i].1, &dep_obj[j].1, &at, styled, changes);
                    },
                    None => {
                        let change = added(at, &gen_obj[i].1, styled);
                        proof {
                            lemma_changes_push(changes@, change);
                        }
                        changes.push(change);
                    },
                }
                i = i + 1;
                assert(changes_model(changes@) =~= start + repo_changes(
                    g,
                    d,
                    path@,
                    styled,
                    i as nat,
                ));
            }
            let ghost middle = changes_model(changes@);
            assert(middle =~= middle + removed_changes(g, d, path@, styled, 0));
            let mut k: usize = 0;
            while k < dep_obj.len()
                invariant
                    k <= dep_obj@.len(),
                    g == json::entries_model(gen_obj@),
                    d == json::entries_model(dep_obj@),
                    changes_model(changes@) == middle + removed_changes(
                        g,
                        d,
                        path@,
                        styled,
                        k as nat,
                    ),
                decreases dep_obj@.len() - k,
            {
                assert(d[k as int] == (dep_obj@[k as int].0@, dep_obj@[k as int].1@));
                match json::find_key(gen_obj, &dep_obj[k].0) {
                    Some(_) => {},
                    None => {
                        let at = join_path(path, &dep_obj[k].0);
                        let change = removed(at, &dep_obj[k].1, styled);
                        proof {
                            lemma_changes_push(changes@, change);
                        }
                        changes.push(change);
                    },
                }
                k = k + 1;
                assert(changes_model(changes@) =~= middle + removed_changes(
                    g,
                    d,
                    path@,
                    styled,
                    k as nat,
                ));
            }
            assert(changes_model(changes@) =~= start + key_changes(
                generated@,
                deployed@,
                path@,
                styled,
            ));
        },
        _ => {
            let change = modified(path, generated, deployed, styled);
            proof {
                lemma_changes_push(changes@, change);
            }
            changes.push(change);
            assert(changes_model(changes@) =~= start + key_changes(
                generated@,
                deployed@,
                path@,
                styled,
            ));
        },
    }
}

/// The lines that show a list of changes.
pub open spec fn displays(changes: Seq<ChangeModel>) -> Seq<Seq<char>> {
    changes.map_values(|c: ChangeModel| c.display)
}

pub proof fn lemma_displays_concat(a: Seq<ChangeModel>, b: Seq<ChangeModel>)
    ensures
        displays(a + b) == displays(a) + displays(b),
{
    assert(displays(a + b) =~= displays(a) + displays(b));
}

/// Appends the lines that show the changes between two values at a path, and
/// tells whether there are any.
pub fn diff_values(
    generated: &Json,
    deployed: &Json,
    path: &str,
    styled: bool,
    output: &mut Vec<String>,
) -> (r: bool)
    ensures
        text::texts(final(output)@) == text::texts(old(output)@) + displays(
            key_changes(generated@, deployed@, path@, styled),
        ),
        r == (key_changes(generated@, deployed@, path@, styled).len() > 0),
    decreases generated,
{
    broadcast use {json::lemma_array_model, json::lemma_object_model};

    let ghost start = text::texts(output@);
    if is_unchanged(generated, deployed) {
        assert(start =~= start + displays(key_changes(generated@, deployed@, path@, styled)));
        return false;
    }
    match (generated, deployed) {
        (Json::Object(gen_obj), Json::Object(dep_obj)) => {
            let ghost g = json::entries_model(gen_obj@);
            let ghost d = json::entries_model(dep_obj@);
            let mut has_changes = false;
            let mut i: usize = 0;
            assert(start =~= start + displays(repo_changes(g, d, path@, styled, 0)));
            while i < gen_obj.len()
                invariant
                    i <= gen_obj@.len(),
                    generated == Json::Object(*gen_obj),
                    g == json::entries_model(gen_obj@),
                    d == json::entries_model(dep_obj@),
                    text::texts(output@) == start + displays(
                        repo_changes(g, d, path@, styled, i as nat),
                    ),
                    has_changes == (repo_changes(g, d, path@, styled, i as nat).len() > 0),
                decreases gen_obj@.len() - i,
            {
                let ghost before = repo_changes(g, d, path@, styled, i as nat);
                assert(g[i as int] == (gen_obj@[i as int].0@, gen_obj@[i as int].1@));
                let at = join_path(path, &gen_obj[i].0);
                match json::find_key(dep_obj, &gen_obj[i].0) {
                    Some(j) => {
                        assert(decreases_to!(generated => generated->Object_0));
                        assert(decreases_to!(gen_obj@ => gen_obj@[i as int]));
                        assert(decreases_to!(gen_obj@[i as int] => gen_obj@[i as int].1));
                        let ghost here = key_changes(
                            gen_obj@[i as int].1@,
                            dep_obj@[j as int].1@,
                            at@,
                            styled,
                        );
                        if diff_values(&gen_obj[i].1, &dep_obj[j].1, &at, styled, output) {
                            has_changes = true;
                        }
                        proof {
                            lemma_displays_concat(before, here);
                            assert(repo_changes(g, d, path@, styled, (i + 1) as nat) == before
                                + here);
                        }
                    },
                    None => {
                        let line = signed(
                            "+",
                            &at,
                            &format_value(&gen_obj[i].1),
                            Tone::Green,
                            styled,
                        );
                        let ghost here = seq![added_change(at@, gen_obj@[i as int].1@, styled)];
                        proof {
                            text::lemma_texts_push(output@, line);
                            lemma_displays_concat(before, here);
                            assert(displays(here) =~= seq![line@]);
                            assert(repo_changes(g, d, path@, styled, (i + 1) as nat) == before
                                + here);
                        }
                        output.push(line);
                        has_changes = true;
                    },
                }
                i = i + 1;
                assert(text::texts(output@) =~= start + displays(
                    repo_changes(g, d, path@, styled, i as nat),
                ));
            }
            let ghost first = repo_changes(g, d, path@, styled, g.len());
            let mut k: usize = 0;
            assert(first =~= first + removed_changes(g, d, path@, styled, 0));
            while k < dep_obj.len()
                invariant
                    k <= dep_obj@.len(),
                    g == json::entries_model(gen_obj@),
                    d == json::entries_model(dep_obj@),
                    text::texts(output@) == start + displays(
                        first + removed_changes(g, d, path@, styled, k as nat),
                    ),
                    has_changes == (first.len() + removed_changes(
                        g,
                        d,
                        path@,
                        styled,
                        k as nat,
                    ).len() > 0),
                decreases dep_obj@.len() - k,
            {
                let ghost before = removed_changes(g, d, path@, styled, k as nat);
                assert(d[k as int] == (dep_obj@[k as int].0@, dep_obj@[k as int].1@));
                match json::find_key(gen_obj, &dep_obj[k].0) {
                    Some(_) => {},
                    None => {
                        let at = join_path(path, &dep_obj[k].0);
                        let line = signed(
                            "-",
                            &at,
                            &format_value(&dep_obj[k].1),
                            Tone::Red,
                            styled,
                        );
                        let ghost here = seq![removed_change(at@, dep_obj@[k as int].1@, styled)];
                        proof {
                            text::lemma_texts_push(output@, line);
                            lemma_displays_concat(first + before, here);
                            assert(displays(here) =~= seq![line@]);
                            assert(first + removed_changes(g, d, path@, styled, (k + 1) as nat)
                                =~= first + before + here);
                        }
                        output.push(line);
                        has_changes = true;
                    },
                }
                k = k + 1;
                assert(text::texts(output@) =~= start + displays(
                    first + removed_changes(g, d, path@, styled, k as nat),
                ));
            }
            has_changes
        },
        _ => {
            let line = modified(path, generated, deployed, styled).display;
            proof {
                text::lemma_texts_push(output@, line);
            }
            output.push(line);
            assert(text::texts(output@) =~= start + displays(
                key_changes(generated@, deployed@, path@, styled),
            ));
            true
        },
    }
}

// ---------------------------------------------------------------------------
// Laws of the comparison
// ---------------------------------------------------------------------------

/// A value whose keys are distinct shows no change against itself.
pub proof fn law_identical(v: JsonModel, path: Seq<char>, styled: bool)
    requires
        json::well_formed(v),
    ensures
        key_changes(v, v, path, styled) == Seq::<ChangeModel>::empty(),
{
    json::law_equal_reflexive(v);
}

/// Two numbers show no change exactly where they are printed alike or have the
/// same value, however they are written.
pub proof fn law_numbers(g: Seq<char>, d: Seq<char>, path: Seq<char>, styled: bool)
    ensures
        key_changes(JsonModel::Number(g), JsonModel::Number(d), path, styled).len() == 0 <==> (
        json::number_equal(g, d) || json::same_double(g, d)),
{
}

/// Two lists show no change exactly where they are equal, or have as many items
/// and none shows a change against the other's: an item is compared as a value
/// that stands under a key.
pub proof fn law_lists(
    g: Seq<JsonModel>,
    d: Seq<JsonModel>,
    path: Seq<char>,
    styled: bool,
)
    ensures
        key_changes(JsonModel::Array(g), JsonModel::Array(d), path, styled).len() == 0 <==> (
        json::json_equal(JsonModel::Array(g), JsonModel::Array(d)) || (g.len() == d.len()
            && forall|i: int|
            0 <= i < g.len() ==> key_changes(#[trigger] g[i], d[i], path, styled).len() == 0)),
{
    let x = JsonModel::Array(g);
    let y = JsonModel::Array(d);
    assert(x->Array_0 == g && y->Array_0 == d);
    assert forall|i: int| 0 <= i < g.len() && g.len() == d.len() implies (key_changes(
        #[trigger] g[i],
        d[i],
        path,
        styled,
    ).len() == 0 <==> equivalent(g[i], d[i])) by {
        law_changes_complete(g[i], d[i], path, styled);
    }
    if g.len() == d.len() && forall|i: int|
        0 <= i < g.len() ==> key_changes(#[trigger] g[i], d[i], path, styled).len() == 0 {
        assert forall|i: int| 0 <= i < g.len() implies equivalent(#[trigger] g[i], d[i]) by {
            assert(key_changes(g[i], d[i], path, styled).len() == 0);
        }
    }
}

/// A change is reported exactly where two values are not equivalent.
pub proof fn law_changes_complete(g: JsonModel, d: JsonModel, path: Seq<char>, styled: bool)
    ensures
        key_changes(g, d, path, styled).len() == 0 <==> equivalent(g, d),
    decreases g, 1nat,
{
    if !unchanged(g, d) {
        match (g, d) {
            (JsonModel::Object(x), JsonModel::Object(y)) => {
                assert(g->Object_0 == x && d->Object_0 == y);
                lemma_repo_complete(x, y, path, styled, x.len());
                lemma_removed_complete(x, y, path, styled, y.len());
            },
            _ => {},
        }
    }
}

proof fn lemma_repo_complete(
    x: json::EntriesModel,
    y: json::EntriesModel,
    path: Seq<char>,
    styled: bool,
    n: nat,
)
    requires
        n <= x.len(),
    ensures
        repo_changes(x, y, path, styled, n).len() == 0 <==> forall|i: int|
            0 <= i < n ==> {
                &&& pairs::lookup(y, (#[trigger] x[i]).0) is Some
                &&& equivalent(x[i].1, pairs::lookup(y, x[i].0)->0)
            },
    decreases x, n,
{
    if n > 0 {
        lemma_repo_complete(x, y, path, styled, (n - 1) as nat);
        let entry = x[n - 1];
        match pairs::lookup(y, entry.0) {
            Some(v) => {
                law_changes_complete(entry.1, v, key_path(path, entry.0), styled);
            },
            None => {},
        }
    }
}

proof fn lemma_removed_complete(
    x: json::EntriesModel,
    y: json::EntriesModel,
    path: Seq<char>,
    styled: bool,
    n: nat,
)
    requires
        n <= y.len(),
    ensures
        removed_changes(x, y, path, styled, n).len() == 0 <==> forall|i: int|
            0 <= i < n ==> pairs::lookup(x, (#[trigger] y[i]).0) is Some,
    decreases n,
{
    if n > 0 {
        lemma_removed_complete(x, y, path, styled, (n - 1) as nat);
    }
}

/// A change holds the values that its kind says: an added key has no deployed
/// value, a removed key no repo value, and a modified key has both.
pub open spec fn sides_agree(c: ChangeModel) -> bool {
    match c.change_type {
        KeyChangeType::Added => c.repo_value is Some && c.deployed_value is None,
        KeyChangeType::Removed => c.repo_value is None && c.deployed_value is Some,
        KeyChangeType::Modified => c.repo_value is Some && c.deployed_value is Some,
    }
}

/// Each of the changes holds the values that its kind says.
pub open spec fn all_sides_agree(changes: Seq<ChangeModel>) -> bool {
    forall|i: int| 0 <= i < changes.len() ==> sides_agree(#[trigger] changes[i])
}

proof fn lemma_sides_concat(a: Seq<ChangeModel>, b: Seq<ChangeModel>)
    requires
        all_sides_agree(a),
        all_sides_agree(b),
    ensures
        all_sides_agree(a + b),
{
}

/// Every change holds the values that its kind says.
pub proof fn law_change_sides(g: JsonModel, d: JsonModel, path: Seq<char>, styled: bool)
    ensures
        all_sides_agree(key_changes(g, d, path, styled)),
    decreases g, 1nat,
{
    if !unchanged(g, d) {
        match (g, d) {
            (JsonModel::Object(x), JsonModel::Object(y)) => {
                assert(g->Object_0 == x && d->Object_0 == y);
                lemma_repo_sides(x, y, path, styled, x.len());
                lemma_removed_sides(x, y, path, styled, y.len());
                lemma_sides_concat(
                    repo_changes(x, y, path, styled, x.len()),
                    removed_changes(x, y, path, styled, y.len()),
                );
            },
            _ => {},
        }
    }
}

proof fn lemma_repo_sides(
    x: json::EntriesModel,
    y: json::EntriesModel,
    path: Seq<char>,
    styled: bool,
    n: nat,
)
    requires
        n <= x.len(),
    ensures
        all_sides_agree(repo_changes(x, y, path, styled, n)),
    decreases x, n,
{
    if n > 0 {
        let before = repo_changes(x, y, path, styled, (n - 1) as nat);
        lemma_repo_sides(x, y, path, styled, (n - 1) as nat);
        let entry = x[n - 1];
        let at = key_path(path, entry.0);
        match pairs::lookup(y, entry.0) {
            Some(v) => {
                law_change_sides(entry.1, v, at, styled);
                lemma_sides_concat(before, key_changes(entry.1, v, at, styled));
            },
            None => {
                lemma_sides_concat(before, seq![added_change(at, entry.1, styled)]);
            },
        }
    }
}

proof fn lemma_removed_sides(
    x: json::EntriesModel,
    y: json::EntriesModel,
    path: Seq<char>,
    styled: bool,
    n: nat,
)
    requires
        n <= y.len(),
    ensures
        all_sides_agree(removed_changes(x, y, path, styled, n)),
    decreases n,
{
    if n > 0 {
        let before = removed_changes(x, y, path, styled, (n - 1) as nat);
        lemma_removed_sides(x, y, path, styled, (n - 1) as nat);
        let c = removed_change(key_path(path, y[n - 1].0), y[n - 1].1, styled);
        lemma_sides_concat(before, seq![c]);
        assert(before + seq![c] =~= before.push(c));
    }
}

/// A change but for the line that shows it.
pub open spec fn bare(c: ChangeModel) -> ChangeModel {
    ChangeModel { display: seq![], ..c }
}

/// A list of changes but for the lines that show them.
pub open spec fn bare_all(changes: Seq<ChangeModel>) -> Seq<ChangeModel> {
    changes.map_values(|c: ChangeModel| bare(c))
}

/// Colours change how changes are shown and nothing else.
pub proof fn law_styling(g: JsonModel, d: JsonModel, path: Seq<char>)
    ensures
        bare_all(key_changes(g, d, path, true)) == bare_all(key_changes(g, d, path, false)),
        key_changes(g, d, path, true).len() == key_changes(g, d, path, false).len(),
    decreases g, 1nat,
{
    if !unchanged(g, d) {
        match (g, d) {
            (JsonModel::Object(x), JsonModel::Object(y)) => {
                assert(g->Object_0 == x && d->Object_0 == y);
                lemma_repo_styling(x, y, path, x.len());
                lemma_removed_styling(x, y, path, y.len());
                lemma_bare_concat(
                    repo_changes(x, y, path, true, x.len()),
                    removed_changes(x, y, path, true, y.len()),
                );
                lemma_bare_concat(
                    repo_changes(x, y, path, false, x.len()),
                    removed_changes(x, y, path, false, y.len()),
                );
            },
            _ => {},
        }
    }
    assert(bare_all(key_changes(g, d, path, true)) =~= bare_all(key_changes(g, d, path, false)));
    assert(bare_all(key_changes(g, d, path, true)).len() == key_changes(g, d, path, true).len());
}

proof fn lemma_bare_concat(a: Seq<ChangeModel>, b: Seq<ChangeModel>)
    ensures
        bare_all(a + b) == bare_all(a) + bare_all(b),
{
    assert(bare_all(a + b) =~= bare_all(a) + bare_all(b));
}

proof fn lemma_repo_styling(
    x: json::EntriesModel,
    y: json::EntriesModel,
    path: Seq<char>,
    n: nat,
)
    requires
        n <= x.len(),
    ensures
        bare_all(repo_changes(x, y, path, true, n)) == bare_all(
            repo_changes(x, y, path, false, n),
        ),
    decreases x, n,
{
    if n > 0 {
        lemma_repo_styling(x, y, path, (n - 1) as nat);
        let entry = x[n - 1];
        let at = key_path(path, entry.0);
        let m = (n - 1) as nat;
        match pairs::lookup(y, entry.0) {
            Some(v) => {
                law_styling(entry.1, v, at);
                lemma_bare_concat(
                    repo_changes(x, y, path, true, m),
                    key_changes(entry.1, v, at, true),
                );
                lemma_bare_concat(
                    repo_changes(x, y, path, false, m),
                    key_changes(entry.1, v, at, false),
                );
            },
            None => {
                lemma_bare_concat(
                    repo_changes(x, y, path, true, m),
                    seq![added_change(at, entry.1, true)],
                );
                lemma_bare_concat(
                    repo_changes(x, y, path, false, m),
                    seq![added_change(at, entry.1, false)],
                );
                assert(bare_all(seq![added_change(at, entry.1, true)]) =~= bare_all(
                    seq![added_change(at, entry.1, false)],
                ));
            },
        }
    }
}

proof fn lemma_removed_styling(
    x: json::EntriesModel,
    y: json::EntriesModel,
    path: Seq<char>,
    n: nat,
)
    requires
        n <= y.len(),
    ensures
        bare_all(removed_changes(x, y, path, true, n)) == bare_all(
            removed_changes(x, y, path, false, n),
        ),
    decreases n,
{
    if n > 0 {
        lemma_removed_styling(x, y, path, (n - 1) as nat);
        let a = removed_changes(x, y, path, true, (n - 1) as nat);
        let b = removed_changes(x, y, path, false, (n - 1) as nat);
        let at = key_path(path, y[n - 1].0);
        let ca = removed_change(at, y[n - 1].1, true);
        let cb = removed_change(at, y[n - 1].1, false);
        assert(bare_all(a.push(ca)) =~= bare_all(a).push(bare(ca)));
        assert(bare_all(b.push(cb)) =~= bare_all(b).push(bare(cb)));
        assert(bare(ca) =~= bare(cb));
    }
}

/// That there is nothing to report between two values holds both ways.
pub proof fn law_equivalent_symmetric(g: JsonModel, d: JsonModel)
    requires
        json::well_formed(g),
        json::well_formed(d),
        equivalent(g, d),
    ensures
        equivalent(d, g),
    decreases g,
{
    if json::json_equal(g, d) {
        json::law_equal_symmetric(g, d);
    } else {
        match (g, d) {
            (JsonModel::Array(x), JsonModel::Array(y)) => {
                assert(g->Array_0 == x && d->Array_0 == y);
                assert forall|i: int| 0 <= i < y.len() implies equivalent(
                    #[trigger] y[i],
                    x[i],
                ) by {
                    assert(equivalent(x[i], y[i]));
                    law_equivalent_symmetric(x[i], y[i]);
                }
            },
            (JsonModel::Object(x), JsonModel::Object(y)) => {
                assert(g->Object_0 == x && d->Object_0 == y);
                assert forall|j: int| 0 <= j < y.len() implies {
                    &&& pairs::lookup(x, (#[trigger] y[j]).0) is Some
                    &&& equivalent(y[j].1, pairs::lookup(x, y[j].0)->0)
                } by {
                    let i = pairs::lemma_lookup(x, y[j].0);
                    assert(x[i].0 == y[j].0);
                    pairs::lemma_lookup_distinct(y, j);
                    assert(equivalent(x[i].1, y[j].1));
                    assert(json::well_formed(x[i].1) && json::well_formed(y[j].1));
                    law_equivalent_symmetric(x[i].1, y[j].1);
                }
            },
            _ => {},
        }
    }
}

proof fn lemma_unchanged_symmetric(g: JsonModel, d: JsonModel)
    requires
        json::well_formed(g),
        json::well_formed(d),
        unchanged(g, d),
    ensures
        unchanged(d, g),
{
    assert(equivalent(g, d));
    if json::json_equal(g, d) {
        json::law_equal_symmetric(g, d);
    } else {
        match (g, d) {
            (JsonModel::Array(x), JsonModel::Array(y)) => {
                assert(g->Array_0 == x && d->Array_0 == y);
                assert forall|i: int| 0 <= i < y.len() implies equivalent(
                    #[trigger] y[i],
                    x[i],
                ) by {
                    assert(equivalent(x[i], y[i]));
                    law_equivalent_symmetric(x[i], y[i]);
                }
            },
            _ => {},
        }
    }
}

/// A change seen from the other side: what was added is removed, what was removed
/// is added, and the two values change places. The line that shows it is left
/// out.
pub open spec fn mirrored(c: ChangeModel) -> ChangeModel {
    ChangeModel {
        path: c.path,
        change_type: match c.change_type {
            KeyChangeType::Added => KeyChangeType::Removed,
            KeyChangeType::Removed => KeyChangeType::Added,
            KeyChangeType::Modified => KeyChangeType::Modified,
        },
        repo_value: c.deployed_value,
        deployed_value: c.repo_value,
        display: seq![],
    }
}

/// Among the changes is one that is this one but for the line that shows it.
pub open spec fn reports(changes: Seq<ChangeModel>, c: ChangeModel) -> bool {
    exists|i: int| 0 <= i < changes.len() && bare(#[trigger] changes[i]) == bare(c)
}

/// Each of the changes is, seen from the other side, among others.
pub open spec fn all_mirrored(a: Seq<ChangeModel>, b: Seq<ChangeModel>) -> bool {
    forall|i: int| 0 <= i < a.len() ==> reports(b, mirrored(#[trigger] a[i]))
}

proof fn lemma_reports_concat(a: Seq<ChangeModel>, b: Seq<ChangeModel>, c: ChangeModel)
    requires
        reports(a, c) || reports(b, c),
    ensures
        reports(a + b, c),
{
    if reports(a, c) {
        let i = choose|i: int| 0 <= i < a.len() && bare(#[trigger] a[i]) == bare(c);
        assert((a + b)[i] == a[i]);
    } else {
        let i = choose|i: int| 0 <= i < b.len() && bare(#[trigger] b[i]) == bare(c);
        assert((a + b)[a.len() + i] == b[i]);
    }
}

proof fn lemma_reports_repo(
    x: json::EntriesModel,
    y: json::EntriesModel,
    path: Seq<char>,
    n: nat,
    at: int,
    c: ChangeModel,
)
    requires
        0 <= at < n <= x.len(),
        match pairs::lookup(y, x[at].0) {
            Some(v) => reports(key_changes(x[at].1, v, key_path(path, x[at].0), false), c),
            None => bare(c) == bare(added_change(key_path(path, x[at].0), x[at].1, false)),
        },
    ensures
        reports(repo_changes(x, y, path, false, n), c),
    decreases n,
{
    let before = repo_changes(x, y, path, false, (n - 1) as nat);
    let entry = x[n - 1];
    let here = match pairs::lookup(y, entry.0) {
        Some(v) => key_changes(entry.1, v, key_path(path, entry.0), false),
        None => seq![added_change(key_path(path, entry.0), entry.1, false)],
    };
    if at < n - 1 {
        lemma_reports_repo(x, y, path, (n - 1) as nat, at, c);
    } else if pairs::lookup(y, entry.0) is None {
        assert(bare(here[0]) == bare(c));
    }
    lemma_reports_concat(before, here, c);
}

proof fn lemma_reports_removed(
    x: json::EntriesModel,
    y: json::EntriesModel,
    path: Seq<char>,
    n: nat,
    at: int,
    c: ChangeModel,
)
    requires
        0 <= at < n <= y.len(),
        pairs::lookup(x, y[at].0) is None,
        bare(c) == bare(removed_change(key_path(path, y[at].0), y[at].1, false)),
    ensures
        reports(removed_changes(x, y, path, false, n), c),
    decreases n,
{
    let before = removed_changes(x, y, path, false, (n - 1) as nat);
    let now = removed_changes(x, y, path, false, n);
    if at < n - 1 {
        lemma_reports_removed(x, y, path, (n - 1) as nat, at, c);
        let i = choose|i: int| 0 <= i < before.len() && bare(#[trigger] before[i]) == bare(c);
        assert(now[i] == before[i]);
    } else {
        assert(bare(now[now.len() - 1]) == bare(c));
    }
}

/// Comparing the other way round reports the same, seen from the other side: added
/// and removed keys change places, and so do the values.
pub proof fn law_sides_swapped(g: JsonModel, d: JsonModel, path: Seq<char>)
    requires
        json::well_formed(g),
        json::well_formed(d),
    ensures
        all_mirrored(key_changes(g, d, path, false), key_changes(d, g, path, false)),
    decreases g, 1nat,
{
    if !unchanged(g, d) {
        if unchanged(d, g) {
            lemma_unchanged_symmetric(d, g);
        }
        let b = key_changes(d, g, path, false);
        match (g, d) {
            (JsonModel::Object(x), JsonModel::Object(y)) => {
                assert(g->Object_0 == x && d->Object_0 == y);
                let first = repo_changes(y, x, path, false, y.len());
                let second = removed_changes(y, x, path, false, x.len());
                assert(b == first + second);
                lemma_repo_swapped(x, y, path, x.len());
                lemma_removed_swapped(x, y, path, y.len());
            },
            _ => {
                let c = mirrored(modified_change(path, g, d, false));
                assert(b == seq![modified_change(path, d, g, false)]);
                assert(bare(b[0]) == bare(c));
            },
        }
    }
}

proof fn lemma_repo_swapped(
    x: json::EntriesModel,
    y: json::EntriesModel,
    path: Seq<char>,
    n: nat,
)
    requires
        n <= x.len(),
        json::well_formed(JsonModel::Object(x)),
        json::well_formed(JsonModel::Object(y)),
    ensures
        all_mirrored(
            repo_changes(x, y, path, false, n),
            repo_changes(y, x, path, false, y.len()) + removed_changes(
                y,
                x,
                path,
                false,
                x.len(),
            ),
        ),
    decreases x, n,
{
    assert(JsonModel::Object(x)->Object_0 == x);
    assert(JsonModel::Object(y)->Object_0 == y);
    if n > 0 {
        lemma_repo_swapped(x, y, path, (n - 1) as nat);
        let first = repo_changes(y, x, path, false, y.len());
        let second = removed_changes(y, x, path, false, x.len());
        let before = repo_changes(x, y, path, false, (n - 1) as nat);
        let now = repo_changes(x, y, path, false, n);
        let entry = x[n - 1];
        let at = key_path(path, entry.0);
        pairs::lemma_lookup_distinct(x, n - 1);
        assert(json::well_formed(entry.1));
        let found = pairs::lemma_lookup(y, entry.0);
        if pairs::lookup(y, entry.0) is Some {
            assert(json::well_formed(y[found].1));
            law_sides_swapped(entry.1, y[found].1, at);
        }
        assert forall|i: int| 0 <= i < now.len() implies reports(
            first + second,
            mirrored(#[trigger] now[i]),
        ) by {
            if i < before.len() {
                assert(now[i] == before[i]);
            } else {
                let c = mirrored(now[i]);
                match pairs::lookup(y, entry.0) {
                    Some(v) => {
                        let inner = key_changes(entry.1, v, at, false);
                        assert(now[i] == inner[i - before.len()]);
                        assert(reports(key_changes(v, entry.1, at, false), c));
                        lemma_reports_repo(y, x, path, y.len(), found, c);
                    },
                    None => {
                        assert(now[i] == added_change(at, entry.1, false));
                        lemma_reports_removed(y, x, path, x.len(), n - 1, c);
                    },
                }
                lemma_reports_concat(first, second, c);
            }
        }
    }
}

proof fn lemma_removed_swapped(
    x: json::EntriesModel,
    y: json::EntriesModel,
    path: Seq<char>,
    n: nat,
)
    requires
        n <= y.len(),
    ensures
        all_mirrored(
            removed_changes(x, y, path, false, n),
            repo_changes(y, x, path, false, y.len()) + removed_changes(
                y,
                x,
                path,
                false,
                x.len(),
            ),
        ),
    decreases n,
{
    if n > 0 {
        lemma_removed_swapped(x, y, path, (n - 1) as nat);
        let first = repo_changes(y, x, path, false, y.len());
        let second = removed_changes(y, x, path, false, x.len());
        let before = removed_changes(x, y, path, false, (n - 1) as nat);
        let now = removed_changes(x, y, path, false, n);
        let entry = y[n - 1];
        assert forall|i: int| 0 <= i < now.len() implies reports(
            first + second,
            mirrored(#[trigger] now[i]),
        ) by {
            if i < before.len() {
                assert(now[i] == before[i]);
            } else {
                let c = mirrored(now[i]);
                lemma_reports_repo(y, x, path, y.len(), n - 1, c);
                lemma_reports_concat(first, second, c);
            }
        }
    }
}

/// The path of a chain of keys, one below the other, that starts below a path.
pub open spec fn chain_path(path: Seq<char>, keys: Seq<Seq<char>>) -> Seq<char>
    decreases keys.len(),
{
    if keys.len() == 0 {
        path
    } else {
        chain_path(key_path(path, keys[0]), keys.skip(1))
    }
}

/// What a value holds under a chain of keys.
pub open spec fn chain_value(v: JsonModel, keys: Seq<Seq<char>>) -> Option<JsonModel>
    decreases keys.len(),
{
    if keys.len() == 0 {
        Some(v)
    } else {
        match v {
            JsonModel::Object(e) => match pairs::lookup(e, keys[0]) {
                Some(x) => chain_value(x, keys.skip(1)),
                None => None,
            },
            _ => None,
        }
    }
}

/// Both values hold an object at every key of a chain but the last, so that the
/// last key is looked up in an object on either side.
pub open spec fn chain_shared(g: JsonModel, d: JsonModel, keys: Seq<Seq<char>>) -> bool
    decreases keys.len(),
{
    keys.len() == 0 || match (g, d) {
        (JsonModel::Object(x), JsonModel::Object(y)) => keys.len() == 1 || match (
            pairs::lookup(x, keys[0]),
            pairs::lookup(y, keys[0]),
        ) {
            (Some(a), Some(b)) => chain_shared(a, b, keys.skip(1)),
            _ => false,
        },
        _ => false,
    }
}

/// A change is that of what two values at a path hold under a chain of keys, of
/// which not both are objects.
pub open spec fn change_at(
    c: ChangeModel,
    g: JsonModel,
    d: JsonModel,
    path: Seq<char>,
    keys: Seq<Seq<char>>,
) -> bool {
    &&& c.path == chain_path(path, keys)
    &&& c.repo_value == chain_value(g, keys)
    &&& c.deployed_value == chain_value(d, keys)
    &&& chain_shared(g, d, keys)
    &&& !(c.repo_value matches Some(JsonModel::Object(_)) && c.deployed_value matches Some(
        JsonModel::Object(_),
    ))
}

/// A change is that of what two values hold under some chain of keys.
pub open spec fn change_found(c: ChangeModel, g: JsonModel, d: JsonModel, path: Seq<char>) -> bool {
    exists|keys: Seq<Seq<char>>| #[trigger] change_at(c, g, d, path, keys)
}

/// Each change is that of what the two values hold under some chain of keys.
pub open spec fn changes_found(
    changes: Seq<ChangeModel>,
    g: JsonModel,
    d: JsonModel,
    path: Seq<char>,
) -> bool {
    forall|i: int| 0 <= i < changes.len() ==> change_found(#[trigger] changes[i], g, d, path)
}

proof fn lemma_found_concat(
    a: Seq<ChangeModel>,
    b: Seq<ChangeModel>,
    g: JsonModel,
    d: JsonModel,
    path: Seq<char>,
)
    requires
        changes_found(a, g, d, path),
        changes_found(b, g, d, path),
    ensures
        changes_found(a + b, g, d, path),
{
}

proof fn lemma_found_below(
    changes: Seq<ChangeModel>,
    x: json::EntriesModel,
    y: json::EntriesModel,
    path: Seq<char>,
    key: Seq<char>,
)
    requires
        pairs::lookup(x, key) is Some,
        pairs::lookup(y, key) is Some,
        changes_found(
            changes,
            pairs::lookup(x, key)->0,
            pairs::lookup(y, key)->0,
            key_path(path, key),
        ),
    ensures
        changes_found(changes, JsonModel::Object(x), JsonModel::Object(y), path),
{
    let g = pairs::lookup(x, key)->0;
    let d = pairs::lookup(y, key)->0;
    assert forall|i: int| 0 <= i < changes.len() implies change_found(
        #[trigger] changes[i],
        JsonModel::Object(x),
        JsonModel::Object(y),
        path,
    ) by {
        let c = changes[i];
        assert(change_found(c, g, d, key_path(path, key)));
        let keys = choose|keys: Seq<Seq<char>>| #[trigger]
            change_at(c, g, d, key_path(path, key), keys);
        let longer = seq![key] + keys;
        assert(longer.skip(1) =~= keys);
        assert(change_at(c, JsonModel::Object(x), JsonModel::Object(y), path, longer));
    }
}

proof fn lemma_found_one(
    c: ChangeModel,
    x: json::EntriesModel,
    y: json::EntriesModel,
    path: Seq<char>,
    key: Seq<char>,
)
    requires
        c.path == key_path(path, key),
        c.repo_value == pairs::lookup(x, key),
        c.deployed_value == pairs::lookup(y, key),
        c.repo_value is None || c.deployed_value is None,
    ensures
        changes_found(seq![c], JsonModel::Object(x), JsonModel::Object(y), path),
{
    reveal_with_fuel(chain_path, 2);
    reveal_with_fuel(chain_value, 2);
    let keys = seq![key];
    assert(keys.skip(1).len() == 0);
    assert(change_at(c, JsonModel::Object(x), JsonModel::Object(y), path, keys));
    assert(change_found(c, JsonModel::Object(x), JsonModel::Object(y), path));
}

/// A change tells the truth: the values that it holds are those that the two sides
/// have under the keys of its path, and its path is that of the keys.
pub proof fn law_changes_found(g: JsonModel, d: JsonModel, path: Seq<char>, styled: bool)
    requires
        json::well_formed(g),
        json::well_formed(d),
    ensures
        changes_found(key_changes(g, d, path, styled), g, d, path),
    decreases g, 1nat,
{
    if !unchanged(g, d) {
        match (g, d) {
            (JsonModel::Object(x), JsonModel::Object(y)) => {
                assert(g->Object_0 == x && d->Object_0 == y);
                lemma_repo_found(x, y, path, styled, x.len());
                lemma_removed_found(x, y, path, styled, y.len());
                lemma_found_concat(
                    repo_changes(x, y, path, styled, x.len()),
                    removed_changes(x, y, path, styled, y.len()),
                    g,
                    d,
                    path,
                );
            },
            _ => {
                let c = modified_change(path, g, d, styled);
                assert(change_at(c, g, d, path, Seq::<Seq<char>>::empty()));
                assert(change_found(c, g, d, path));
            },
        }
    }
}

proof fn lemma_repo_found(
    x: json::EntriesModel,
    y: json::EntriesModel,
    path: Seq<char>,
    styled: bool,
    n: nat,
)
    requires
        n <= x.len(),
        json::well_formed(JsonModel::Object(x)),
        json::well_formed(JsonModel::Object(y)),
    ensures
        changes_found(
            repo_changes(x, y, path, styled, n),
            JsonModel::Object(x),
            JsonModel::Object(y),
            path,
        ),
    decreases x, n,
{
    let g = JsonModel::Object(x);
    let d = JsonModel::Object(y);
    assert(g->Object_0 == x && d->Object_0 == y);
    if n > 0 {
        lemma_repo_found(x, y, path, styled, (n - 1) as nat);
        let before = repo_changes(x, y, path, styled, (n - 1) as nat);
        let entry = x[n - 1];
        let at = key_path(path, entry.0);
        pairs::lemma_lookup_distinct(x, n - 1);
        match pairs::lookup(y, entry.0) {
            Some(v) => {
                let found = pairs::lemma_lookup(y, entry.0);
                assert(json::well_formed(y[found].1));
                assert(json::well_formed(entry.1));
                law_changes_found(entry.1, v, at, styled);
                lemma_found_below(key_changes(entry.1, v, at, styled), x, y, path, entry.0);
                lemma_found_concat(before, key_changes(entry.1, v, at, styled), g, d, path);
            },
            None => {
                let c = added_change(at, entry.1, styled);
                lemma_found_one(c, x, y, path, entry.0);
                lemma_found_concat(before, seq![c], g, d, path);
            },
        }
    }
}

proof fn lemma_removed_found(
    x: json::EntriesModel,
    y: json::EntriesModel,
    path: Seq<char>,
    styled: bool,
    n: nat,
)
    requires
        n <= y.len(),
        json::well_formed(JsonModel::Object(y)),
    ensures
        changes_found(
            removed_changes(x, y, path, styled, n),
            JsonModel::Object(x),
            JsonModel::Object(y),
            path,
        ),
    decreases n,
{
    assert(JsonModel::Object(y)->Object_0 == y);
    if n > 0 {
        lemma_removed_found(x, y, path, styled, (n - 1) as nat);
        let before = removed_changes(x, y, path, styled, (n - 1) as nat);
        let entry = y[n - 1];
        pairs::lemma_lookup_distinct(y, n - 1);
        if pairs::lookup(x, entry.0) is None {
            let c = removed_change(key_path(path, entry.0), entry.1, styled);
            lemma_found_one(c, x, y, path, entry.0);
            lemma_found_concat(before, seq![c], JsonModel::Object(x), JsonModel::Object(y), path);
            assert(before.push(c) =~= before + seq![c]);
        }
    }
}

/// No object in a value at a path, at any depth, has an ignored key.
pub open spec fn lacks(v: JsonModel, ignored: Seq<Seq<char>>, path: Seq<char>) -> bool
    decreases v,
{
    match v {
        JsonModel::Array(items) => forall|i: int|
            0 <= i < items.len() ==> lacks(#[trigger] items[i], ignored, path),
        JsonModel::Object(entries) => forall|i: int|
            0 <= i < entries.len() ==> {
                &&& !is_ignored(ignored, path, (#[trigger] entries[i]).0)
                &&& lacks(entries[i].1, ignored, key_path(path, entries[i].0))
            },
        _ => true,
    }
}

/// What is compared has no ignored key at any depth, and its keys are distinct
/// where those of the whole value are.
pub proof fn law_ignored_absent(v: JsonModel, ignored: Seq<Seq<char>>, path: Seq<char>)
    ensures
        lacks(filtered(v, ignored, path), ignored, path),
        json::well_formed(filtered(v, ignored, path)),
    decreases v, 1nat,
{
    match v {
        JsonModel::Object(entries) => {
            assert(v->Object_0 == entries);
            lemma_filtered_entries(entries, ignored, path, entries.len());
            let kept = filtered_entries(entries, ignored, path, entries.len());
            assert(JsonModel::Object(kept)->Object_0 == kept);
        },
        JsonModel::Array(items) => {
            assert(v->Array_0 == items);
            let kept = filtered(v, ignored, path)->Array_0;
            assert forall|i: int| 0 <= i < kept.len() implies lacks(
                #[trigger] kept[i],
                ignored,
                path,
            ) && json::well_formed(kept[i]) by {
                law_ignored_absent(items[i], ignored, path);
            }
        },
        _ => {},
    }
}

proof fn lemma_filtered_entries(
    entries: json::EntriesModel,
    ignored: Seq<Seq<char>>,
    path: Seq<char>,
    n: nat,
)
    requires
        n <= entries.len(),
    ensures
        lacks(JsonModel::Object(filtered_entries(entries, ignored, path, n)), ignored, path),
        json::well_formed(JsonModel::Object(filtered_entries(entries, ignored, path, n))),
    decreases entries, n,
{
    let kept = filtered_entries(entries, ignored, path, n);
    assert(JsonModel::Object(kept)->Object_0 == kept);
    if n > 0 {
        lemma_filtered_entries(entries, ignored, path, (n - 1) as nat);
        let before = filtered_entries(entries, ignored, path, (n - 1) as nat);
        assert(JsonModel::Object(before)->Object_0 == before);
        let entry = entries[n - 1];
        if !is_ignored(ignored, path, entry.0) {
            law_ignored_absent(entry.1, ignored, key_path(path, entry.0));
            let value = filtered(entry.1, ignored, key_path(path, entry.0));
            json::lemma_put_well_formed(before, entry.0, value);
            pairs::lemma_put_distinct(before, entry.0, value);
            if pairs::lookup(before, entry.0) is None {
                pairs::lemma_put_new(before, entry.0, value);
            } else {
                let at = pairs::lemma_lookup(before, entry.0);
                pairs::lemma_put_at(before, entry.0, value, at);
            }
            assert forall|i: int| 0 <= i < kept.len() implies {
                &&& !is_ignored(ignored, path, (#[trigger] kept[i]).0)
                &&& lacks(kept[i].1, ignored, key_path(path, kept[i].0))
            } by {
                if i < before.len() {
                    assert(!is_ignored(ignored, path, before[i].0));
                }
            }
        }
    }
}

/// None of the keys of a chain below a path is ignored.
pub open spec fn chain_kept(
    ignored: Seq<Seq<char>>,
    path: Seq<char>,
    keys: Seq<Seq<char>>,
) -> bool
    decreases keys.len(),
{
    keys.len() == 0 || {
        &&& !is_ignored(ignored, path, keys[0])
        &&& chain_kept(ignored, key_path(path, keys[0]), keys.skip(1))
    }
}

/// A path below another is that of a chain of keys none of which is ignored.
pub open spec fn path_kept(ignored: Seq<Seq<char>>, path: Seq<char>, at: Seq<char>) -> bool {
    exists|keys: Seq<Seq<char>>| #[trigger]
        chain_kept(ignored, path, keys) && at == chain_path(path, keys)
}

/// Each of the changes is at a path of keys none of which is ignored.
pub open spec fn changes_kept(
    changes: Seq<ChangeModel>,
    ignored: Seq<Seq<char>>,
    path: Seq<char>,
) -> bool {
    forall|i: int| 0 <= i < changes.len() ==> path_kept(ignored, path, (#[trigger] changes[i]).path)
}

proof fn lemma_kept_below(
    changes: Seq<ChangeModel>,
    ignored: Seq<Seq<char>>,
    path: Seq<char>,
    key: Seq<char>,
)
    requires
        !is_ignored(ignored, path, key),
        changes_kept(changes, ignored, key_path(path, key)),
    ensures
        changes_kept(changes, ignored, path),
{
    assert forall|i: int| 0 <= i < changes.len() implies path_kept(
        ignored,
        path,
        (#[trigger] changes[i]).path,
    ) by {
        let at = changes[i].path;
        assert(path_kept(ignored, key_path(path, key), at));
        let keys = choose|keys: Seq<Seq<char>>| #[trigger]
            chain_kept(ignored, key_path(path, key), keys) && at == chain_path(
                key_path(path, key),
                keys,
            );
        let longer = seq![key] + keys;
        assert(longer.skip(1) =~= keys);
        assert(chain_kept(ignored, path, longer));
    }
}

proof fn lemma_kept_here(ignored: Seq<Seq<char>>, path: Seq<char>)
    ensures
        path_kept(ignored, path, path),
{
    let none = Seq::<Seq<char>>::empty();
    assert(chain_kept(ignored, path, none));
}

proof fn lemma_kept_concat(
    a: Seq<ChangeModel>,
    b: Seq<ChangeModel>,
    ignored: Seq<Seq<char>>,
    path: Seq<char>,
)
    requires
        changes_kept(a, ignored, path),
        changes_kept(b, ignored, path),
    ensures
        changes_kept(a + b, ignored, path),
{
}

/// No ignored key is reported: where neither value has an ignored key, each change
/// is at a path of keys none of which is ignored.
pub proof fn law_changes_kept(
    g: JsonModel,
    d: JsonModel,
    ignored: Seq<Seq<char>>,
    path: Seq<char>,
    styled: bool,
)
    requires
        lacks(g, ignored, path),
        lacks(d, ignored, path),
    ensures
        changes_kept(key_changes(g, d, path, styled), ignored, path),
    decreases g, 1nat,
{
    lemma_kept_here(ignored, path);
    if !unchanged(g, d) {
        match (g, d) {
            (JsonModel::Object(x), JsonModel::Object(y)) => {
                assert(g->Object_0 == x && d->Object_0 == y);
                lemma_repo_kept(x, y, ignored, path, styled, x.len());
                lemma_removed_kept(x, y, ignored, path, styled, y.len());
                lemma_kept_concat(
                    repo_changes(x, y, path, styled, x.len()),
                    removed_changes(x, y, path, styled, y.len()),
                    ignored,
                    path,
                );
            },
            _ => {},
        }
    }
}

proof fn lemma_repo_kept(
    x: json::EntriesModel,
    y: json::EntriesModel,
    ignored: Seq<Seq<char>>,
    path: Seq<char>,
    styled: bool,
    n: nat,
)
    requires
        n <= x.len(),
        lacks(JsonModel::Object(x), ignored, path),
        lacks(JsonModel::Object(y), ignored, path),
    ensures
        changes_kept(repo_changes(x, y, path, styled, n), ignored, path),
    decreases x, n,
{
    assert(JsonModel::Object(x)->Object_0 == x);
    assert(JsonModel::Object(y)->Object_0 == y);
    if n > 0 {
        lemma_repo_kept(x, y, ignored, path, styled, (n - 1) as nat);
        let before = repo_changes(x, y, path, styled, (n - 1) as nat);
        let entry = x[n - 1];
        let at = key_path(path, entry.0);
        match pairs::lookup(y, entry.0) {
            Some(v) => {
                let found = pairs::lemma_lookup(y, entry.0);
                assert(lacks(y[found].1, ignored, key_path(path, y[found].0)));
                law_changes_kept(entry.1, v, ignored, at, styled);
                lemma_kept_below(key_changes(entry.1, v, at, styled), ignored, path, entry.0);
                lemma_kept_concat(before, key_changes(entry.1, v, at, styled), ignored, path);
            },
            None => {
                let here = seq![added_change(at, entry.1, styled)];
                lemma_kept_here(ignored, at);
                lemma_kept_below(here, ignored, path, entry.0);
                lemma_kept_concat(before, here, ignored, path);
            },
        }
    }
}

proof fn lemma_removed_kept(
    x: json::EntriesModel,
    y: json::EntriesModel,
    ignored: Seq<Seq<char>>,
    path: Seq<char>,
    styled: bool,
    n: nat,
)
    requires
        n <= y.len(),
        lacks(JsonModel::Object(y), ignored, path),
    ensures
        changes_kept(removed_changes(x, y, path, styled, n), ignored, path),
    decreases n,
{
    assert(JsonModel::Object(y)->Object_0 == y);
    if n > 0 {
        lemma_removed_kept(x, y, ignored, path, styled, (n - 1) as nat);
        let before = removed_changes(x, y, path, styled, (n - 1) as nat);
        let entry = y[n - 1];
        let at = key_path(path, entry.0);
        let here = seq![removed_change(at, entry.1, styled)];
        lemma_kept_here(ignored, at);
        lemma_kept_below(here, ignored, path, entry.0);
        lemma_kept_concat(before, here, ignored, path);
        assert(before.push(here[0]) =~= before + here);
    }
}

/// A key that can stand in a dotted path.
pub open spec fn plain_key(key: Seq<char>) -> bool {
    key.len() > 0 && forall|i: int| 0 <= i < key.len() ==> #[trigger] key[i] != '.'
}

/// All keys of an object, and of the objects under them, can stand in a dotted
/// path.
pub open spec fn plain_keys(v: JsonModel) -> bool
    decreases v,
{
    match v {
        JsonModel::Object(e) => forall|i: int|
            0 <= i < e.len() ==> plain_key((#[trigger] e[i]).0) && plain_keys(e[i].1),
        _ => true,
    }
}

/// The parts of a dotted path.
pub open spec fn components(path: Seq<char>) -> Seq<Seq<char>>
    decreases path.len(),
{
    let n = text::first_of(path, '.') as int;
    if n >= path.len() {
        seq![path]
    } else {
        seq![path.take(n)] + components(path.skip(n + 1))
    }
}

/// Each key of a chain can stand in a dotted path.
pub open spec fn plain_chain(keys: Seq<Seq<char>>) -> bool {
    forall|i: int| 0 <= i < keys.len() ==> plain_key(#[trigger] keys[i])
}

proof fn lemma_plain_rest(keys: Seq<Seq<char>>)
    requires
        plain_chain(keys),
        keys.len() > 0,
    ensures
        plain_key(keys[0]),
        plain_chain(keys.skip(1)),
{
    assert forall|i: int| 0 <= i < keys.skip(1).len() implies plain_key(
        #[trigger] keys.skip(1)[i],
    ) by {
        assert(keys.skip(1)[i] == keys[i + 1]);
    }
}

proof fn lemma_chain_below(path: Seq<char>, keys: Seq<Seq<char>>)
    requires
        path.len() > 0,
        keys.len() > 0,
        plain_chain(keys),
    ensures
        chain_path(path, keys) == path + "."@ + chain_path(seq![], keys),
    decreases keys.len(),
{
    reveal_with_fuel(chain_path, 2);
    lemma_plain_rest(keys);
    let rest = keys.skip(1);
    let none = Seq::<char>::empty();
    assert(key_path(none, keys[0]) == keys[0]);
    if rest.len() > 0 {
        lemma_chain_below(key_path(path, keys[0]), rest);
        lemma_chain_below(keys[0], rest);
        let tail = chain_path(none, rest);
        assert(path + "."@ + keys[0] + "."@ + tail =~= path + "."@ + (keys[0] + "."@ + tail));
    }
}

/// A chain of keys that can stand in dotted paths is the parts of its path.
pub proof fn lemma_chain_components(keys: Seq<Seq<char>>)
    requires
        keys.len() > 0,
        plain_chain(keys),
    ensures
        components(chain_path(seq![], keys)) == keys,
        chain_path(seq![], keys).len() > 0,
    decreases keys.len(),
{
    reveal_with_fuel(chain_path, 2);
    lemma_plain_rest(keys);
    reveal_strlit(".");
    let rest = keys.skip(1);
    let none = Seq::<char>::empty();
    let key = keys[0];
    let path = chain_path(none, keys);
    assert(key_path(none, key) == key);
    if rest.len() == 0 {
        assert(path == key);
        text::lemma_first_of(path, '.', path.len() as int);
        assert(keys =~= seq![key]);
    } else {
        lemma_chain_components(rest);
        lemma_chain_below(key, rest);
        let tail = chain_path(none, rest);
        assert(path == key + "."@ + tail);
        assert(path[key.len() as int] == '.');
        assert forall|i: int| 0 <= i < key.len() implies path[i] != '.' by {
            assert(path[i] == key[i]);
        }
        text::lemma_first_of(path, '.', key.len() as int);
        assert(path.take(key.len() as int) =~= key);
        assert(path.skip(key.len() as int + 1) =~= tail);
        assert(seq![key] + rest =~= keys);
    }
}

/// A chain under which a value holds something has the value's keys.
pub proof fn lemma_chain_plain(v: JsonModel, keys: Seq<Seq<char>>)
    requires
        chain_value(v, keys) is Some,
        plain_keys(v),
    ensures
        plain_chain(keys),
    decreases keys.len(),
{
    if keys.len() > 0 {
        let e = v->Object_0;
        let at = pairs::lemma_lookup(e, keys[0]);
        assert(plain_key(e[at].0));
        let rest = keys.skip(1);
        lemma_chain_plain(e[at].1, rest);
        assert forall|i: int| 0 <= i < keys.len() implies plain_key(#[trigger] keys[i]) by {
            if i > 0 {
                assert(keys[i] == rest[i - 1]);
            }
        }
    }
}

/// The path of a chain that is one key longer.
pub proof fn lemma_chain_push(path: Seq<char>, keys: Seq<Seq<char>>, key: Seq<char>)
    ensures
        chain_path(path, keys.push(key)) == key_path(chain_path(path, keys), key),
    decreases keys.len(),
{
    let longer = keys.push(key);
    if keys.len() == 0 {
        reveal_with_fuel(chain_path, 2);
        assert(longer.skip(1).len() == 0);
    } else {
        assert(longer.skip(1) =~= keys.skip(1).push(key));
        lemma_chain_push(key_path(path, keys[0]), keys.skip(1), key);
    }
}

/// At each key of a shared chain but the last, both values hold an object.
pub proof fn lemma_chain_objects(g: JsonModel, d: JsonModel, keys: Seq<Seq<char>>, m: int)
    requires
        chain_shared(g, d, keys),
        0 < m < keys.len(),
    ensures
        chain_value(g, keys.take(m)) matches Some(JsonModel::Object(_)),
        chain_value(d, keys.take(m)) matches Some(JsonModel::Object(_)),
    decreases keys.len(),
{
    let a = pairs::lookup(g->Object_0, keys[0])->0;
    let b = pairs::lookup(d->Object_0, keys[0])->0;
    let rest = keys.skip(1);
    let start = keys.take(m);
    assert(start.skip(1) =~= rest.take(m - 1));
    assert(chain_shared(a, b, rest));
    if m == 1 {
        assert(start.skip(1).len() == 0);
        assert(chain_value(g, start) == Some(a));
        assert(chain_value(d, start) == Some(b));
    } else {
        lemma_chain_objects(a, b, rest, m - 1);
    }
}

proof fn lemma_chain_in(
    v: JsonModel,
    ignored: Seq<Seq<char>>,
    path: Seq<char>,
    keys: Seq<Seq<char>>,
)
    requires
        chain_value(v, keys) is Some,
        plain_keys(v),
        lacks(v, ignored, path),
    ensures
        plain_chain(keys),
        forall|i: int| 0 <= i < keys.len() ==> !ignored.contains(#[trigger] keys[i]),
    decreases keys.len(),
{
    if keys.len() > 0 {
        let e = v->Object_0;
        let at = pairs::lemma_lookup(e, keys[0]);
        assert(plain_key(e[at].0));
        assert(!is_ignored(ignored, path, e[at].0));
        let rest = keys.skip(1);
        lemma_chain_in(e[at].1, ignored, key_path(path, keys[0]), rest);
        assert forall|i: int| 0 <= i < keys.len() implies plain_key(#[trigger] keys[i])
            && !ignored.contains(keys[i]) by {
            if i > 0 {
                assert(keys[i] == rest[i - 1]);
            }
        }
    }
}

/// No part of a reported path is an ignored key, where the keys can stand in
/// dotted paths and neither value has an ignored key.
pub proof fn law_components_kept(g: JsonModel, d: JsonModel, ignored: Seq<Seq<char>>, i: int)
    requires
        json::well_formed(g),
        json::well_formed(d),
        plain_keys(g),
        plain_keys(d),
        lacks(g, ignored, seq![]),
        lacks(d, ignored, seq![]),
        0 <= i < key_changes(g, d, seq![], false).len(),
    ensures
        key_changes(g, d, seq![], false)[i].path.len() > 0 ==> forall|k: int|
            0 <= k < components(key_changes(g, d, seq![], false)[i].path).len()
                ==> !ignored.contains(
                #[trigger] components(key_changes(g, d, seq![], false)[i].path)[k],
            ),
{
    let none = Seq::<char>::empty();
    let c = key_changes(g, d, none, false)[i];
    law_changes_found(g, d, none, false);
    law_change_sides(g, d, none, false);
    assert(sides_agree(c));
    assert(change_found(c, g, d, none));
    let keys = choose|keys: Seq<Seq<char>>| #[trigger] change_at(c, g, d, none, keys);
    if c.repo_value is Some {
        lemma_chain_in(g, ignored, none, keys);
    } else {
        lemma_chain_in(d, ignored, none, keys);
    }
    if keys.len() > 0 {
        lemma_chain_components(keys);
    }
}

/// Where nothing is ignored, all of a value whose keys are distinct is compared.
pub proof fn law_nothing_ignored(v: JsonModel, path: Seq<char>)
    requires
        json::well_formed(v),
    ensures
        filtered(v, seq![], path) == v,
    decreases v, 1nat,
{
    match v {
        JsonModel::Object(entries) => {
            assert(v->Object_0 == entries);
            lemma_nothing_ignored(entries, path, entries.len());
            assert(entries.take(entries.len() as int) =~= entries);
        },
        JsonModel::Array(items) => {
            assert(v->Array_0 == items);
            let kept = filtered(v, seq![], path)->Array_0;
            assert forall|i: int| 0 <= i < kept.len() implies #[trigger] kept[i] == items[i] by {
                law_nothing_ignored(items[i], path);
            }
            assert(kept =~= items);
        },
        _ => {},
    }
}

proof fn lemma_nothing_ignored(entries: json::EntriesModel, path: Seq<char>, n: nat)
    requires
        n <= entries.len(),
        json::well_formed(JsonModel::Object(entries)),
    ensures
        filtered_entries(entries, seq![], path, n) == entries.take(n as int),
    decreases entries, n,
{
    assert(JsonModel::Object(entries)->Object_0 == entries);
    if n > 0 {
        lemma_nothing_ignored(entries, path, (n - 1) as nat);
        let before = entries.take(n - 1);
        let entry = entries[n - 1];
        law_nothing_ignored(entry.1, key_path(path, entry.0));
        let at = pairs::lemma_lookup(before, entry.0);
        if pairs::lookup(before, entry.0) is Some {
            assert(before[at] == entries[at]);
            assert(entries[at].0 != entries[n - 1].0);
        }
        pairs::lemma_put_new(before, entry.0, entry.1);
        assert(!is_ignored(seq![], path, entry.0));
        assert(before.push(entry) =~= entries.take(n as int));
    } else {
        assert(entries.take(0) =~= seq![]);
    }
}

// ---------------------------------------------------------------------------
// Comparing texts
// ---------------------------------------------------------------------------

/// The changes between two texts in a format, ignored keys left out; none where
/// one of them cannot be read.
pub open spec fn text_key_changes(
    format: Format,
    generated: Seq<char>,
    deployed: Seq<char>,
    ignored: Seq<Seq<char>>,
    styled: bool,
) -> Seq<ChangeModel> {
    match (formats::parsed(format, generated), formats::parsed(format, deployed)) {
        (Some(g), Some(d)) => key_changes(
            filtered(g, ignored, seq![]),
            filtered(d, ignored, seq![]),
            seq![],
            styled,
        ),
        _ => seq![],
    }
}

/// The lines that show how two texts in a format differ: those of the changed
/// keys, or, where one of the texts cannot be read, those of the changed lines.
pub open spec fn semantic_lines(
    format: Format,
    generated: Seq<char>,
    deployed: Seq<char>,
    ignored: Seq<Seq<char>>,
    styled: bool,
) -> Seq<Seq<char>> {
    match (formats::parsed(format, generated), formats::parsed(format, deployed)) {
        (Some(g), Some(d)) => displays(
            text_key_changes(format, generated, deployed, ignored, styled),
        ),
        _ => diff::text::text_changes(generated, deployed, seq![], styled),
    }
}

/// Two texts show the same changes in colour as without, on as many lines.
pub proof fn law_text_styling(
    format: Format,
    generated: Seq<char>,
    deployed: Seq<char>,
    ignored: Seq<Seq<char>>,
)
    ensures
        bare_all(text_key_changes(format, generated, deployed, ignored, true)) == bare_all(
            text_key_changes(format, generated, deployed, ignored, false),
        ),
        semantic_lines(format, generated, deployed, ignored, true).len() == semantic_lines(
            format,
            generated,
            deployed,
            ignored,
            false,
        ).len(),
{
    match (formats::parsed(format, generated), formats::parsed(format, deployed)) {
        (Some(g), Some(d)) => {
            law_styling(filtered(g, ignored, seq![]), filtered(d, ignored, seq![]), seq![]);
        },
        _ => {
            diff::text::law_text_changes_styling(generated, deployed, seq![]);
        },
    }
}

/// A text shows no change against itself.
pub proof fn law_text_same(
    format: Format,
    content: Seq<char>,
    ignored: Seq<Seq<char>>,
    styled: bool,
)
    ensures
        text_key_changes(format, content, content, ignored, styled).len() == 0,
        semantic_lines(format, content, content, ignored, styled).len() == 0,
{
    match formats::parsed(format, content) {
        Some(v) => {
            law_ignored_absent(v, ignored, seq![]);
            law_identical(filtered(v, ignored, seq![]), seq![], styled);
        },
        None => {
            let lines = text::lines(content);
            let kept = diff::text::kept_lines(lines, seq![], lines.len());
            diff::text::law_line_changes(kept, kept, styled);
        },
    }
}

/// The changes of two texts are at paths of keys none of which is ignored. Where
/// both texts can be read, there is a change exactly where the difference shows a
/// line; where one cannot, there is none.
pub proof fn law_text_changes(
    format: Format,
    generated: Seq<char>,
    deployed: Seq<char>,
    ignored: Seq<Seq<char>>,
    styled: bool,
)
    ensures
        changes_kept(
            text_key_changes(format, generated, deployed, ignored, styled),
            ignored,
            seq![],
        ),
        formats::parsed(format, generated) is Some && formats::parsed(format, deployed) is Some
            ==> text_key_changes(format, generated, deployed, ignored, styled).len()
            == semantic_lines(format, generated, deployed, ignored, false).len(),
        formats::parsed(format, generated) is None || formats::parsed(format, deployed) is None
            ==> text_key_changes(format, generated, deployed, ignored, styled).len() == 0,
{
    law_text_styling(format, generated, deployed, ignored);
    match (formats::parsed(format, generated), formats::parsed(format, deployed)) {
        (Some(g), Some(d)) => {
            law_ignored_absent(g, ignored, seq![]);
            law_ignored_absent(d, ignored, seq![]);
            law_changes_kept(
                filtered(g, ignored, seq![]),
                filtered(d, ignored, seq![]),
                ignored,
                seq![],
                styled,
            );
            law_styling(filtered(g, ignored, seq![]), filtered(d, ignored, seq![]), seq![]);
        },
        _ => {},
    }
}

/// Texts that hold the same apart from ignored keys show no change, however they
/// are written.
pub proof fn law_formatting_ignored(
    format: Format,
    generated: Seq<char>,
    deployed: Seq<char>,
    ignored: Seq<Seq<char>>,
    styled: bool,
)
    requires
        formats::parsed(format, generated) is Some,
        formats::parsed(format, deployed) is Some,
        filtered(formats::parsed(format, generated)->0, ignored, seq![]) == filtered(
            formats::parsed(format, deployed)->0,
            ignored,
            seq![],
        ),
    ensures
        text_key_changes(format, generated, deployed, ignored, styled).len() == 0,
        semantic_lines(format, generated, deployed, ignored, styled).len() == 0,
{
    let v = formats::parsed(format, generated)->0;
    law_ignored_absent(v, ignored, seq![]);
    law_identical(filtered(v, ignored, seq![]), seq![], styled);
}

/// The changes between two values that have been read, ignored keys left out.
pub fn value_key_changes(
    generated: &Json,
    deployed: &Json,
    ignore_keys: &[String],
    styled: bool,
) -> (r: Vec<KeyChange>)
    ensures
        changes_model(r@) == key_changes(
            filtered(generated@, text::texts(ignore_keys@), seq![]),
            filtered(deployed@, text::texts(ignore_keys@), seq![]),
            seq![],
            styled,
        ),
{
    proof {
        reveal_strlit("");
        assert(""@ =~= Seq::<char>::empty());
    }
    let g = filter_keys(generated, ignore_keys);
    let d = filter_keys(deployed, ignore_keys);
    let mut changes: Vec<KeyChange> = Vec::new();
    assert(changes_model(changes@) =~= seq![]);
    collect_key_changes(&g, &d, "", styled, &mut changes);
    assert(changes_model(changes@) =~= key_changes(g@, d@, seq![], styled));
    changes
}

/// The changes between two texts, with the styling given.
pub fn semantic_diff_keys_styled(
    format: Format,
    generated: &str,
    deployed: &str,
    ignore_keys: &[String],
    styled: bool,
) -> (r: Vec<KeyChange>)
    ensures
        changes_model(r@) == text_key_changes(
            format,
            generated@,
            deployed@,
            text::texts(ignore_keys@),
            styled,
        ),
        generated@ == deployed@ ==> r@.len() == 0,
{
    proof {
        law_text_same(format, generated@, text::texts(ignore_keys@), styled);
    }
    let renderer = get_renderer(format);
    let none: Vec<KeyChange> = Vec::new();
    assert(changes_model(none@) =~= seq![]);
    match (renderer.parse(generated), renderer.parse(deployed)) {
        (Some(g), Some(d)) => {
            let r = value_key_changes(&g, &d, ignore_keys, styled);
            assert(changes_model(r@).len() == r@.len());
            r
        },
        _ => none,
    }
}

/// Computes the per-key difference between two structured configs.
pub fn semantic_diff_keys(
    format: Format,
    generated: &str,
    deployed: &str,
    ignore_keys: &[String],
) -> (r: Vec<KeyChange>)
    ensures
        exists|styled: bool|
            changes_model(r@) == #[trigger] text_key_changes(
                format,
                generated@,
                deployed@,
                text::texts(ignore_keys@),
                styled,
            ),
        bare_all(changes_model(r@)) == bare_all(
            text_key_changes(format, generated@, deployed@, text::texts(ignore_keys@), false),
        ),
        changes_kept(changes_model(r@), text::texts(ignore_keys@), seq![]),
        formats::parsed(format, generated@) is Some && formats::parsed(format, deployed@) is Some
            ==> r@.len() == semantic_lines(
            format,
            generated@,
            deployed@,
            text::texts(ignore_keys@),
            false,
        ).len(),
        formats::parsed(format, generated@) is None || formats::parsed(format, deployed@) is None
            ==> r@.len() == 0,
        generated@ == deployed@ ==> r@.len() == 0,
{
    proof {
        law_text_styling(format, generated@, deployed@, text::texts(ignore_keys@));
    }
    let styled = output::colors_enabled();
    proof {
        law_text_changes(format, generated@, deployed@, text::texts(ignore_keys@), styled);
    }
    let r = semantic_diff_keys_styled(format, generated, deployed, ignore_keys, styled);
    assert(changes_model(r@).len() == r@.len());
    r
}

/// The outcome of comparing two values that have been read.
pub fn value_diff(
    generated: &Json,
    deployed: &Json,
    ignore_keys: &[String],
    styled: bool,
) -> (r: DiffResult)
    ensures
        r@ == diff::outcome(
            displays(
                key_changes(
                    filtered(generated@, text::texts(ignore_keys@), seq![]),
                    filtered(deployed@, text::texts(ignore_keys@), seq![]),
                    seq![],
                    styled,
                ),
            ),
        ),
{
    proof {
        reveal_strlit("");
        assert(""@ =~= Seq::<char>::empty());
    }
    let g = filter_keys(generated, ignore_keys);
    let d = filter_keys(deployed, ignore_keys);
    let mut lines: Vec<String> = Vec::new();
    assert(text::texts(lines@) =~= seq![]);
    let has_changes = diff_values(&g, &d, "", styled, &mut lines);
    assert(text::texts(lines@) =~= displays(key_changes(g@, d@, seq![], styled)));
    if has_changes {
        DiffResult::with_changes(text::join(&lines, "\n"))
    } else {
        DiffResult::no_changes()
    }
}

/// The outcome of comparing two texts, with the styling given.
pub fn semantic_diff_styled(
    format: Format,
    generated: &str,
    deployed: &str,
    ignore_keys: &[String],
    styled: bool,
) -> (r: DiffResult)
    ensures
        r@ == diff::outcome(
            semantic_lines(format, generated@, deployed@, text::texts(ignore_keys@), styled),
        ),
        generated@ == deployed@ ==> !r.has_changes,
{
    proof {
        law_text_same(format, generated@, text::texts(ignore_keys@), styled);
    }
    let renderer = get_renderer(format);
    match (renderer.parse(generated), renderer.parse(deployed)) {
        (Some(g), Some(d)) => value_diff(&g, &d, ignore_keys, styled),
        _ => {
            let none: Vec<String> = Vec::new();
            assert(text::texts(none@) =~= seq![]);
            diff::text::text_diff_styled(generated, deployed, &none, styled)
        },
    }
}

/// Performs a semantic diff on structured configs.
pub fn semantic_diff(
    format: Format,
    generated: &str,
    deployed: &str,
    ignore_keys: &[String],
) -> (r: DiffResult)
    ensures
        exists|styled: bool|
            r@ == diff::outcome(
                #[trigger] semantic_lines(
                    format,
                    generated@,
                    deployed@,
                    text::texts(ignore_keys@),
                    styled,
                ),
            ),
        r.has_changes == (semantic_lines(
            format,
            generated@,
            deployed@,
            text::texts(ignore_keys@),
            false,
        ).len() > 0),
        generated@ == deployed@ ==> !r.has_changes,
{
    proof {
        law_text_styling(format, generated@, deployed@, text::texts(ignore_keys@));
    }
    semantic_diff_styled(format, generated, deployed, ignore_keys, output::colors_enabled())
}

// ---------------------------------------------------------------------------
// Laws of the lines
// ---------------------------------------------------------------------------

/// The sign of a kind of change.
pub open spec fn sign_of(t: KeyChangeType) -> Seq<char> {
    match t {
        KeyChangeType::Added => "+"@,
        KeyChangeType::Removed => "-"@,
        KeyChangeType::Modified => "~"@,
    }
}

/// The line that shows a change without colours starts with the sign of its kind
/// and its path, and ends with the value that a push would leave, or with the one
/// that a push would remove.
pub open spec fn line_agrees(c: ChangeModel) -> bool {
    &&& text::begins(c.display, sign_of(c.change_type) + " "@ + c.path + " = "@)
    &&& match (c.repo_value, c.deployed_value) {
        (Some(v), _) => text::ends(c.display, shown(v)),
        (None, Some(v)) => text::ends(c.display, shown(v)),
        (None, None) => false,
    }
}

/// Each of the changes is shown by such a line.
pub open spec fn all_lines_agree(changes: Seq<ChangeModel>) -> bool {
    forall|i: int| 0 <= i < changes.len() ==> line_agrees(#[trigger] changes[i])
}

proof fn lemma_agree_concat(a: Seq<ChangeModel>, b: Seq<ChangeModel>)
    requires
        all_lines_agree(a),
        all_lines_agree(b),
    ensures
        all_lines_agree(a + b),
{
}

proof fn lemma_sign_line(sign: Seq<char>, path: Seq<char>, before: Seq<char>, value: Seq<char>)
    ensures
        text::begins(sign + " "@ + path + " = "@ + (before + value), sign + " "@ + path + " = "@),
        text::ends(sign + " "@ + path + " = "@ + (before + value), value),
{
    let head = sign + " "@ + path + " = "@;
    let line = head + (before + value);
    assert(line.take(head.len() as int) =~= head);
    assert(line.skip(line.len() - value.len()) =~= value);
}

proof fn lemma_lines_of_kinds(path: Seq<char>, g: JsonModel, d: JsonModel)
    ensures
        line_agrees(added_change(path, g, false)),
        line_agrees(removed_change(path, d, false)),
        line_agrees(modified_change(path, g, d, false)),
{
    let none = Seq::<char>::empty();
    lemma_sign_line("+"@, path, none, shown(g));
    assert(added_change(path, g, false).display =~= "+"@ + " "@ + path + " = "@ + (none + shown(
        g,
    )));
    lemma_sign_line("-"@, path, none, shown(d));
    assert(removed_change(path, d, false).display =~= "-"@ + " "@ + path + " = "@ + (none + shown(
        d,
    )));
    let line = modified_change(path, g, d, false).display;
    let arrow = shown(d) + " -> "@;
    let spaced = shown(d) + " "@ + "->"@ + " "@;
    lemma_sign_line("~"@, path, arrow, shown(g));
    lemma_sign_line("~"@, path, spaced, shown(g));
    if g is Array && d is Array {
        assert(line =~= "~"@ + " "@ + path + " = "@ + (arrow + shown(g)));
    } else {
        assert(line =~= "~"@ + " "@ + path + " = "@ + (spaced + shown(g)));
    }
}

/// Every change is shown by a line with its sign, its path and its value.
pub proof fn law_change_lines(g: JsonModel, d: JsonModel, path: Seq<char>)
    ensures
        all_lines_agree(key_changes(g, d, path, false)),
    decreases g, 1nat,
{
    if !unchanged(g, d) {
        match (g, d) {
            (JsonModel::Object(x), JsonModel::Object(y)) => {
                assert(g->Object_0 == x && d->Object_0 == y);
                lemma_repo_lines(x, y, path, x.len());
                lemma_removed_lines(x, y, path, y.len());
                lemma_agree_concat(
                    repo_changes(x, y, path, false, x.len()),
                    removed_changes(x, y, path, false, y.len()),
                );
            },
            _ => {
                lemma_lines_of_kinds(path, g, d);
            },
        }
    }
}

proof fn lemma_repo_lines(
    x: json::EntriesModel,
    y: json::EntriesModel,
    path: Seq<char>,
    n: nat,
)
    requires
        n <= x.len(),
    ensures
        all_lines_agree(repo_changes(x, y, path, false, n)),
    decreases x, n,
{
    if n > 0 {
        let before = repo_changes(x, y, path, false, (n - 1) as nat);
        lemma_repo_lines(x, y, path, (n - 1) as nat);
        let entry = x[n - 1];
        let at = key_path(path, entry.0);
        match pairs::lookup(y, entry.0) {
            Some(v) => {
                law_change_lines(entry.1, v, at);
                lemma_agree_concat(before, key_changes(entry.1, v, at, false));
            },
            None => {
                lemma_lines_of_kinds(at, entry.1, entry.1);
                lemma_agree_concat(before, seq![added_change(at, entry.1, false)]);
            },
        }
    }
}

proof fn lemma_removed_lines(
    x: json::EntriesModel,
    y: json::EntriesModel,
    path: Seq<char>,
    n: nat,
)
    requires
        n <= y.len(),
    ensures
        all_lines_agree(removed_changes(x, y, path, false, n)),
    decreases n,
{
    if n > 0 {
        let before = removed_changes(x, y, path, false, (n - 1) as nat);
        lemma_removed_lines(x, y, path, (n - 1) as nat);
        let c = removed_change(key_path(path, y[n - 1].0), y[n - 1].1, false);
        lemma_lines_of_kinds(key_path(path, y[n - 1].0), y[n - 1].1, y[n - 1].1);
        lemma_agree_concat(before, seq![c]);
        assert(before + seq![c] =~= before.push(c));
    }
}

/// Different texts are shown differently, as are true and false and lists that are
/// too long to be shown where they differ in length; a number is shown as it is
/// written.
pub proof fn law_shown(
    a: Seq<char>,
    b: Seq<char>,
    x: Seq<JsonModel>,
    y: Seq<JsonModel>,
)
    ensures
        shown(JsonModel::Text(a)) == shown(JsonModel::Text(b)) ==> a == b,
        shown(JsonModel::Bool(true)) != shown(JsonModel::Bool(false)),
        shown(JsonModel::Number(a)) == a,
        x.len() > 3 && y.len() > 3 && shown(JsonModel::Array(x)) == shown(JsonModel::Array(y))
            ==> x.len() == y.len(),
{
    reveal_strlit("true");
    reveal_strlit("false");
    assert("true"@.len() == 4 && "false"@.len() == 5);
    let p = shown(JsonModel::Text(a));
    let q = shown(JsonModel::Text(b));
    if p == q {
        let n = "\""@.len() as int;
        assert(p.subrange(n, p.len() - n) =~= a);
        assert(q.subrange(n, q.len() - n) =~= b);
    }
    let s = shown(JsonModel::Array(x));
    let t = shown(JsonModel::Array(y));
    assert(JsonModel::Array(x)->Array_0 == x && JsonModel::Array(y)->Array_0 == y);
    if x.len() > 3 && y.len() > 3 && s == t {
        let n = "[..."@.len() as int;
        let m = " items]"@.len() as int;
        assert(s.subrange(n, s.len() - m) =~= text::digits(x.len(), 10));
        assert(t.subrange(n, t.len() - m) =~= text::digits(y.len(), 10));
        text::law_digits(x.len(), 10);
        text::law_digits(y.len(), 10);
    }
}

/// Lists of one text, of two and of three are shown with all their texts, each in
/// quotation marks and with commas between them.
pub proof fn law_short_lists(a: Seq<char>, b: Seq<char>, c: Seq<char>)
    ensures
        shown(JsonModel::Array(seq![JsonModel::Text(a)])) == "[\""@ + a + "\"]"@,
        shown(JsonModel::Array(seq![JsonModel::Text(a), JsonModel::Text(b)])) == "[\""@ + a
            + "\", \""@ + b + "\"]"@,
        shown(JsonModel::Array(seq![JsonModel::Text(a), JsonModel::Text(b), JsonModel::Text(c)]))
            == "[\""@ + a + "\", \""@ + b + "\", \""@ + c + "\"]"@,
{
    reveal_strlit("[");
    reveal_strlit("]");
    reveal_strlit("\"");
    reveal_strlit(", ");
    reveal_strlit("[\"");
    reveal_strlit("\"]");
    reveal_strlit("\", \"");
    let x = JsonModel::Text(a);
    let y = JsonModel::Text(b);
    let z = JsonModel::Text(c);
    let one = seq![x];
    let two = seq![x, y];
    let three = seq![x, y, z];
    assert(JsonModel::Array(one)->Array_0 == one);
    assert(JsonModel::Array(two)->Array_0 == two);
    assert(JsonModel::Array(three)->Array_0 == three);
    let p = seq![shown(x)];
    let q = seq![shown(x), shown(y)];
    let r = seq![shown(x), shown(y), shown(z)];
    assert(shown_all(one) =~= p);
    assert(shown_all(two) =~= q);
    assert(shown_all(three) =~= r);
    assert(q.drop_last() =~= p);
    assert(r.drop_last() =~= q);
    let sep = ", "@;
    assert(text::joined(p, sep) == shown(x));
    assert(text::joined(q, sep) == shown(x) + sep + shown(y));
    assert(text::joined(r, sep) == shown(x) + sep + shown(y) + sep + shown(z));
    assert(shown(JsonModel::Array(one)) =~= "[\""@ + a + "\"]"@);
    assert(shown(JsonModel::Array(two)) =~= "[\""@ + a + "\", \""@ + b + "\"]"@);
    assert(shown(JsonModel::Array(three)) =~= "[\""@ + a + "\", \""@ + b + "\", \""@ + c + "\"]"@);
}

} // verus!
