//! Edits of single fields that turn the current configuration into the
//! deployed one.
use crate::diff::semantic;
use crate::diff::semantic::{KeyChange, KeyChangeType};
use crate::json;
use crate::json::{EntriesModel, Json, JsonModel};
use crate::pairs;
use crate::text;
use vstd::prelude::*;
use vstd::string::*;

verus! {

/// An edit of one field of a `from_config`.
#[derive(Debug)]
pub enum FieldEdit {
    /// The field gets another value.
    Modify { path: String, new_value: Json },
    /// The field is new.
    Insert { path: String, value: Json },
    /// The field goes.
    Delete { path: String },
}

/// An edit as mathematics sees it.
pub enum FieldEditModel {
    Modify { path: Seq<char>, new_value: JsonModel },
    Insert { path: Seq<char>, value: JsonModel },
    Delete { path: Seq<char> },
}

impl View for FieldEdit {
    type V = FieldEditModel;

    open spec fn view(&self) -> FieldEditModel {
        match self {
            FieldEdit::Modify { path, new_value } => FieldEditModel::Modify {
                path: path@,
                new_value: new_value@,
            },
            FieldEdit::Insert { path, value } => FieldEditModel::Insert {
                path: path@,
                value: value@,
            },
            FieldEdit::Delete { path } => FieldEditModel::Delete { path: path@ },
        }
    }
}

/// What a list of edits holds.
pub open spec fn field_edits_model(edits: Seq<FieldEdit>) -> Seq<FieldEditModel> {
    edits.map_values(|e: FieldEdit| e@)
}

proof fn lemma_edits_push(edits: Seq<FieldEdit>, e: FieldEdit)
    ensures
        field_edits_model(edits.push(e)) == field_edits_model(edits).push(e@),
{
    assert(field_edits_model(edits.push(e)) =~= field_edits_model(edits).push(e@));
}

// ---------------------------------------------------------------------------
// Edits between two values
// ---------------------------------------------------------------------------

/// The edits that turn a current value at a path into a deployed one.
pub open spec fn field_edits(
    current: JsonModel,
    deployed: JsonModel,
    path: Seq<char>,
) -> Seq<FieldEditModel>
    decreases current, 0nat,
{
    match (current, deployed) {
        (JsonModel::Object(c), JsonModel::Object(d)) => current_edits(c, d, path, c.len())
            + inserted_edits(c, d, path, d.len()),
        _ => if !json::json_equal(current, deployed) && path.len() > 0 {
            seq![FieldEditModel::Modify { path, new_value: deployed }]
        } else {
            seq![]
        },
    }
}

/// The edits for the first `n` current keys: a key that is not deployed goes;
/// a changed value is replaced, unless both values are objects, whose fields
/// are edited in turn.
pub open spec fn current_edits(
    c: EntriesModel,
    d: EntriesModel,
    path: Seq<char>,
    n: nat,
) -> Seq<FieldEditModel>
    decreases c, n,
{
    if n == 0 || n > c.len() {
        seq![]
    } else {
        let key = c[n - 1].0;
        let value = c[n - 1].1;
        let at = semantic::key_path(path, key);
        current_edits(c, d, path, (n - 1) as nat) + match pairs::lookup(d, key) {
            Some(v) => if json::json_equal(value, v) {
                seq![]
            } else if value is Object && v is Object {
                field_edits(value, v, at)
            } else {
                seq![FieldEditModel::Modify { path: at, new_value: v }]
            },
            None => seq![FieldEditModel::Delete { path: at }],
        }
    }
}

/// The edits for the first `n` deployed keys: a key that is not current is new.
pub open spec fn inserted_edits(
    c: EntriesModel,
    d: EntriesModel,
    path: Seq<char>,
    n: nat,
) -> Seq<FieldEditModel>
    decreases n,
{
    if n == 0 || n > d.len() {
        seq![]
    } else {
        let before = inserted_edits(c, d, path, (n - 1) as nat);
        if pairs::lookup(c, d[n - 1].0) is Some {
            before
        } else {
            before.push(
                FieldEditModel::Insert {
                    path: semantic::key_path(path, d[n - 1].0),
                    value: d[n - 1].1,
                },
            )
        }
    }
}

/// Collects the edits that turn a current value at a path into a deployed one.
pub fn collect_field_edits(
    current: &Json,
    deployed: &Json,
    path: &str,
    edits: &mut Vec<FieldEdit>,
)
    ensures
        field_edits_model(final(edits)@) == field_edits_model(old(edits)@) + field_edits(
            current@,
            deployed@,
            path@,
        ),
    decreases current,
{
    broadcast use {json::lemma_array_model, json::lemma_object_model};

    let ghost start = field_edits_model(edits@);
    proof {
        reveal_strlit("");
        assert(path@.len() == 0 <==> path@ =~= ""@);
    }
    match (current, deployed) {
        (Json::Object(cur_obj), Json::Object(dep_obj)) => {
            let ghost c = json::entries_model(cur_obj@);
            let ghost d = json::entries_model(dep_obj@);
            assert(start =~= start + current_edits(c, d, path@, 0));
            let mut i: usize = 0;
            while i < cur_obj.len()
                invariant
                    i <= cur_obj@.len(),
                    current == Json::Object(*cur_obj),
                    c == json::entries_model(cur_obj@),
                    d == json::entries_model(dep_obj@),
                    field_edits_model(edits@) == start + current_edits(c, d, path@, i as nat),
                decreases cur_obj@.len() - i,
            {
                assert(c[i as int] == (cur_obj@[i as int].0@, cur_obj@[i as int].1@));
                assert(decreases_to!(current => current->Object_0));
                assert(decreases_to!(cur_obj@ => cur_obj@[i as int]));
                assert(decreases_to!(cur_obj@[i as int] => cur_obj@[i as int].1));
                let at = semantic::join_path(path, &cur_obj[i].0);
                match json::find_key(dep_obj, &cur_obj[i].0) {
                    Some(k) => {
                        if !json::equal(&cur_obj[i].1, &dep_obj[k].1) {
                            if cur_obj[i].1.is_object() && dep_obj[k].1.is_object() {
                                collect_field_edits(&cur_obj[i].1, &dep_obj[k].1, &at, edits);
                            } else {
                                let edit = FieldEdit::Modify {
                                    path: at,
                                    new_value: dep_obj[k].1.copy(),
                                };
                                proof {
                                    lemma_edits_push(edits@, edit);
                                }
                                edits.push(edit);
                            }
                        }
                    },
                    None => {
                        let edit = FieldEdit::Delete { path: at };
                        proof {
                            lemma_edits_push(edits@, edit);
                        }
                        edits.push(edit);
                    },
                }
                i = i + 1;
                assert(field_edits_model(edits@) =~= start + current_edits(
                    c,
                    d,
                    path@,
                    i as nat,
                ));
            }
            let ghost middle = field_edits_model(edits@);
            assert(middle =~= middle + inserted_edits(c, d, path@, 0));
            let mut k: usize = 0;
            while k < dep_obj.len()
                invariant
                    k <= dep_obj@.len(),
                    c == json::entries_model(cur_obj@),
                    d == json::entries_model(dep_obj@),
                    field_edits_model(edits@) == middle + inserted_edits(c, d, path@, k as nat),
                decreases dep_obj@.len() - k,
            {
                assert(d[k as int] == (dep_obj@[k as int].0@, dep_obj@[k as int].1@));
                match json::find_key(cur_obj, &dep_obj[k].0) {
                    Some(_) => {},
                    None => {
                        let edit = FieldEdit::Insert {
                            path: semantic::join_path(path, &dep_obj[k].0),
                            value: dep_obj[k].1.copy(),
                        };
                        proof {
                            lemma_edits_push(edits@, edit);
                        }
                        edits.push(edit);
                    },
                }
                k = k + 1;
                assert(field_edits_model(edits@) =~= middle + inserted_edits(
                    c,
                    d,
                    path@,
                    k as nat,
                ));
            }
            assert(field_edits_model(edits@) =~= start + field_edits(current@, deployed@, path@));
        },
        _ => {
            if !json::equal(current, deployed) && !text::str_eq(path, "") {
                let edit = FieldEdit::Modify {
                    path: text::owned(path),
                    new_value: deployed.copy(),
                };
                proof {
                    lemma_edits_push(edits@, edit);
                }
                edits.push(edit);
            }
            assert(field_edits_model(edits@) =~= start + field_edits(current@, deployed@, path@));
        },
    }
}

/// The edits that turn the current configuration into the deployed one.
pub fn build_field_edits_from_diff(current: &Json, deployed: &Json) -> (r: Vec<FieldEdit>)
    ensures
        field_edits_model(r@) == field_edits(current@, deployed@, seq![]),
{
    proof {
        reveal_strlit("");
        assert(""@ =~= Seq::<char>::empty());
    }
    let mut edits: Vec<FieldEdit> = Vec::new();
    assert(field_edits_model(edits@) =~= seq![]);
    collect_field_edits(current, deployed, "", &mut edits);
    assert(field_edits_model(edits@) =~= field_edits(current@, deployed@, seq![]));
    edits
}

// ---------------------------------------------------------------------------
// Edits for chosen keys
// ---------------------------------------------------------------------------

/// What an object holds at a dotted path: under the path as a key, or below
/// the key before the first dot.
pub open spec fn path_value(v: JsonModel, path: Seq<char>) -> Option<JsonModel>
    decreases path.len(),
{
    match v {
        JsonModel::Object(entries) => match pairs::lookup(entries, path) {
            Some(x) => Some(x),
            None => {
                let n = text::first_of(path, '.') as int;
                if n < path.len() {
                    match pairs::lookup(entries, path.take(n)) {
                        Some(x) => path_value(x, path.skip(n + 1)),
                        None => None,
                    }
                } else {
                    None
                }
            },
        },
        _ => None,
    }
}

/// What an object holds at a dotted path.
pub fn json_path_get<'a>(value: &'a Json, path: &str) -> (r: Option<&'a Json>)
    ensures
        match r {
            Some(x) => path_value(value@, path@) == Some(x@),
            None => path_value(value@, path@) is None,
        },
    decreases path@.len(),
{
    broadcast use {json::lemma_array_model, json::lemma_object_model};

    match value {
        Json::Object(entries) => {
            match json::find_key(entries, path) {
                Some(i) => {
                    return Some(&entries[i].1);
                },
                None => {},
            }
            let x = text::chars_of(path);
            let n = text::find_char(&x, 0, '.');
            assert(x@.skip(0) =~= x@);
            if n < x.len() {
                let head = text::string_of(&x, 0, n);
                let tail = text::string_of(&x, n + 1, x.len());
                assert(head@ =~= path@.take(n as int));
                assert(tail@ =~= path@.skip(n + 1));
                match json::find_key(entries, &head) {
                    Some(i) => json_path_get(&entries[i].1, &tail),
                    None => None,
                }
            } else {
                None
            }
        },
        _ => None,
    }
}

/// The kind of the last change that is given for a path.
pub open spec fn given_type(changes: Seq<semantic::ChangeModel>, path: Seq<char>) -> Option<
    KeyChangeType,
>
    decreases changes.len(),
{
    if changes.len() == 0 {
        None
    } else if changes.last().path == path {
        Some(changes.last().change_type)
    } else {
        given_type(changes.drop_last(), path)
    }
}

/// The kind of change at a path: the given one, else by which side has a value
/// there; `None` where neither has.
pub open spec fn change_type_of(
    current: JsonModel,
    deployed: JsonModel,
    changes: Seq<semantic::ChangeModel>,
    path: Seq<char>,
) -> Option<KeyChangeType> {
    match given_type(changes, path) {
        Some(t) => Some(t),
        None => match (path_value(current, path), path_value(deployed, path)) {
            (Some(_), Some(_)) => Some(KeyChangeType::Modified),
            (None, Some(_)) => Some(KeyChangeType::Removed),
            (Some(_), None) => Some(KeyChangeType::Added),
            (None, None) => None,
        },
    }
}

/// The edit that pulls a path: the repo's key is set to the deployed value, is
/// inserted where only the deployed side has it, and goes where only the repo
/// has it.
pub open spec fn key_edit(
    current: JsonModel,
    deployed: JsonModel,
    changes: Seq<semantic::ChangeModel>,
    path: Seq<char>,
) -> Option<FieldEditModel> {
    match (change_type_of(current, deployed, changes, path), path_value(deployed, path)) {
        (Some(KeyChangeType::Modified), Some(v)) => Some(
            FieldEditModel::Modify { path, new_value: v },
        ),
        (Some(KeyChangeType::Removed), Some(v)) => Some(FieldEditModel::Insert { path, value: v }),
        (Some(KeyChangeType::Added), _) => Some(FieldEditModel::Delete { path }),
        _ => None,
    }
}

/// The edits that pull the first `n` paths.
pub open spec fn key_edits(
    current: JsonModel,
    deployed: JsonModel,
    changes: Seq<semantic::ChangeModel>,
    pulled: Seq<Seq<char>>,
    n: nat,
) -> Seq<FieldEditModel>
    decreases n,
{
    if n == 0 || n > pulled.len() {
        seq![]
    } else {
        let before = key_edits(current, deployed, changes, pulled, (n - 1) as nat);
        match key_edit(current, deployed, changes, pulled[n - 1]) {
            Some(e) => before.push(e),
            None => before,
        }
    }
}

/// Whether a pull of a path inserts or deletes a field.
pub open spec fn structural(
    current: JsonModel,
    deployed: JsonModel,
    changes: Seq<semantic::ChangeModel>,
    path: Seq<char>,
) -> bool {
    match change_type_of(current, deployed, changes, path) {
        Some(KeyChangeType::Added) => true,
        Some(KeyChangeType::Removed) => true,
        _ => false,
    }
}

fn find_type(changes: &[KeyChange], path: &str) -> (r: Option<KeyChangeType>)
    ensures
        r == given_type(semantic::changes_model(changes@), path@),
{
    let ghost m = semantic::changes_model(changes@);
    let mut n: usize = changes.len();
    assert(m.take(n as int) =~= m);
    while n > 0
        invariant
            n <= changes@.len(),
            m == semantic::changes_model(changes@),
            given_type(m, path@) == given_type(m.take(n as int), path@),
        decreases n,
    {
        let ghost rest = m.take(n as int);
        assert(rest.last() == changes@[n - 1]@);
        assert(rest.drop_last() =~= m.take(n - 1));
        if text::str_eq(&changes[n - 1].path, path) {
            return Some(changes[n - 1].change_type);
        }
        n = n - 1;
    }
    None
}

fn type_at(current: &Json, deployed: &Json, changes: &[KeyChange], path: &str) -> (r: Option<
    KeyChangeType,
>)
    ensures
        r == change_type_of(current@, deployed@, semantic::changes_model(changes@), path@),
{
    match find_type(changes, path) {
        Some(t) => Some(t),
        None => match (json_path_get(current, path), json_path_get(deployed, path)) {
            (Some(_), Some(_)) => Some(KeyChangeType::Modified),
            (None, Some(_)) => Some(KeyChangeType::Removed),
            (Some(_), None) => Some(KeyChangeType::Added),
            (None, None) => None,
        },
    }
}

/// The edits that pull the given paths.
pub fn build_field_edits_for_keys(
    current: &Json,
    deployed: &Json,
    pulled_keys: &[String],
    changes: &[KeyChange],
) -> (r: Vec<FieldEdit>)
    ensures
        field_edits_model(r@) == key_edits(
            current@,
            deployed@,
            semantic::changes_model(changes@),
            text::texts(pulled_keys@),
            pulled_keys@.len(),
        ),
{
    let ghost m = semantic::changes_model(changes@);
    let ghost p = text::texts(pulled_keys@);
    let mut edits: Vec<FieldEdit> = Vec::new();
    assert(field_edits_model(edits@) =~= seq![]);
    let mut i: usize = 0;
    while i < pulled_keys.len()
        invariant
            i <= pulled_keys@.len(),
            m == semantic::changes_model(changes@),
            p == text::texts(pulled_keys@),
            field_edits_model(edits@) == key_edits(current@, deployed@, m, p, i as nat),
        decreases pulled_keys@.len() - i,
    {
        assert(p[i as int] == pulled_keys@[i as int]@);
        let key = &pulled_keys[i];
        let edit = match (
            type_at(current, deployed, changes, key),
            json_path_get(deployed, key),
        ) {
            (Some(KeyChangeType::Modified), Some(v)) => Some(
                FieldEdit::Modify { path: text::owned(key), new_value: v.copy() },
            ),
            (Some(KeyChangeType::Removed), Some(v)) => Some(
                FieldEdit::Insert { path: text::owned(key), value: v.copy() },
            ),
            (Some(KeyChangeType::Added), _) => Some(FieldEdit::Delete { path: text::owned(key) }),
            _ => None,
        };
        match edit {
            Some(e) => {
                proof {
                    lemma_edits_push(edits@, e);
                }
                edits.push(e);
            },
            None => {},
        }
        i = i + 1;
    }
    edits
}

/// Whether a pull of one of the paths inserts or deletes a field.
pub fn has_structural_changes(
    current: &Json,
    deployed: &Json,
    pulled_keys: &[String],
    changes: &[KeyChange],
) -> (r: bool)
    ensures
        r == exists|i: int|
            0 <= i < pulled_keys@.len() && structural(
                current@,
                deployed@,
                semantic::changes_model(changes@),
                #[trigger] text::texts(pulled_keys@)[i],
            ),
{
    let ghost m = semantic::changes_model(changes@);
    let ghost p = text::texts(pulled_keys@);
    let mut i: usize = 0;
    while i < pulled_keys.len()
        invariant
            i <= pulled_keys@.len(),
            m == semantic::changes_model(changes@),
            p == text::texts(pulled_keys@),
            forall|k: int|
                0 <= k < i ==> !structural(current@, deployed@, m, #[trigger] p[k]),
        decreases pulled_keys@.len() - i,
    {
        assert(p[i as int] == pulled_keys@[i as int]@);
        match type_at(current, deployed, changes, &pulled_keys[i]) {
            Some(KeyChangeType::Added) => {
                return true;
            },
            Some(KeyChangeType::Removed) => {
                return true;
            },
            _ => {},
        }
        i = i + 1;
    }
    false
}

// ---------------------------------------------------------------------------
// Laws of the edits
// ---------------------------------------------------------------------------

/// Equal values need no edit.
pub proof fn law_no_edits(current: JsonModel, deployed: JsonModel, path: Seq<char>)
    requires
        json::well_formed(current),
        json::well_formed(deployed),
        json::json_equal(current, deployed),
    ensures
        field_edits(current, deployed, path) == Seq::<FieldEditModel>::empty(),
{
    match (current, deployed) {
        (JsonModel::Object(c), JsonModel::Object(d)) => {
            assert(current->Object_0 == c && deployed->Object_0 == d);
            pairs::lemma_same_keys(c, d);
            lemma_no_current_edits(c, d, path, c.len());
            lemma_no_inserted_edits(c, d, path, d.len());
            assert(field_edits(current, deployed, path) =~= seq![]);
        },
        _ => {},
    }
}

proof fn lemma_no_current_edits(c: EntriesModel, d: EntriesModel, path: Seq<char>, n: nat)
    requires
        n <= c.len(),
        forall|i: int|
            0 <= i < c.len() ==> {
                &&& pairs::lookup(d, (#[trigger] c[i]).0) is Some
                &&& json::json_equal(c[i].1, pairs::lookup(d, c[i].0)->0)
            },
    ensures
        current_edits(c, d, path, n) == Seq::<FieldEditModel>::empty(),
    decreases n,
{
    if n > 0 {
        lemma_no_current_edits(c, d, path, (n - 1) as nat);
        assert(pairs::lookup(d, c[n - 1].0) is Some);
        assert(current_edits(c, d, path, n) =~= seq![]);
    }
}

proof fn lemma_no_inserted_edits(c: EntriesModel, d: EntriesModel, path: Seq<char>, n: nat)
    requires
        n <= d.len(),
        forall|i: int| 0 <= i < d.len() ==> pairs::lookup(c, (#[trigger] d[i]).0) is Some,
    ensures
        inserted_edits(c, d, path, n) == Seq::<FieldEditModel>::empty(),
    decreases n,
{
    if n > 0 {
        lemma_no_inserted_edits(c, d, path, (n - 1) as nat);
    }
}

/// Two objects need an edit exactly where they are not equal.
pub proof fn law_edits_complete(current: JsonModel, deployed: JsonModel, path: Seq<char>)
    requires
        current is Object,
        deployed is Object,
        json::well_formed(current),
        json::well_formed(deployed),
    ensures
        field_edits(current, deployed, path).len() == 0 <==> json::json_equal(current, deployed),
    decreases current, 1nat,
{
    if json::json_equal(current, deployed) {
        law_no_edits(current, deployed, path);
    } else if field_edits(current, deployed, path).len() == 0 {
        let c = current->Object_0;
        let d = deployed->Object_0;
        lemma_current_complete(c, d, path, c.len());
        lemma_inserted_complete(c, d, path, d.len());
        pairs::lemma_same_length(c, d);
    }
}

proof fn lemma_current_complete(c: EntriesModel, d: EntriesModel, path: Seq<char>, n: nat)
    requires
        n <= c.len(),
        json::well_formed(JsonModel::Object(c)),
        json::well_formed(JsonModel::Object(d)),
        current_edits(c, d, path, n).len() == 0,
    ensures
        forall|i: int|
            0 <= i < n ==> {
                &&& pairs::lookup(d, (#[trigger] c[i]).0) is Some
                &&& json::json_equal(c[i].1, pairs::lookup(d, c[i].0)->0)
            },
    decreases c, n,
{
    assert(JsonModel::Object(c)->Object_0 == c);
    assert(JsonModel::Object(d)->Object_0 == d);
    if n > 0 {
        lemma_current_complete(c, d, path, (n - 1) as nat);
        let key = c[n - 1].0;
        let value = c[n - 1].1;
        let at = pairs::lemma_lookup(d, key);
        match pairs::lookup(d, key) {
            Some(v) => {
                assert(d[at].1 == v);
                assert(json::well_formed(value));
                if value is Object && v is Object {
                    law_edits_complete(value, v, semantic::key_path(path, key));
                }
            },
            None => {},
        }
    }
}

proof fn lemma_inserted_complete(c: EntriesModel, d: EntriesModel, path: Seq<char>, n: nat)
    requires
        n <= d.len(),
        inserted_edits(c, d, path, n).len() == 0,
    ensures
        forall|i: int| 0 <= i < n ==> pairs::lookup(c, (#[trigger] d[i]).0) is Some,
    decreases n,
{
    if n > 0 {
        lemma_inserted_complete(c, d, path, (n - 1) as nat);
    }
}

// ---------------------------------------------------------------------------
// Carrying edits out
// ---------------------------------------------------------------------------

/// A value with what stands at a dotted path set, or gone: under the path as a
/// key, or below the key before the first dot.
pub open spec fn edited(v: JsonModel, path: Seq<char>, new: Option<JsonModel>) -> JsonModel
    decreases path.len(),
{
    match v {
        JsonModel::Object(e) => {
            let n = text::first_of(path, '.') as int;
            if pairs::lookup(e, path) is Some || n >= path.len() {
                JsonModel::Object(
                    match new {
                        Some(x) => pairs::put(e, path, x),
                        None => pairs::without(e, path),
                    },
                )
            } else {
                match pairs::lookup(e, path.take(n)) {
                    Some(x) => JsonModel::Object(
                        pairs::put(e, path.take(n), edited(x, path.skip(n + 1), new)),
                    ),
                    None => v,
                }
            }
        },
        _ => v,
    }
}

/// The path that an edit is at.
pub open spec fn edit_path(e: FieldEditModel) -> Seq<char> {
    match e {
        FieldEditModel::Modify { path, .. } => path,
        FieldEditModel::Insert { path, .. } => path,
        FieldEditModel::Delete { path } => path,
    }
}

/// What an edit leaves at its path.
pub open spec fn edit_value(e: FieldEditModel) -> Option<JsonModel> {
    match e {
        FieldEditModel::Modify { new_value, .. } => Some(new_value),
        FieldEditModel::Insert { value, .. } => Some(value),
        FieldEditModel::Delete { .. } => None,
    }
}

/// A value after the first `n` edits.
pub open spec fn carried_out(v: JsonModel, edits: Seq<FieldEditModel>, n: nat) -> JsonModel
    decreases n,
{
    if n == 0 || n > edits.len() {
        v
    } else {
        edited(
            carried_out(v, edits, (n - 1) as nat),
            edit_path(edits[n - 1]),
            edit_value(edits[n - 1]),
        )
    }
}

/// An edit below a key.
spec fn edit_below(key: Seq<char>, e: FieldEditModel) -> FieldEditModel {
    match e {
        FieldEditModel::Modify { path, new_value } => FieldEditModel::Modify {
            path: key + "."@ + path,
            new_value,
        },
        FieldEditModel::Insert { path, value } => FieldEditModel::Insert {
            path: key + "."@ + path,
            value,
        },
        FieldEditModel::Delete { path } => FieldEditModel::Delete { path: key + "."@ + path },
    }
}

spec fn edits_below(key: Seq<char>, edits: Seq<FieldEditModel>) -> Seq<FieldEditModel> {
    edits.map_values(|e: FieldEditModel| edit_below(key, e))
}

proof fn lemma_below_twice(path: Seq<char>, key: Seq<char>, edits: Seq<FieldEditModel>)
    ensures
        edits_below(path + "."@ + key, edits) == edits_below(path, edits_below(key, edits)),
{
    assert forall|i: int| 0 <= i < edits.len() implies edit_below(
        path + "."@ + key,
        #[trigger] edits[i],
    ) == edit_below(path, edit_below(key, edits[i])) by {
        let p = edit_path(edits[i]);
        assert(path + "."@ + key + "."@ + p =~= path + "."@ + (key + "."@ + p));
    }
    assert(edits_below(path + "."@ + key, edits) =~= edits_below(path, edits_below(key, edits)));
}

/// The edits of two objects at a path are those at no path, each below it.
proof fn lemma_edits_below(current: JsonModel, deployed: JsonModel, path: Seq<char>)
    requires
        current is Object,
        deployed is Object,
        path.len() > 0,
        semantic::plain_keys(current),
    ensures
        field_edits(current, deployed, path) == edits_below(
            path,
            field_edits(current, deployed, seq![]),
        ),
    decreases current, 1nat,
{
    let c = current->Object_0;
    let d = deployed->Object_0;
    let none = Seq::<char>::empty();
    lemma_current_below(c, d, path, c.len());
    lemma_inserted_below(c, d, path, d.len());
    assert(edits_below(path, field_edits(current, deployed, none)) =~= edits_below(
        path,
        current_edits(c, d, none, c.len()),
    ) + edits_below(path, inserted_edits(c, d, none, d.len())));
}

proof fn lemma_current_below(c: EntriesModel, d: EntriesModel, path: Seq<char>, n: nat)
    requires
        n <= c.len(),
        path.len() > 0,
        semantic::plain_keys(JsonModel::Object(c)),
    ensures
        current_edits(c, d, path, n) == edits_below(path, current_edits(c, d, seq![], n)),
    decreases c, n,
{
    let none = Seq::<char>::empty();
    assert(JsonModel::Object(c)->Object_0 == c);
    if n > 0 {
        lemma_current_below(c, d, path, (n - 1) as nat);
        let key = c[n - 1].0;
        let value = c[n - 1].1;
        assert(semantic::plain_key(key));
        let before = current_edits(c, d, none, (n - 1) as nat);
        let at = semantic::key_path(path, key);
        assert(semantic::key_path(none, key) == key);
        match pairs::lookup(d, key) {
            Some(v) => {
                if !json::json_equal(value, v) && value is Object && v is Object {
                    lemma_edits_below(value, v, at);
                    lemma_edits_below(value, v, key);
                    lemma_below_twice(path, key, field_edits(value, v, none));
                }
            },
            None => {},
        }
        let here = match pairs::lookup(d, key) {
            Some(v) => if json::json_equal(value, v) {
                seq![]
            } else if value is Object && v is Object {
                field_edits(value, v, key)
            } else {
                seq![FieldEditModel::Modify { path: key, new_value: v }]
            },
            None => seq![FieldEditModel::Delete { path: key }],
        };
        assert(current_edits(c, d, none, n) == before + here);
        assert(edits_below(path, before + here) =~= edits_below(path, before) + edits_below(
            path,
            here,
        ));
        assert(current_edits(c, d, path, n) =~= edits_below(path, before) + edits_below(
            path,
            here,
        ));
    } else {
        assert(current_edits(c, d, path, n) =~= edits_below(path, current_edits(c, d, none, n)));
    }
}

proof fn lemma_inserted_below(c: EntriesModel, d: EntriesModel, path: Seq<char>, n: nat)
    requires
        n <= d.len(),
        path.len() > 0,
    ensures
        inserted_edits(c, d, path, n) == edits_below(path, inserted_edits(c, d, seq![], n)),
    decreases n,
{
    let none = Seq::<char>::empty();
    if n > 0 {
        lemma_inserted_below(c, d, path, (n - 1) as nat);
    }
    assert(inserted_edits(c, d, path, n) =~= edits_below(path, inserted_edits(c, d, none, n)));
}

proof fn lemma_carried_concat(
    v: JsonModel,
    a: Seq<FieldEditModel>,
    b: Seq<FieldEditModel>,
    n: nat,
)
    requires
        n <= b.len(),
    ensures
        carried_out(v, a + b, a.len() + n) == carried_out(carried_out(v, a, a.len()), b, n),
    decreases n,
{
    if n > 0 {
        lemma_carried_concat(v, a, b, (n - 1) as nat);
        assert((a + b)[a.len() + n - 1] == b[n - 1]);
    } else {
        lemma_carried_prefix(v, a, b, a.len());
    }
}

proof fn lemma_carried_prefix(
    v: JsonModel,
    a: Seq<FieldEditModel>,
    b: Seq<FieldEditModel>,
    n: nat,
)
    requires
        n <= a.len(),
    ensures
        carried_out(v, a + b, n) == carried_out(v, a, n),
    decreases n,
{
    if n > 0 {
        lemma_carried_prefix(v, a, b, (n - 1) as nat);
        assert((a + b)[n - 1] == a[n - 1]);
    }
}

/// All keys that are found can stand in a dotted path.
spec fn plain_entries(e: EntriesModel) -> bool {
    forall|key: Seq<char>| #[trigger] pairs::lookup(e, key) is Some ==> semantic::plain_key(key)
}

/// Edits below a key change the value under that key alone.
proof fn lemma_carried_below(
    e: EntriesModel,
    key: Seq<char>,
    edits: Seq<FieldEditModel>,
    n: nat,
)
    requires
        n <= edits.len(),
        plain_entries(e),
        pairs::lookup(e, key) is Some,
    ensures
        carried_out(JsonModel::Object(e), edits_below(key, edits), n) == JsonModel::Object(
            pairs::put(e, key, carried_out(pairs::lookup(e, key)->0, edits, n)),
        ),
    decreases n,
{
    let x = pairs::lookup(e, key)->0;
    let at = pairs::lemma_lookup(e, key);
    if n == 0 {
        pairs::lemma_put_at(e, key, x, at);
        assert(e.update(at, (key, x)) =~= e);
    } else {
        lemma_carried_below(e, key, edits, (n - 1) as nat);
        let y = carried_out(x, edits, (n - 1) as nat);
        let now = pairs::put(e, key, y);
        let edit = edits[n - 1];
        let p = edit_path(edit);
        let path = key + "."@ + p;
        let new = edit_value(edit);
        assert(edit_path(edit_below(key, edit)) == path);
        assert(edit_value(edit_below(key, edit)) == new);
        reveal_strlit(".");
        assert(semantic::plain_key(key));
        assert(path[key.len() as int] == '.');
        assert forall|i: int| 0 <= i < key.len() implies path[i] != '.' by {
            assert(path[i] == key[i]);
        }
        text::lemma_first_of(path, '.', key.len() as int);
        assert(path.take(key.len() as int) =~= key);
        assert(path.skip(key.len() as int + 1) =~= p);
        pairs::lemma_put_lookup(e, key, y, path);
        pairs::lemma_put_lookup(e, key, y, key);
        assert(path != key) by {
            assert(path.len() > key.len());
        }
        assert(pairs::lookup(e, path) is None) by {
            if pairs::lookup(e, path) is Some {
                assert(semantic::plain_key(path));
                assert(path[key.len() as int] != '.');
            }
        }
        assert(edited(JsonModel::Object(now), path, new) == JsonModel::Object(
            pairs::put(now, key, edited(y, p, new)),
        ));
        pairs::lemma_put_again(e, key, y, edited(y, p, new));
    }
}

/// What the entries hold once the first `n` current keys are edited: under those,
/// what equals the deployed value, or nothing where none is deployed; under all
/// others, what was current.
spec fn edited_so_far(c: EntriesModel, d: EntriesModel, s: EntriesModel, n: int) -> bool {
    &&& pairs::distinct_keys(s)
    &&& forall|key: Seq<char>| #[trigger] edited_key(c, d, s, n, key)
}

spec fn edited_key(
    c: EntriesModel,
    d: EntriesModel,
    s: EntriesModel,
    n: int,
    key: Seq<char>,
) -> bool {
    if pairs::lookup(c.take(n), key) is Some {
        match (pairs::lookup(d, key), pairs::lookup(s, key)) {
            (Some(v), Some(w)) => json::json_equal(w, v),
            (None, None) => true,
            _ => false,
        }
    } else {
        pairs::lookup(s, key) == pairs::lookup(c, key)
    }
}

proof fn lemma_plain_so_far(c: EntriesModel, d: EntriesModel, s: EntriesModel, n: int)
    requires
        0 <= n <= c.len(),
        semantic::plain_keys(JsonModel::Object(c)),
        edited_so_far(c, d, s, n),
    ensures
        plain_entries(s),
{
    assert(JsonModel::Object(c)->Object_0 == c);
    assert forall|key: Seq<char>| #[trigger] pairs::lookup(s, key) is Some implies semantic::plain_key(
        key,
    ) by {
        assert(edited_key(c, d, s, n, key));
        if pairs::lookup(c.take(n), key) is Some {
            let at = pairs::lemma_lookup(c.take(n), key);
            assert(c.take(n)[at] == c[at]);
            assert(semantic::plain_key(c[at].0));
        } else {
            let at = pairs::lemma_lookup(c, key);
            assert(semantic::plain_key(c[at].0));
        }
    }
}

proof fn lemma_current_carried(c: EntriesModel, d: EntriesModel, n: nat) -> (s: EntriesModel)
    requires
        n <= c.len(),
        json::well_formed(JsonModel::Object(c)),
        json::well_formed(JsonModel::Object(d)),
        semantic::plain_keys(JsonModel::Object(c)),
        semantic::plain_keys(JsonModel::Object(d)),
    ensures
        carried_out(
            JsonModel::Object(c),
            current_edits(c, d, seq![], n),
            current_edits(c, d, seq![], n).len(),
        ) == JsonModel::Object(s),
        edited_so_far(c, d, s, n as int),
    decreases c, n,
{
    let none = Seq::<char>::empty();
    assert(JsonModel::Object(c)->Object_0 == c);
    assert(JsonModel::Object(d)->Object_0 == d);
    if n == 0 {
        assert forall|key: Seq<char>| #[trigger] edited_key(c, d, c, 0, key) by {
            assert(c.take(0).len() == 0);
        }
        c
    } else {
        let s = lemma_current_carried(c, d, (n - 1) as nat);
        lemma_plain_so_far(c, d, s, n - 1);
        let before = current_edits(c, d, none, (n - 1) as nat);
        let key = c[n - 1].0;
        let value = c[n - 1].1;
        assert(semantic::plain_key(key) && semantic::plain_keys(value));
        assert(json::well_formed(value));
        assert(semantic::key_path(none, key) == key);
        pairs::lemma_take_lookup(c, n as int, key);
        pairs::lemma_lookup_distinct(c, n - 1);
        assert(pairs::lookup(c.take(n - 1), key) is None) by {
            let at = pairs::lemma_lookup(c.take(n - 1), key);
            if pairs::lookup(c.take(n - 1), key) is Some {
                assert(c.take(n - 1)[at] == c[at]);
                assert(c[at].0 != c[n - 1].0);
            }
        }
        assert(edited_key(c, d, s, n - 1, key));
        assert(pairs::lookup(s, key) == Some(value));
        text::lemma_first_of(key, '.', key.len() as int);
        let found = pairs::lemma_lookup(d, key);
        let next = match pairs::lookup(d, key) {
            Some(v) => {
                assert(d[found].1 == v);
                json::law_equal_reflexive(v);
                if json::json_equal(value, v) {
                    assert(current_edits(c, d, none, n) =~= before);
                    s
                } else if value is Object && v is Object {
                    let inner = field_edits(value, v, none);
                    law_edits_carried_out(value, v);
                    lemma_edits_below(value, v, key);
                    lemma_carried_below(s, key, inner, inner.len());
                    assert(current_edits(c, d, none, n) == before + edits_below(key, inner));
                    lemma_carried_concat(
                        JsonModel::Object(c),
                        before,
                        edits_below(key, inner),
                        inner.len(),
                    );
                    let w = carried_out(value, inner, inner.len());
                    pairs::lemma_put_distinct(s, key, w);
                    pairs::put(s, key, w)
                } else {
                    let edit = FieldEditModel::Modify { path: key, new_value: v };
                    lemma_carried_concat(JsonModel::Object(c), before, seq![edit], 1);
                    reveal_with_fuel(carried_out, 2);
                    pairs::lemma_put_distinct(s, key, v);
                    pairs::put(s, key, v)
                }
            },
            None => {
                let edit = FieldEditModel::Delete { path: key };
                lemma_carried_concat(JsonModel::Object(c), before, seq![edit], 1);
                reveal_with_fuel(carried_out, 2);
                pairs::lemma_without(s, key);
                pairs::without(s, key)
            },
        };
        assert forall|other: Seq<char>| #[trigger] edited_key(c, d, next, n as int, other) by {
            assert(edited_key(c, d, s, n - 1, other));
            pairs::lemma_take_lookup(c, n as int, other);
            match pairs::lookup(d, key) {
                Some(v) => {
                    if !json::json_equal(value, v) {
                        let w = if value is Object && v is Object {
                            carried_out(
                                value,
                                field_edits(value, v, none),
                                field_edits(value, v, none).len(),
                            )
                        } else {
                            v
                        };
                        pairs::lemma_put_lookup(s, key, w, other);
                    }
                },
                None => {
                    assert(pairs::lookup(pairs::without(s, key), other) == if other == key {
                        None
                    } else {
                        pairs::lookup(s, other)
                    });
                },
            }
        }
        next
    }
}

/// What the entries hold once the first `n` deployed keys are inserted as well.
spec fn inserted_key(
    c: EntriesModel,
    d: EntriesModel,
    s: EntriesModel,
    t: EntriesModel,
    n: int,
    key: Seq<char>,
) -> bool {
    pairs::lookup(t, key) == if pairs::lookup(d.take(n), key) is Some && pairs::lookup(
        c,
        key,
    ) is None {
        pairs::lookup(d, key)
    } else {
        pairs::lookup(s, key)
    }
}

proof fn lemma_inserted_carried(
    c: EntriesModel,
    d: EntriesModel,
    s: EntriesModel,
    n: nat,
) -> (t: EntriesModel)
    requires
        n <= d.len(),
        pairs::distinct_keys(d),
        semantic::plain_keys(JsonModel::Object(d)),
        edited_so_far(c, d, s, c.len() as int),
    ensures
        carried_out(
            JsonModel::Object(s),
            inserted_edits(c, d, seq![], n),
            inserted_edits(c, d, seq![], n).len(),
        ) == JsonModel::Object(t),
        pairs::distinct_keys(t),
        forall|key: Seq<char>| #[trigger] inserted_key(c, d, s, t, n as int, key),
    decreases n,
{
    let none = Seq::<char>::empty();
    assert(JsonModel::Object(d)->Object_0 == d);
    if n == 0 {
        assert forall|key: Seq<char>| #[trigger] inserted_key(c, d, s, s, 0, key) by {
            assert(d.take(0).len() == 0);
        }
        s
    } else {
        let t = lemma_inserted_carried(c, d, s, (n - 1) as nat);
        let before = inserted_edits(c, d, none, (n - 1) as nat);
        let key = d[n - 1].0;
        let value = d[n - 1].1;
        assert(semantic::plain_key(key));
        assert(semantic::key_path(none, key) == key);
        text::lemma_first_of(key, '.', key.len() as int);
        pairs::lemma_lookup_distinct(d, n - 1);
        let next = if pairs::lookup(c, key) is None {
            let edit = FieldEditModel::Insert { path: key, value };
            assert(inserted_edits(c, d, none, n) =~= before + seq![edit]);
            lemma_carried_concat(JsonModel::Object(s), before, seq![edit], 1);
            reveal_with_fuel(carried_out, 2);
            pairs::lemma_put_distinct(t, key, value);
            pairs::put(t, key, value)
        } else {
            t
        };
        assert forall|other: Seq<char>| #[trigger] inserted_key(
            c,
            d,
            s,
            next,
            n as int,
            other,
        ) by {
            assert(inserted_key(c, d, s, t, n - 1, other));
            pairs::lemma_take_lookup(d, n as int, other);
            pairs::lemma_put_lookup(t, key, value, other);
        }
        next
    }
}

/// Carrying out the edits that turn one object into another gives an object equal
/// to the other, as long as the keys can stand in dotted paths.
pub proof fn law_edits_carried_out(current: JsonModel, deployed: JsonModel)
    requires
        current is Object,
        deployed is Object,
        json::well_formed(current),
        json::well_formed(deployed),
        semantic::plain_keys(current),
        semantic::plain_keys(deployed),
    ensures
        ({
            let edits = field_edits(current, deployed, seq![]);
            json::json_equal(carried_out(current, edits, edits.len()), deployed)
        }),
    decreases current,
{
    let none = Seq::<char>::empty();
    let c = current->Object_0;
    let d = deployed->Object_0;
    assert(current == JsonModel::Object(c) && deployed == JsonModel::Object(d));
    let s = lemma_current_carried(c, d, c.len());
    let t = lemma_inserted_carried(c, d, s, d.len());
    let first = current_edits(c, d, none, c.len());
    let second = inserted_edits(c, d, none, d.len());
    assert(field_edits(current, deployed, none) == first + second);
    lemma_carried_concat(current, first, second, second.len());
    assert(c.take(c.len() as int) =~= c);
    assert(d.take(d.len() as int) =~= d);
    assert(JsonModel::Object(t)->Object_0 == t);
    assert forall|i: int| 0 <= i < t.len() implies {
        &&& pairs::lookup(d, (#[trigger] t[i]).0) is Some
        &&& json::json_equal(t[i].1, pairs::lookup(d, t[i].0)->0)
    } by {
        let key = t[i].0;
        assert(inserted_key(c, d, s, t, d.len() as int, key));
        assert(edited_key(c, d, s, c.len() as int, key));
        pairs::lemma_lookup_distinct(t, i);
        let at = pairs::lemma_lookup(d, key);
        if pairs::lookup(c, key) is None {
            assert(json::well_formed(d[at].1));
            json::law_equal_reflexive(d[at].1);
        }
    }
    assert forall|i: int| 0 <= i < d.len() implies pairs::lookup(t, (#[trigger] d[i]).0) is Some by {
        let key = d[i].0;
        assert(inserted_key(c, d, s, t, d.len() as int, key));
        assert(edited_key(c, d, s, c.len() as int, key));
        pairs::lemma_lookup_distinct(d, i);
    }
    pairs::lemma_same_length(t, d);
}

// ---------------------------------------------------------------------------
// Where edits are
// ---------------------------------------------------------------------------

/// The edit of what two values at a path hold under a chain of keys: what only the
/// deployed one holds is inserted, what only the current one holds is deleted, and
/// where both hold something that is not equal, it is replaced, unless both hold
/// objects, whose fields are edited in turn.
pub open spec fn chain_edit(
    current: JsonModel,
    deployed: JsonModel,
    path: Seq<char>,
    keys: Seq<Seq<char>>,
) -> Option<FieldEditModel> {
    let at = semantic::chain_path(path, keys);
    match (semantic::chain_value(current, keys), semantic::chain_value(deployed, keys)) {
        (Some(c), Some(d)) => if json::json_equal(c, d) || c is Object && d is Object {
            None
        } else {
            Some(FieldEditModel::Modify { path: at, new_value: d })
        },
        (Some(_), None) => Some(FieldEditModel::Delete { path: at }),
        (None, Some(d)) => Some(FieldEditModel::Insert { path: at, value: d }),
        (None, None) => None,
    }
}

/// An edit is that of what two objects hold under a chain of keys that they share.
pub open spec fn edit_at(
    e: FieldEditModel,
    current: JsonModel,
    deployed: JsonModel,
    path: Seq<char>,
    keys: Seq<Seq<char>>,
) -> bool {
    &&& keys.len() > 0
    &&& semantic::chain_shared(current, deployed, keys)
    &&& chain_edit(current, deployed, path, keys) == Some(e)
}

/// Each edit is that of what two objects hold under some chain of keys.
pub open spec fn edits_found(
    edits: Seq<FieldEditModel>,
    current: JsonModel,
    deployed: JsonModel,
    path: Seq<char>,
) -> bool {
    forall|i: int|
        0 <= i < edits.len() ==> edit_found(#[trigger] edits[i], current, deployed, path)
}

/// An edit is that of what two objects hold under some chain of keys.
pub open spec fn edit_found(
    e: FieldEditModel,
    current: JsonModel,
    deployed: JsonModel,
    path: Seq<char>,
) -> bool {
    exists|keys: Seq<Seq<char>>| #[trigger] edit_at(e, current, deployed, path, keys)
}

/// The edits for the current key at a place.
spec fn entry_edits(c: EntriesModel, d: EntriesModel, path: Seq<char>, i: int) -> Seq<
    FieldEditModel,
> {
    let key = c[i].0;
    let value = c[i].1;
    let at = semantic::key_path(path, key);
    match pairs::lookup(d, key) {
        Some(v) => if json::json_equal(value, v) {
            seq![]
        } else if value is Object && v is Object {
            field_edits(value, v, at)
        } else {
            seq![FieldEditModel::Modify { path: at, new_value: v }]
        },
        None => seq![FieldEditModel::Delete { path: at }],
    }
}

proof fn lemma_one_key(c: EntriesModel, d: EntriesModel, path: Seq<char>, key: Seq<char>)
    ensures
        semantic::chain_shared(JsonModel::Object(c), JsonModel::Object(d), seq![key]),
        semantic::chain_path(path, seq![key]) == semantic::key_path(path, key),
        semantic::chain_value(JsonModel::Object(c), seq![key]) == pairs::lookup(c, key),
        semantic::chain_value(JsonModel::Object(d), seq![key]) == pairs::lookup(d, key),
{
    reveal_with_fuel(semantic::chain_path, 2);
    reveal_with_fuel(semantic::chain_value, 2);
    assert(seq![key].skip(1).len() == 0);
}

proof fn lemma_entry_found(c: EntriesModel, d: EntriesModel, path: Seq<char>, i: int)
    requires
        0 <= i < c.len(),
        json::well_formed(JsonModel::Object(c)),
        json::well_formed(JsonModel::Object(d)),
    ensures
        edits_found(
            entry_edits(c, d, path, i),
            JsonModel::Object(c),
            JsonModel::Object(d),
            path,
        ),
    decreases c, 0nat,
{
    let x = JsonModel::Object(c);
    let y = JsonModel::Object(d);
    assert(x->Object_0 == c && y->Object_0 == d);
    let key = c[i].0;
    let value = c[i].1;
    let here = entry_edits(c, d, path, i);
    let at = semantic::key_path(path, key);
    pairs::lemma_lookup_distinct(c, i);
    let found = pairs::lemma_lookup(d, key);
    lemma_one_key(c, d, path, key);
    match pairs::lookup(d, key) {
        Some(v) if !json::json_equal(value, v) && value is Object && v is Object => {
            assert(json::well_formed(value));
            assert(json::well_formed(d[found].1));
            law_edits_found(value, v, at);
            assert forall|k: int| 0 <= k < here.len() implies edit_found(
                #[trigger] here[k],
                x,
                y,
                path,
            ) by {
                assert(edit_found(here[k], value, v, at));
                let keys = choose|keys: Seq<Seq<char>>| #[trigger]
                    edit_at(here[k], value, v, at, keys);
                let longer = seq![key] + keys;
                assert(longer.skip(1) =~= keys);
                assert(edit_at(here[k], x, y, path, longer));
            }
        },
        _ => {
            assert forall|k: int| 0 <= k < here.len() implies edit_found(
                #[trigger] here[k],
                x,
                y,
                path,
            ) by {
                assert(edit_at(here[k], x, y, path, seq![key]));
            }
        },
    }
}

proof fn lemma_current_found(c: EntriesModel, d: EntriesModel, path: Seq<char>, n: nat)
    requires
        n <= c.len(),
        json::well_formed(JsonModel::Object(c)),
        json::well_formed(JsonModel::Object(d)),
    ensures
        edits_found(
            current_edits(c, d, path, n),
            JsonModel::Object(c),
            JsonModel::Object(d),
            path,
        ),
    decreases c, n + 1,
{
    if n > 0 {
        lemma_current_found(c, d, path, (n - 1) as nat);
        lemma_entry_found(c, d, path, n - 1);
        assert(current_edits(c, d, path, n) == current_edits(c, d, path, (n - 1) as nat)
            + entry_edits(c, d, path, n - 1));
    }
}

proof fn lemma_inserted_found(c: EntriesModel, d: EntriesModel, path: Seq<char>, n: nat)
    requires
        n <= d.len(),
        pairs::distinct_keys(d),
    ensures
        edits_found(
            inserted_edits(c, d, path, n),
            JsonModel::Object(c),
            JsonModel::Object(d),
            path,
        ),
    decreases n,
{
    if n > 0 {
        lemma_inserted_found(c, d, path, (n - 1) as nat);
        let key = d[n - 1].0;
        pairs::lemma_lookup_distinct(d, n - 1);
        lemma_one_key(c, d, path, key);
        if pairs::lookup(c, key) is None {
            let e = FieldEditModel::Insert {
                path: semantic::key_path(path, key),
                value: d[n - 1].1,
            };
            assert(edit_at(e, JsonModel::Object(c), JsonModel::Object(d), path, seq![key]));
            assert(edit_found(e, JsonModel::Object(c), JsonModel::Object(d), path));
        }
    }
}

/// An edit tells the truth: each is that of what the two objects hold under a
/// chain of keys, and its path is that of the keys.
pub proof fn law_edits_found(current: JsonModel, deployed: JsonModel, path: Seq<char>)
    requires
        current is Object,
        deployed is Object,
        json::well_formed(current),
        json::well_formed(deployed),
    ensures
        edits_found(field_edits(current, deployed, path), current, deployed, path),
    decreases current, 0nat,
{
    let c = current->Object_0;
    let d = deployed->Object_0;
    assert(current == JsonModel::Object(c) && deployed == JsonModel::Object(d));
    lemma_current_found(c, d, path, c.len());
    lemma_inserted_found(c, d, path, d.len());
}

proof fn lemma_current_contains(
    c: EntriesModel,
    d: EntriesModel,
    path: Seq<char>,
    n: nat,
    i: int,
    e: FieldEditModel,
)
    requires
        0 <= i < n <= c.len(),
        entry_edits(c, d, path, i).contains(e),
    ensures
        current_edits(c, d, path, n).contains(e),
    decreases n,
{
    let before = current_edits(c, d, path, (n - 1) as nat);
    let here = entry_edits(c, d, path, n - 1);
    assert(current_edits(c, d, path, n) == before + here);
    if i == n - 1 {
        let k = here.index_of(e);
        assert((before + here)[before.len() + k] == e);
    } else {
        lemma_current_contains(c, d, path, (n - 1) as nat, i, e);
        let k = before.index_of(e);
        assert((before + here)[k] == e);
    }
}

proof fn lemma_inserted_contains(
    c: EntriesModel,
    d: EntriesModel,
    path: Seq<char>,
    n: nat,
    i: int,
)
    requires
        0 <= i < n <= d.len(),
        pairs::lookup(c, d[i].0) is None,
    ensures
        inserted_edits(c, d, path, n).contains(
            FieldEditModel::Insert { path: semantic::key_path(path, d[i].0), value: d[i].1 },
        ),
    decreases n,
{
    let e = FieldEditModel::Insert { path: semantic::key_path(path, d[i].0), value: d[i].1 };
    let before = inserted_edits(c, d, path, (n - 1) as nat);
    let all = inserted_edits(c, d, path, n);
    if i == n - 1 {
        assert(all[before.len() as int] == e);
    } else {
        lemma_inserted_contains(c, d, path, (n - 1) as nat, i);
        let k = before.index_of(e);
        assert(all[k] == e);
    }
}

/// No edit is left out: what two objects hold under a chain of keys that they
/// share is edited wherever it differs.
pub proof fn law_edits_all(
    current: JsonModel,
    deployed: JsonModel,
    path: Seq<char>,
    keys: Seq<Seq<char>>,
    e: FieldEditModel,
)
    requires
        json::well_formed(current),
        json::well_formed(deployed),
        edit_at(e, current, deployed, path, keys),
    ensures
        field_edits(current, deployed, path).contains(e),
    decreases keys.len(),
{
    let c = current->Object_0;
    let d = deployed->Object_0;
    assert(current == JsonModel::Object(c) && deployed == JsonModel::Object(d));
    let key = keys[0];
    let rest = keys.skip(1);
    let at = semantic::key_path(path, key);
    let in_current = pairs::lemma_lookup(c, key);
    let in_deployed = pairs::lemma_lookup(d, key);
    let first = current_edits(c, d, path, c.len());
    let second = inserted_edits(c, d, path, d.len());
    if rest.len() == 0 {
        lemma_one_key(c, d, path, key);
        assert(keys =~= seq![key]);
    } else {
        let x = c[in_current].1;
        let y = d[in_deployed].1;
        assert(json::well_formed(x) && json::well_formed(y));
        assert(edit_at(e, x, y, at, rest));
        law_edits_all(x, y, at, rest, e);
        if json::json_equal(x, y) {
            law_no_edits(x, y, at);
        }
    }
    if pairs::lookup(c, key) is Some {
        let here = entry_edits(c, d, path, in_current);
        if rest.len() == 0 {
            assert(here[0] == e);
        }
        assert(here.contains(e));
        lemma_current_contains(c, d, path, c.len(), in_current, e);
        let k = first.index_of(e);
        assert((first + second)[k] == e);
    } else {
        lemma_inserted_contains(c, d, path, d.len(), in_deployed);
        let k = second.index_of(e);
        assert((first + second)[first.len() + k] == e);
    }
}

/// No two edits are at one path.
pub open spec fn paths_distinct(edits: Seq<FieldEditModel>) -> bool {
    forall|i: int, j: int|
        0 <= i < j < edits.len() ==> edit_path(#[trigger] edits[i]) != edit_path(
            #[trigger] edits[j],
        )
}

/// The part of an edit's path before its first dot.
spec fn first_key(e: FieldEditModel) -> Seq<char> {
    edit_path(e).take(text::first_of(edit_path(e), '.') as int)
}

/// Each edit is at a key, among the first `n`, or below it.
spec fn at_keys(edits: Seq<FieldEditModel>, entries: EntriesModel, n: int) -> bool {
    forall|i: int| 0 <= i < edits.len() ==> at_some_key(#[trigger] edits[i], entries, n)
}

spec fn at_some_key(e: FieldEditModel, entries: EntriesModel, n: int) -> bool {
    exists|k: int| 0 <= k < n && (#[trigger] entries[k]).0 == first_key(e)
}

proof fn lemma_first_key(key: Seq<char>, e: FieldEditModel)
    requires
        semantic::plain_key(key),
        edit_path(e) == key || exists|tail: Seq<char>| edit_path(e) == #[trigger] (key + "."@
            + tail),
    ensures
        first_key(e) == key,
{
    reveal_strlit(".");
    let path = edit_path(e);
    assert forall|i: int| 0 <= i < key.len() implies path[i] != '.' by {
        assert(path[i] == key[i]);
    }
    text::lemma_first_of(path, '.', key.len() as int);
    assert(path.take(key.len() as int) =~= key);
}

proof fn lemma_entry_distinct(c: EntriesModel, d: EntriesModel, i: int)
    requires
        0 <= i < c.len(),
        json::well_formed(JsonModel::Object(c)),
        json::well_formed(JsonModel::Object(d)),
        semantic::plain_keys(JsonModel::Object(c)),
        semantic::plain_keys(JsonModel::Object(d)),
    ensures
        paths_distinct(entry_edits(c, d, seq![], i)),
        forall|k: int|
            0 <= k < entry_edits(c, d, seq![], i).len() ==> first_key(
                #[trigger] entry_edits(c, d, seq![], i)[k],
            ) == c[i].0,
    decreases c, 0nat,
{
    let none = Seq::<char>::empty();
    assert(JsonModel::Object(c)->Object_0 == c);
    assert(JsonModel::Object(d)->Object_0 == d);
    let key = c[i].0;
    let value = c[i].1;
    let here = entry_edits(c, d, none, i);
    let found = pairs::lemma_lookup(d, key);
    assert(semantic::plain_key(key));
    assert(semantic::key_path(none, key) == key);
    match pairs::lookup(d, key) {
        Some(v) if !json::json_equal(value, v) && value is Object && v is Object => {
            assert(json::well_formed(d[found].1) && semantic::plain_keys(d[found].1));
            assert(json::well_formed(value) && semantic::plain_keys(value));
            law_edit_paths_distinct(value, v);
            lemma_edits_below(value, v, key);
            let inner = field_edits(value, v, none);
            assert(here == edits_below(key, inner));
            assert forall|k: int| 0 <= k < here.len() implies first_key(#[trigger] here[k])
                == key by {
                assert(here[k] == edit_below(key, inner[k]));
                assert(edit_path(here[k]) == key + "."@ + edit_path(inner[k]));
                lemma_first_key(key, here[k]);
            }
            assert forall|j: int, k: int| 0 <= j < k < here.len() implies edit_path(
                #[trigger] here[j],
            ) != edit_path(#[trigger] here[k]) by {
                let head = key + "."@;
                let a = edit_path(inner[j]);
                let b = edit_path(inner[k]);
                assert(here[j] == edit_below(key, inner[j]));
                assert(here[k] == edit_below(key, inner[k]));
                assert(edit_path(here[j]) == head + a);
                assert(edit_path(here[k]) == head + b);
                assert((head + a).skip(head.len() as int) =~= a);
                assert((head + b).skip(head.len() as int) =~= b);
            }
        },
        _ => {
            assert forall|k: int| 0 <= k < here.len() implies first_key(#[trigger] here[k])
                == key by {
                assert(edit_path(here[k]) == key);
                lemma_first_key(key, here[k]);
            }
        },
    }
}

proof fn lemma_current_distinct(c: EntriesModel, d: EntriesModel, n: nat)
    requires
        n <= c.len(),
        json::well_formed(JsonModel::Object(c)),
        json::well_formed(JsonModel::Object(d)),
        semantic::plain_keys(JsonModel::Object(c)),
        semantic::plain_keys(JsonModel::Object(d)),
    ensures
        paths_distinct(current_edits(c, d, seq![], n)),
        at_keys(current_edits(c, d, seq![], n), c, n as int),
    decreases c, n + 1,
{
    let none = Seq::<char>::empty();
    assert(JsonModel::Object(c)->Object_0 == c);
    if n > 0 {
        lemma_current_distinct(c, d, (n - 1) as nat);
        lemma_entry_distinct(c, d, n - 1);
        let before = current_edits(c, d, none, (n - 1) as nat);
        let here = entry_edits(c, d, none, n - 1);
        let all = current_edits(c, d, none, n);
        assert(all == before + here);
        assert forall|i: int| 0 <= i < all.len() implies at_some_key(
            #[trigger] all[i],
            c,
            n as int,
        ) by {
            if i < before.len() {
                assert(at_some_key(before[i], c, n - 1));
                let k = choose|k: int|
                    0 <= k < n - 1 && (#[trigger] c[k]).0 == first_key(before[i]);
                assert(c[k].0 == first_key(all[i]));
            } else {
                assert(all[i] == here[i - before.len()]);
                assert(c[n - 1].0 == first_key(all[i]));
            }
        }
        assert forall|i: int, j: int| 0 <= i < j < all.len() implies edit_path(
            #[trigger] all[i],
        ) != edit_path(#[trigger] all[j]) by {
            if j < before.len() {
                assert(all[i] == before[i] && all[j] == before[j]);
            } else if i >= before.len() {
                assert(all[i] == here[i - before.len()] && all[j] == here[j - before.len()]);
            } else {
                assert(all[i] == before[i] && all[j] == here[j - before.len()]);
                assert(at_some_key(before[i], c, n - 1));
                let k = choose|k: int|
                    0 <= k < n - 1 && (#[trigger] c[k]).0 == first_key(before[i]);
                assert(c[k].0 != c[n - 1].0);
            }
        }
    }
}

proof fn lemma_inserted_distinct(c: EntriesModel, d: EntriesModel, n: nat)
    requires
        n <= d.len(),
        pairs::distinct_keys(d),
        semantic::plain_keys(JsonModel::Object(d)),
    ensures
        paths_distinct(inserted_edits(c, d, seq![], n)),
        forall|i: int|
            0 <= i < inserted_edits(c, d, seq![], n).len() ==> {
                let e = #[trigger] inserted_edits(c, d, seq![], n)[i];
                &&& pairs::lookup(c, first_key(e)) is None
                &&& edit_path(e) == first_key(e)
                &&& at_some_key(e, d, n as int)
            },
    decreases n,
{
    let none = Seq::<char>::empty();
    assert(JsonModel::Object(d)->Object_0 == d);
    if n > 0 {
        lemma_inserted_distinct(c, d, (n - 1) as nat);
        let key = d[n - 1].0;
        let before = inserted_edits(c, d, none, (n - 1) as nat);
        let all = inserted_edits(c, d, none, n);
        assert(semantic::plain_key(key));
        assert(semantic::key_path(none, key) == key);
        let e = FieldEditModel::Insert { path: key, value: d[n - 1].1 };
        lemma_first_key(key, e);
        assert forall|i: int| 0 <= i < all.len() implies {
            let e = #[trigger] all[i];
            &&& pairs::lookup(c, first_key(e)) is None
            &&& edit_path(e) == first_key(e)
            &&& at_some_key(e, d, n as int)
        } by {
            if i < before.len() {
                assert(all[i] == before[i]);
                assert(at_some_key(before[i], d, n - 1));
                let k = choose|k: int|
                    0 <= k < n - 1 && (#[trigger] d[k]).0 == first_key(before[i]);
                assert(d[k].0 == first_key(all[i]));
            } else {
                assert(d[n - 1].0 == first_key(all[i]));
            }
        }
        assert forall|i: int, j: int| 0 <= i < j < all.len() implies edit_path(
            #[trigger] all[i],
        ) != edit_path(#[trigger] all[j]) by {
            assert(all[i] == before[i]);
            if j < before.len() {
                assert(all[j] == before[j]);
            } else {
                assert(at_some_key(before[i], d, n - 1));
                let k = choose|k: int|
                    0 <= k < n - 1 && (#[trigger] d[k]).0 == first_key(before[i]);
                assert(d[k].0 != d[n - 1].0);
            }
        }
    }
}

/// No path is edited twice, as long as the keys can stand in dotted paths.
pub proof fn law_edit_paths_distinct(current: JsonModel, deployed: JsonModel)
    requires
        current is Object,
        deployed is Object,
        json::well_formed(current),
        json::well_formed(deployed),
        semantic::plain_keys(current),
        semantic::plain_keys(deployed),
    ensures
        paths_distinct(field_edits(current, deployed, seq![])),
    decreases current, 0nat,
{
    let none = Seq::<char>::empty();
    let c = current->Object_0;
    let d = deployed->Object_0;
    assert(current == JsonModel::Object(c) && deployed == JsonModel::Object(d));
    lemma_current_distinct(c, d, c.len());
    lemma_inserted_distinct(c, d, d.len());
    let first = current_edits(c, d, none, c.len());
    let second = inserted_edits(c, d, none, d.len());
    let all = field_edits(current, deployed, none);
    assert(all == first + second);
    assert forall|i: int, j: int| 0 <= i < j < all.len() implies edit_path(#[trigger] all[i])
        != edit_path(#[trigger] all[j]) by {
        if j < first.len() {
            assert(all[i] == first[i] && all[j] == first[j]);
        } else if i >= first.len() {
            assert(all[i] == second[i - first.len()] && all[j] == second[j - first.len()]);
        } else {
            assert(all[i] == first[i] && all[j] == second[j - first.len()]);
            assert(at_some_key(first[i], c, c.len() as int));
            let k = choose|k: int|
                0 <= k < c.len() && (#[trigger] c[k]).0 == first_key(first[i]);
            pairs::lemma_lookup_distinct(c, k);
        }
    }
}

// ---------------------------------------------------------------------------
// Laws of the edits for chosen keys
// ---------------------------------------------------------------------------

/// A key is looked up as it stands, dots and all, before it is taken apart at its
/// first dot.
pub proof fn law_path_value(
    entries: EntriesModel,
    key: Seq<char>,
    rest: Seq<char>,
)
    requires
        forall|i: int| 0 <= i < key.len() ==> key[i] != '.',
    ensures
        pairs::lookup(entries, key) matches Some(x) ==> path_value(
            JsonModel::Object(entries),
            key,
        ) == Some(x),
        pairs::lookup(entries, key) is None ==> path_value(JsonModel::Object(entries), key) is None,
        pairs::lookup(entries, key + seq!['.'] + rest) matches Some(x) ==> path_value(
            JsonModel::Object(entries),
            key + seq!['.'] + rest,
        ) == Some(x),
        pairs::lookup(entries, key + seq!['.'] + rest) is None ==> (pairs::lookup(
            entries,
            key,
        ) matches Some(x) ==> path_value(JsonModel::Object(entries), key + seq!['.'] + rest)
            == path_value(x, rest)),
{
    let path = key + seq!['.'] + rest;
    text::lemma_first_of(path, '.', key.len() as int);
    assert(path.take(key.len() as int) =~= key);
    assert(path.skip(key.len() as int + 1) =~= rest);
    text::lemma_first_of(key, '.', key.len() as int);
}

/// The kind that is given for a change is that of the sides that have a value at
/// its path.
pub open spec fn told_truly(
    current: JsonModel,
    deployed: JsonModel,
    changes: Seq<semantic::ChangeModel>,
) -> bool {
    forall|i: int|
        0 <= i < changes.len() ==> {
            let c = #[trigger] changes[i];
            let ours = path_value(current, c.path) is Some;
            let theirs = path_value(deployed, c.path) is Some;
            match c.change_type {
                KeyChangeType::Added => ours && !theirs,
                KeyChangeType::Removed => theirs && !ours,
                KeyChangeType::Modified => ours && theirs,
            }
        }
}

proof fn lemma_given_truly(
    current: JsonModel,
    deployed: JsonModel,
    changes: Seq<semantic::ChangeModel>,
    path: Seq<char>,
)
    requires
        told_truly(current, deployed, changes),
    ensures
        change_type_of(current, deployed, changes, path) == change_type_of(
            current,
            deployed,
            seq![],
            path,
        ),
    decreases changes.len(),
{
    let none = Seq::<semantic::ChangeModel>::empty();
    assert(given_type(none, path) is None);
    if changes.len() > 0 {
        let before = changes.drop_last();
        if changes.last().path == path {
            assert(changes[changes.len() - 1].path == path);
        } else {
            assert forall|i: int| 0 <= i < before.len() implies {
                let c = #[trigger] before[i];
                let ours = path_value(current, c.path) is Some;
                let theirs = path_value(deployed, c.path) is Some;
                match c.change_type {
                    KeyChangeType::Added => ours && !theirs,
                    KeyChangeType::Removed => theirs && !ours,
                    KeyChangeType::Modified => ours && theirs,
                }
            } by {
                assert(before[i] == changes[i]);
            }
            lemma_given_truly(current, deployed, before, path);
        }
    }
}

/// A pulled key comes to hold what is deployed at its path: it is set where both
/// sides have it, inserted where only the deployed side has it, and deleted where
/// only the order has it. Where neither has it, nothing is done. The structure
/// changes exactly where one side alone has the key.
pub proof fn law_key_edit(
    current: JsonModel,
    deployed: JsonModel,
    changes: Seq<semantic::ChangeModel>,
    path: Seq<char>,
)
    requires
        told_truly(current, deployed, changes),
    ensures
        ({
            let ours = path_value(current, path);
            let theirs = path_value(deployed, path);
            let edit = key_edit(current, deployed, changes, path);
            &&& ours is Some && theirs is Some ==> edit == Some(
                FieldEditModel::Modify { path, new_value: theirs->0 },
            )
            &&& ours is None && theirs is Some ==> edit == Some(
                FieldEditModel::Insert { path, value: theirs->0 },
            )
            &&& ours is Some && theirs is None ==> edit == Some(FieldEditModel::Delete { path })
            &&& ours is None && theirs is None ==> edit is None
            &&& structural(current, deployed, changes, path) <==> (ours is Some) != (theirs is Some)
        }),
{
    lemma_given_truly(current, deployed, changes, path);
    let none = Seq::<semantic::ChangeModel>::empty();
    assert(given_type(none, path) is None);
}

/// The edits for pulled keys are those of the keys, each once and in their order.
pub proof fn law_key_edits(
    current: JsonModel,
    deployed: JsonModel,
    changes: Seq<semantic::ChangeModel>,
    pulled: Seq<Seq<char>>,
    n: nat,
)
    requires
        n <= pulled.len(),
        forall|i: int|
            0 <= i < n ==> key_edit(current, deployed, changes, #[trigger] pulled[i]) is Some,
    ensures
        key_edits(current, deployed, changes, pulled, n).len() == n,
        forall|i: int|
            0 <= i < n ==> Some(#[trigger] key_edits(current, deployed, changes, pulled, n)[i])
                == key_edit(current, deployed, changes, pulled[i]),
    decreases n,
{
    if n > 0 {
        law_key_edits(current, deployed, changes, pulled, (n - 1) as nat);
        let before = key_edits(current, deployed, changes, pulled, (n - 1) as nat);
        let all = key_edits(current, deployed, changes, pulled, n);
        assert(key_edit(current, deployed, changes, pulled[n - 1]) is Some);
        assert forall|i: int| 0 <= i < n implies Some(#[trigger] all[i]) == key_edit(
            current,
            deployed,
            changes,
            pulled[i],
        ) by {
            if i < n - 1 {
                assert(all[i] == before[i]);
            }
        }
    }
}

} // verus!
