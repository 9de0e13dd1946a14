//! Laying chosen deployed values over the current ones.
use crate::diff::semantic;
use crate::json;
use crate::json::{EntriesModel, Json, JsonModel};
use crate::pairs;
use crate::text;
use vstd::prelude::*;
use vstd::string::*;

verus! {

/// A path, or a path below it, is among the pulled ones.
pub open spec fn reaches(pulled: Seq<Seq<char>>, path: Seq<char>) -> bool {
    exists|i: int|
        0 <= i < pulled.len() && (#[trigger] pulled[i] == path || text::begins(
            pulled[i],
            path + "."@,
        ))
}

/// What a pull takes of a value at a path that only the deployed side has: all
/// of it where the path is pulled; where only paths below it are, the entries
/// that those reach.
pub open spec fn picked(v: JsonModel, pulled: Seq<Seq<char>>, path: Seq<char>) -> Option<JsonModel>
    decreases v, 0nat,
{
    if pulled.contains(path) {
        Some(v)
    } else if reaches(pulled, path) {
        match v {
            JsonModel::Object(d) => Some(
                JsonModel::Object(picked_entries(d, pulled, path, d.len())),
            ),
            _ => None,
        }
    } else {
        None
    }
}

/// What a pull takes of the first `n` entries of an object at a path.
pub open spec fn picked_entries(
    d: EntriesModel,
    pulled: Seq<Seq<char>>,
    path: Seq<char>,
    n: nat,
) -> EntriesModel
    decreases d, n,
{
    if n == 0 || n > d.len() {
        seq![]
    } else {
        let before = picked_entries(d, pulled, path, (n - 1) as nat);
        let key = d[n - 1].0;
        match picked(d[n - 1].1, pulled, semantic::key_path(path, key)) {
            Some(v) => pairs::put(before, key, v),
            None => before,
        }
    }
}

/// The current value with the deployed values of the pulled paths laid over it.
/// A pulled path takes the deployed value whole; of two objects, the entries
/// are treated one by one.
pub open spec fn overlaid(
    current: JsonModel,
    deployed: JsonModel,
    pulled: Seq<Seq<char>>,
    path: Seq<char>,
) -> JsonModel
    decreases current, 0nat,
{
    if path.len() > 0 && pulled.contains(path) {
        deployed
    } else {
        match (current, deployed) {
            (JsonModel::Object(c), JsonModel::Object(d)) => JsonModel::Object(
                overlaid_new(
                    overlaid_current(c, d, pulled, path, c.len()),
                    c,
                    d,
                    pulled,
                    path,
                    d.len(),
                ),
            ),
            _ => if pulled.len() > 0 && path.len() == 0 {
                deployed
            } else {
                current
            },
        }
    }
}

/// What the first `n` current entries contribute.
pub open spec fn overlaid_current(
    c: EntriesModel,
    d: EntriesModel,
    pulled: Seq<Seq<char>>,
    path: Seq<char>,
    n: nat,
) -> EntriesModel
    decreases c, n,
{
    if n == 0 || n > c.len() {
        seq![]
    } else {
        let before = overlaid_current(c, d, pulled, path, (n - 1) as nat);
        let key = c[n - 1].0;
        pairs::put(
            before,
            key,
            match pairs::lookup(d, key) {
                Some(v) => overlaid(c[n - 1].1, v, pulled, semantic::key_path(path, key)),
                None => c[n - 1].1,
            },
        )
    }
}

/// What the first `n` deployed entries add: of each key that is not current,
/// what the pull takes of it.
pub open spec fn overlaid_new(
    start: EntriesModel,
    c: EntriesModel,
    d: EntriesModel,
    pulled: Seq<Seq<char>>,
    path: Seq<char>,
    n: nat,
) -> EntriesModel
    decreases n,
{
    if n == 0 || n > d.len() {
        start
    } else {
        let before = overlaid_new(start, c, d, pulled, path, (n - 1) as nat);
        let key = d[n - 1].0;
        match (
            pairs::lookup(c, key),
            picked(d[n - 1].1, pulled, semantic::key_path(path, key)),
        ) {
            (None, Some(v)) => pairs::put(before, key, v),
            _ => before,
        }
    }
}

/// Whether a path, or a path below it, is among the pulled ones.
pub fn is_reached(pulled: &[String], path: &str) -> (r: bool)
    ensures
        r == reaches(text::texts(pulled@), path@),
{
    let ghost p = text::texts(pulled@);
    let below = text::concat2(path, ".");
    let mut i: usize = 0;
    while i < pulled.len()
        invariant
            i <= pulled@.len(),
            p == text::texts(pulled@),
            below@ == path@ + "."@,
            forall|k: int|
                0 <= k < i ==> !(#[trigger] p[k] == path@ || text::begins(p[k], path@ + "."@)),
        decreases pulled@.len() - i,
    {
        assert(p[i as int] == pulled@[i as int]@);
        if text::str_eq(&pulled[i], path) || text::starts_with(&pulled[i], &below) {
            return true;
        }
        i = i + 1;
    }
    false
}

/// Takes what a pull takes of a value at a path that only the deployed side has.
pub fn pick(value: &Json, pulled_keys: &[String], path: &str) -> (r: Option<Json>)
    ensures
        semantic::optional_model(r) == picked(value@, text::texts(pulled_keys@), path@),
    decreases value,
{
    broadcast use {json::lemma_array_model, json::lemma_object_model};

    let ghost p = text::texts(pulled_keys@);
    if text::has_text(pulled_keys, path) {
        return Some(value.copy());
    }
    if !is_reached(pulled_keys, path) {
        return None;
    }
    match value {
        Json::Object(entries) => {
            let ghost d = json::entries_model(entries@);
            let mut out: Vec<(String, Json)> = Vec::new();
            assert(json::entries_model(out@) =~= seq![]);
            let mut i: usize = 0;
            while i < entries.len()
                invariant
                    i <= entries@.len(),
                    value == Json::Object(*entries),
                    d == json::entries_model(entries@),
                    p == text::texts(pulled_keys@),
                    json::entries_model(out@) == picked_entries(d, p, path@, i as nat),
                decreases entries@.len() - i,
            {
                assert(d[i as int] == (entries@[i as int].0@, entries@[i as int].1@));
                assert(decreases_to!(value => value->Object_0));
                assert(decreases_to!(entries@ => entries@[i as int]));
                assert(decreases_to!(entries@[i as int] => entries@[i as int].1));
                let at = semantic::join_path(path, &entries[i].0);
                match pick(&entries[i].1, pulled_keys, &at) {
                    Some(v) => json::put_entry(&mut out, &entries[i].0, v),
                    None => {},
                }
                i = i + 1;
            }
            Some(Json::Object(out))
        },
        _ => None,
    }
}

/// Lays the deployed values of pulled paths over the current value at a path.
pub fn selective_overlay(
    current: &Json,
    deployed: &Json,
    pulled_keys: &[String],
    path: &str,
) -> (r: Json)
    ensures
        r@ == overlaid(current@, deployed@, text::texts(pulled_keys@), path@),
    decreases current,
{
    broadcast use {json::lemma_array_model, json::lemma_object_model};

    let ghost p = text::texts(pulled_keys@);
    proof {
        reveal_strlit("");
        assert(path@.len() == 0 <==> path@ =~= ""@);
    }
    let at_top = text::str_eq(path, "");
    if !at_top && text::has_text(pulled_keys, path) {
        return deployed.copy();
    }
    match (current, deployed) {
        (Json::Object(cur_obj), Json::Object(dep_obj)) => {
            let ghost c = json::entries_model(cur_obj@);
            let ghost d = json::entries_model(dep_obj@);
            let mut out: Vec<(String, Json)> = Vec::new();
            assert(json::entries_model(out@) =~= seq![]);
            let mut i: usize = 0;
            while i < cur_obj.len()
                invariant
                    i <= cur_obj@.len(),
                    current == Json::Object(*cur_obj),
                    c == json::entries_model(cur_obj@),
                    d == json::entries_model(dep_obj@),
                    p == text::texts(pulled_keys@),
                    json::entries_model(out@) == overlaid_current(c, d, p, path@, i as nat),
                decreases cur_obj@.len() - i,
            {
                assert(c[i as int] == (cur_obj@[i as int].0@, cur_obj@[i as int].1@));
                assert(decreases_to!(current => current->Object_0));
                assert(decreases_to!(cur_obj@ => cur_obj@[i as int]));
                assert(decreases_to!(cur_obj@[i as int] => cur_obj@[i as int].1));
                let key = &cur_obj[i].0;
                let value = match json::find_key(dep_obj, key) {
                    Some(k) => {
                        let at = semantic::join_path(path, key);
                        selective_overlay(&cur_obj[i].1, &dep_obj[k].1, pulled_keys, &at)
                    },
                    None => cur_obj[i].1.copy(),
                };
                json::put_entry(&mut out, key, value);
                i = i + 1;
            }
            let ghost start = json::entries_model(out@);
            let mut k: usize = 0;
            while k < dep_obj.len()
                invariant
                    k <= dep_obj@.len(),
                    c == json::entries_model(cur_obj@),
                    d == json::entries_model(dep_obj@),
                    p == text::texts(pulled_keys@),
                    json::entries_model(out@) == overlaid_new(start, c, d, p, path@, k as nat),
                decreases dep_obj@.len() - k,
            {
                assert(d[k as int] == (dep_obj@[k as int].0@, dep_obj@[k as int].1@));
                let key = &dep_obj[k].0;
                match json::find_key(cur_obj, key) {
                    Some(_) => {},
                    None => {
                        let at = semantic::join_path(path, key);
                        match pick(&dep_obj[k].1, pulled_keys, &at) {
                            Some(v) => json::put_entry(&mut out, key, v),
                            None => {},
                        }
                    },
                }
                k = k + 1;
            }
            Json::Object(out)
        },
        _ => if pulled_keys.len() > 0 && at_top {
            deployed.copy()
        } else {
            current.copy()
        },
    }
}

/// The current value with the deployed values of the pulled keys.
pub fn build_selective_deployed(current: &Json, deployed: &Json, pulled_keys: &[String]) -> (r: Json)
    ensures
        r@ == overlaid(current@, deployed@, text::texts(pulled_keys@), seq![]),
{
    proof {
        reveal_strlit("");
        assert(""@ =~= Seq::<char>::empty());
    }
    selective_overlay(current, deployed, pulled_keys, "")
}

// ---------------------------------------------------------------------------
// Laws of the overlay
// ---------------------------------------------------------------------------

/// Where nothing is pulled, the current value stays as it is.
pub proof fn law_nothing_pulled(current: JsonModel, deployed: JsonModel, path: Seq<char>)
    requires
        json::well_formed(current),
    ensures
        overlaid(current, deployed, seq![], path) == current,
    decreases current, 1nat,
{
    let none = Seq::<Seq<char>>::empty();
    assert(!none.contains(path));
    match (current, deployed) {
        (JsonModel::Object(c), JsonModel::Object(d)) => {
            assert(current->Object_0 == c);
            lemma_nothing_pulled(c, d, path, c.len());
            assert(c.take(c.len() as int) =~= c);
            lemma_nothing_new(c, c, d, path, d.len());
        },
        _ => {},
    }
}

proof fn lemma_nothing_pulled(c: EntriesModel, d: EntriesModel, path: Seq<char>, n: nat)
    requires
        n <= c.len(),
        json::well_formed(JsonModel::Object(c)),
    ensures
        overlaid_current(c, d, seq![], path, n) == c.take(n as int),
    decreases c, n,
{
    assert(JsonModel::Object(c)->Object_0 == c);
    if n > 0 {
        lemma_nothing_pulled(c, d, path, (n - 1) as nat);
        let before = c.take(n - 1);
        let entry = c[n - 1];
        match pairs::lookup(d, entry.0) {
            Some(v) => {
                law_nothing_pulled(entry.1, v, semantic::key_path(path, entry.0));
            },
            None => {},
        }
        let at = pairs::lemma_lookup(before, entry.0);
        if pairs::lookup(before, entry.0) is Some {
            assert(before[at] == c[at]);
            assert(c[at].0 != c[n - 1].0);
        }
        pairs::lemma_put_new(before, entry.0, entry.1);
        assert(before.push(entry) =~= c.take(n as int));
    } else {
        assert(c.take(0) =~= seq![]);
    }
}

proof fn lemma_nothing_new(
    start: EntriesModel,
    c: EntriesModel,
    d: EntriesModel,
    path: Seq<char>,
    n: nat,
)
    requires
        n <= d.len(),
    ensures
        overlaid_new(start, c, d, seq![], path, n) == start,
    decreases n,
{
    if n > 0 {
        lemma_nothing_new(start, c, d, path, (n - 1) as nat);
        assert(!reaches(seq![], semantic::key_path(path, d[n - 1].0)));
    }
}

/// What an overlay of two objects holds under a key.
pub open spec fn overlaid_under(
    c: EntriesModel,
    d: EntriesModel,
    pulled: Seq<Seq<char>>,
    path: Seq<char>,
    key: Seq<char>,
) -> Option<JsonModel> {
    let at = semantic::key_path(path, key);
    match (pairs::lookup(c, key), pairs::lookup(d, key)) {
        (Some(current), Some(deployed)) => Some(overlaid(current, deployed, pulled, at)),
        (Some(current), None) => Some(current),
        (None, Some(deployed)) => picked(deployed, pulled, at),
        (None, None) => None,
    }
}

proof fn lemma_overlaid_current(
    c: EntriesModel,
    d: EntriesModel,
    pulled: Seq<Seq<char>>,
    path: Seq<char>,
    n: nat,
    key: Seq<char>,
)
    requires
        pairs::distinct_keys(c),
        n <= c.len(),
    ensures
        pairs::lookup(overlaid_current(c, d, pulled, path, n), key) == if pairs::lookup(
            c.take(n as int),
            key,
        ) is Some {
            overlaid_under(c, d, pulled, path, key)
        } else {
            None
        },
    decreases n,
{
    if n > 0 {
        lemma_overlaid_current(c, d, pulled, path, (n - 1) as nat, key);
        pairs::lemma_take_lookup(c, n as int, key);
        pairs::lemma_lookup_distinct(c, n - 1);
        let before = overlaid_current(c, d, pulled, path, (n - 1) as nat);
        let here = c[n - 1].0;
        let value = match pairs::lookup(d, here) {
            Some(v) => overlaid(c[n - 1].1, v, pulled, semantic::key_path(path, here)),
            None => c[n - 1].1,
        };
        pairs::lemma_put_lookup(before, here, value, key);
    } else {
        assert(c.take(0).len() == 0);
    }
}

proof fn lemma_overlaid_new(
    start: EntriesModel,
    c: EntriesModel,
    d: EntriesModel,
    pulled: Seq<Seq<char>>,
    path: Seq<char>,
    n: nat,
    key: Seq<char>,
)
    requires
        pairs::distinct_keys(d),
        n <= d.len(),
    ensures
        pairs::lookup(overlaid_new(start, c, d, pulled, path, n), key) == match (
            pairs::lookup(c, key),
            taken_of(d.take(n as int), pulled, path, key),
        ) {
            (None, Some(v)) => Some(v),
            _ => pairs::lookup(start, key),
        },
    decreases n,
{
    if n > 0 {
        lemma_overlaid_new(start, c, d, pulled, path, (n - 1) as nat, key);
        pairs::lemma_take_lookup(d, n as int, key);
        pairs::lemma_lookup_distinct(d, n - 1);
        let before = overlaid_new(start, c, d, pulled, path, (n - 1) as nat);
        let here = d[n - 1].0;
        if here == key {
            assert(pairs::lookup(d.take(n - 1), key) is None) by {
                let at = pairs::lemma_lookup(d.take(n - 1), key);
                if pairs::lookup(d.take(n - 1), key) is Some {
                    assert(d.take(n - 1)[at] == d[at]);
                    assert(d[at].0 != d[n - 1].0);
                }
            }
        }
        match picked(d[n - 1].1, pulled, semantic::key_path(path, here)) {
            Some(v) => {
                pairs::lemma_put_lookup(before, here, v, key);
            },
            None => {},
        }
    } else {
        assert(d.take(0).len() == 0);
    }
}

/// What a pull takes of the value under a key.
spec fn taken_of(
    d: EntriesModel,
    pulled: Seq<Seq<char>>,
    path: Seq<char>,
    key: Seq<char>,
) -> Option<JsonModel> {
    match pairs::lookup(d, key) {
        Some(v) => picked(v, pulled, semantic::key_path(path, key)),
        None => None,
    }
}

/// Below a key that only the deployed side has, and that a longer pulled path
/// reaches, a pull is laid over an empty object.
pub proof fn law_picked(d: EntriesModel, pulled: Seq<Seq<char>>, path: Seq<char>)
    requires
        path.len() > 0,
        !pulled.contains(path),
        reaches(pulled, path),
    ensures
        picked(JsonModel::Object(d), pulled, path) == Some(
            overlaid(JsonModel::Object(seq![]), JsonModel::Object(d), pulled, path),
        ),
{
    lemma_picked(d, pulled, path, d.len());
    let none = Seq::<(Seq<char>, JsonModel)>::empty();
    assert(overlaid_current(none, d, pulled, path, 0) == none);
}

proof fn lemma_picked(d: EntriesModel, pulled: Seq<Seq<char>>, path: Seq<char>, n: nat)
    requires
        n <= d.len(),
    ensures
        picked_entries(d, pulled, path, n) == overlaid_new(seq![], seq![], d, pulled, path, n),
    decreases n,
{
    if n > 0 {
        lemma_picked(d, pulled, path, (n - 1) as nat);
        let none = Seq::<(Seq<char>, JsonModel)>::empty();
        assert(pairs::lookup(none, d[n - 1].0) is None);
    }
}

/// What an overlay of two objects holds under each key: a key that only the
/// current side has is kept; of one that only the deployed side has, what the
/// pull takes of it; a key of both is overlaid in turn.
pub proof fn law_overlay(
    c: EntriesModel,
    d: EntriesModel,
    pulled: Seq<Seq<char>>,
    path: Seq<char>,
    key: Seq<char>,
)
    requires
        pairs::distinct_keys(c),
        pairs::distinct_keys(d),
        path.len() == 0 || !pulled.contains(path),
    ensures
        overlaid(JsonModel::Object(c), JsonModel::Object(d), pulled, path) is Object,
        pairs::lookup(
            overlaid(JsonModel::Object(c), JsonModel::Object(d), pulled, path)->Object_0,
            key,
        ) == overlaid_under(c, d, pulled, path, key),
{
    let start = overlaid_current(c, d, pulled, path, c.len());
    lemma_overlaid_current(c, d, pulled, path, c.len(), key);
    lemma_overlaid_new(start, c, d, pulled, path, d.len(), key);
    assert(c.take(c.len() as int) =~= c);
    assert(d.take(d.len() as int) =~= d);
}

/// A pulled key of the top level takes its deployed value.
pub proof fn law_pulled_key(
    c: EntriesModel,
    d: EntriesModel,
    pulled: Seq<Seq<char>>,
    key: Seq<char>,
)
    requires
        pairs::distinct_keys(c),
        pairs::distinct_keys(d),
        key.len() > 0,
        pulled.contains(key),
        pairs::lookup(d, key) is Some,
    ensures
        pairs::lookup(
            overlaid(JsonModel::Object(c), JsonModel::Object(d), pulled, seq![])->Object_0,
            key,
        ) == pairs::lookup(d, key),
{
    law_overlay(c, d, pulled, seq![], key);
    let i = choose|i: int| 0 <= i < pulled.len() && pulled[i] == key;
    assert(pulled[i] == key);
    assert(reaches(pulled, key));
}

} // verus!
