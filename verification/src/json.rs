//! Structured configuration values.
use crate::pairs;
use crate::text;
use vstd::prelude::*;
use vstd::string::*;

verus! {

/// A structured value. A number is held as the text that it is printed with,
/// and the entries of an object stand in the order in which they were read.
#[derive(Debug)]
pub enum Json {
    Null,
    Bool(bool),
    Number(String),
    Text(String),
    Array(Vec<Json>),
    Object(Vec<(String, Json)>),
}

/// A structured value as mathematics sees it.
pub enum JsonModel {
    Null,
    Bool(bool),
    Number(Seq<char>),
    Text(Seq<char>),
    Array(Seq<JsonModel>),
    Object(Seq<(Seq<char>, JsonModel)>),
}

/// The entries of an object, keys in order.
pub type EntriesModel = Seq<(Seq<char>, JsonModel)>;

impl Json {
    pub open spec fn model(&self) -> JsonModel
        decreases self,
    {
        match self {
            Json::Null => JsonModel::Null,
            Json::Bool(b) => JsonModel::Bool(*b),
            Json::Number(t) => JsonModel::Number(t@),
            Json::Text(t) => JsonModel::Text(t@),
            Json::Array(items) => JsonModel::Array(
                Seq::new(
                    items@.len(),
                    |i: int|
                        if 0 <= i < items@.len() {
                            items@[i].model()
                        } else {
                            JsonModel::Null
                        },
                ),
            ),
            Json::Object(entries) => JsonModel::Object(
                Seq::new(
                    entries@.len(),
                    |i: int|
                        if 0 <= i < entries@.len() {
                            (entries@[i].0@, entries@[i].1.model())
                        } else {
                            (seq![], JsonModel::Null)
                        },
                ),
            ),
        }
    }
}

impl View for Json {
    type V = JsonModel;

    open spec fn view(&self) -> JsonModel {
        self.model()
    }
}

/// What a list of values holds.
pub open spec fn items_model(items: Seq<Json>) -> Seq<JsonModel> {
    items.map_values(|v: Json| v@)
}

/// What the entries of an object hold.
pub open spec fn entries_model(entries: Seq<(String, Json)>) -> EntriesModel {
    entries.map_values(|e: (String, Json)| (e.0@, e.1@))
}

pub broadcast proof fn lemma_array_model(items: Vec<Json>)
    ensures
        #[trigger] Json::Array(items).model() == JsonModel::Array(items_model(items@)),
{
    assert(Json::Array(items).model()->Array_0 =~= items_model(items@));
}

pub broadcast proof fn lemma_object_model(entries: Vec<(String, Json)>)
    ensures
        #[trigger] Json::Object(entries).model() == JsonModel::Object(entries_model(entries@)),
{
    assert(Json::Object(entries).model()->Object_0 =~= entries_model(entries@));
}

/// The two texts that a number equal to zero with a fraction is printed with.
pub open spec fn zero_fraction(t: Seq<char>) -> bool {
    t == "0.0"@ || t == "-0.0"@
}

/// Numbers are equal when they are printed alike; the two zeros with a
/// fraction are equal as well.
pub open spec fn number_equal(a: Seq<char>, b: Seq<char>) -> bool {
    a == b || (zero_fraction(a) && zero_fraction(b))
}

/// Equality of values. The order of an object's entries does not count.
pub open spec fn json_equal(a: JsonModel, b: JsonModel) -> bool
    decreases a,
{
    match (a, b) {
        (JsonModel::Null, JsonModel::Null) => true,
        (JsonModel::Bool(x), JsonModel::Bool(y)) => x == y,
        (JsonModel::Number(x), JsonModel::Number(y)) => number_equal(x, y),
        (JsonModel::Text(x), JsonModel::Text(y)) => x == y,
        (JsonModel::Array(x), JsonModel::Array(y)) => {
            &&& x.len() == y.len()
            &&& forall|i: int| 0 <= i < x.len() ==> json_equal(#[trigger] x[i], y[i])
        },
        (JsonModel::Object(x), JsonModel::Object(y)) => {
            &&& x.len() == y.len()
            &&& forall|i: int|
                0 <= i < x.len() ==> {
                    &&& pairs::lookup(y, (#[trigger] x[i]).0) is Some
                    &&& json_equal(x[i].1, pairs::lookup(y, x[i].0)->0)
                }
        },
        _ => false,
    }
}

/// In no object, at any depth, does a key occur twice.
pub open spec fn well_formed(v: JsonModel) -> bool
    decreases v,
{
    match v {
        JsonModel::Array(items) => forall|i: int|
            0 <= i < items.len() ==> well_formed(#[trigger] items[i]),
        JsonModel::Object(entries) => {
            &&& pairs::distinct_keys(entries)
            &&& forall|i: int| 0 <= i < entries.len() ==> well_formed((#[trigger] entries[i]).1)
        },
        _ => true,
    }
}

/// Every value whose keys are distinct equals itself.
pub proof fn law_equal_reflexive(v: JsonModel)
    requires
        well_formed(v),
    ensures
        json_equal(v, v),
    decreases v,
{
    match v {
        JsonModel::Array(items) => {
            assert forall|i: int| 0 <= i < items.len() implies json_equal(
                #[trigger] items[i],
                items[i],
            ) by {
                law_equal_reflexive(items[i]);
            }
        },
        JsonModel::Object(entries) => {
            assert forall|i: int| 0 <= i < entries.len() implies {
                &&& pairs::lookup(entries, (#[trigger] entries[i]).0) is Some
                &&& json_equal(entries[i].1, pairs::lookup(entries, entries[i].0)->0)
            } by {
                pairs::lemma_lookup_distinct(entries, i);
                law_equal_reflexive(entries[i].1);
            }
        },
        _ => {},
    }
}

/// Equality of values whose keys are distinct holds both ways.
pub proof fn law_equal_symmetric(a: JsonModel, b: JsonModel)
    requires
        well_formed(a),
        well_formed(b),
        json_equal(a, b),
    ensures
        json_equal(b, a),
    decreases a,
{
    match (a, b) {
        (JsonModel::Array(x), JsonModel::Array(y)) => {
            assert(a->Array_0 == x && b->Array_0 == y);
            assert forall|i: int| 0 <= i < y.len() implies json_equal(#[trigger] y[i], x[i]) by {
                assert(json_equal(x[i], y[i]));
                law_equal_symmetric(x[i], y[i]);
            }
        },
        (JsonModel::Object(x), JsonModel::Object(y)) => {
            assert(a->Object_0 == x && b->Object_0 == y);
            pairs::lemma_same_keys(x, y);
            assert forall|j: int| 0 <= j < y.len() implies {
                &&& pairs::lookup(x, (#[trigger] y[j]).0) is Some
                &&& json_equal(y[j].1, pairs::lookup(x, y[j].0)->0)
            } by {
                let i = pairs::lemma_lookup(x, y[j].0);
                assert(x[i].0 == y[j].0);
                pairs::lemma_lookup_distinct(y, j);
                assert(json_equal(x[i].1, y[j].1));
                assert(well_formed(x[i].1) && well_formed(y[j].1));
                law_equal_symmetric(x[i].1, y[j].1);
            }
        },
        _ => {},
    }
}

/// A found key is replaced in place; the values that are kept stay well formed.
pub proof fn lemma_put_well_formed(entries: EntriesModel, key: Seq<char>, value: JsonModel)
    requires
        well_formed(JsonModel::Object(entries)),
        well_formed(value),
    ensures
        well_formed(JsonModel::Object(pairs::put(entries, key, value))),
{
    pairs::lemma_put_distinct(entries, key, value);
    let r = pairs::put(entries, key, value);
    if pairs::lookup(entries, key) is None {
        pairs::lemma_put_new(entries, key, value);
    } else {
        let at = pairs::lemma_lookup(entries, key);
        pairs::lemma_put_at(entries, key, value, at);
    }
    assert forall|i: int| 0 <= i < r.len() implies well_formed((#[trigger] r[i]).1) by {
        if i < entries.len() {
            assert(well_formed(entries[i].1));
        }
    }
}

// ---------------------------------------------------------------------------
// Reading text
// ---------------------------------------------------------------------------

#[verifier::external_type_specification]
#[verifier::external_body]
pub struct ExValue(serde_json::Value);

/// What `serde_json::from_str` reads a text as; `None` where it reports an error.
pub uninterp spec fn parsed_json(text: Seq<char>) -> Option<JsonModel>;

/// The bits of the double that `serde_json::Number::as_f64` gives for a number
/// in JSON notation.
pub uninterp spec fn double_bits(number: Seq<char>) -> Option<u64>;

/// The value that a `serde_json::Value` is, one variant for one; a number
/// becomes the text that `serde_json::Number` prints.
#[verifier::external_body]
pub(crate) fn json_of(value: serde_json::Value) -> (r: Json) {
    match value {
        serde_json::Value::Null => Json::Null,
        serde_json::Value::Bool(b) => Json::Bool(b),
        serde_json::Value::Number(n) => Json::Number(n.to_string()),
        serde_json::Value::String(s) => Json::Text(s),
        serde_json::Value::Array(items) => Json::Array(items.into_iter().map(json_of).collect()),
        serde_json::Value::Object(map) => {
            Json::Object(map.into_iter().map(|(k, v)| (k, json_of(v))).collect())
        },
    }
}

/// The `serde_json::Value` that a value is, one variant for one; `None` where a
/// number is not in JSON notation.
#[verifier::external_body]
pub(crate) fn value_of(value: &Json) -> (r: Option<serde_json::Value>) {
    Some(match value {
        Json::Null => serde_json::Value::Null,
        Json::Bool(b) => serde_json::Value::Bool(*b),
        Json::Number(n) => serde_json::Value::Number(serde_json::from_str(n).ok()?),
        Json::Text(s) => serde_json::Value::String(s.clone()),
        Json::Array(items) => {
            serde_json::Value::Array(items.iter().map(value_of).collect::<Option<Vec<_>>>()?)
        },
        Json::Object(entries) => serde_json::Value::Object(
            entries.iter().map(|(k, v)| Some((k.clone(), value_of(v)?))).collect::<Option<_>>()?,
        ),
    })
}

/// `serde_json::from_str` reads a text as a JSON value. The objects that it
/// builds are maps, so no key occurs twice in one.
#[verifier::external_body]
pub(crate) fn parse_json(text: &str) -> (r: Option<Json>)
    ensures
        match r {
            Some(v) => parsed_json(text@) == Some(v@) && well_formed(v@),
            None => parsed_json(text@) is None,
        },
{
    serde_json::from_str::<serde_json::Value>(text).ok().map(json_of)
}

/// `serde_json::Number::as_f64`, on a number read from its notation; the double
/// is handed on as its bits.
#[verifier::external_body]
fn bits_of(number: &str) -> (r: Option<u64>)
    ensures
        r == double_bits(number@),
{
    let n = serde_json::from_str::<serde_json::Number>(number).ok()?;
    n.as_f64().map(|x| x.to_bits())
}

/// The bits of the two doubles that are zero.
pub open spec fn zero_bits(bits: u64) -> bool {
    bits == 0 || bits == 0x8000_0000_0000_0000
}

/// Whether two finite doubles compare equal.
pub open spec fn bits_equal(a: Option<u64>, b: Option<u64>) -> bool {
    match (a, b) {
        (Some(x), Some(y)) => x == y || (zero_bits(x) && zero_bits(y)),
        (None, None) => true,
        _ => false,
    }
}

/// Two numbers with the same value as doubles, such as `12` and `12.0`.
pub open spec fn same_double(a: Seq<char>, b: Seq<char>) -> bool {
    bits_equal(double_bits(a), double_bits(b))
}

/// Whether doubles with the given bits compare equal.
pub fn doubles_equal(a: Option<u64>, b: Option<u64>) -> (r: bool)
    ensures
        r == bits_equal(a, b),
{
    match (a, b) {
        (Some(x), Some(y)) => x == y || ((x == 0 || x == 0x8000_0000_0000_0000) && (y == 0 || y
            == 0x8000_0000_0000_0000)),
        (None, None) => true,
        _ => false,
    }
}

/// Whether two numbers have the same value as doubles.
pub fn same_value(a: &str, b: &str) -> (r: bool)
    ensures
        r == same_double(a@, b@),
{
    doubles_equal(bits_of(a), bits_of(b))
}

// ---------------------------------------------------------------------------
// Operations
// ---------------------------------------------------------------------------

/// The position of the first entry with the given key.
fn find_first(entries: &Vec<(String, Json)>, key: &str) -> (r: Option<usize>)
    ensures
        match r {
            Some(i) => {
                &&& i < entries@.len()
                &&& entries_model(entries@)[i as int].0 == key@
                &&& forall|k: int| 0 <= k < i ==> (#[trigger] entries_model(entries@)[k]).0 != key@
            },
            None => pairs::lookup(entries_model(entries@), key@) is None,
        },
{
    let ghost m = entries_model(entries@);
    let mut i: usize = 0;
    while i < entries.len()
        invariant
            i <= entries@.len(),
            m == entries_model(entries@),
            forall|k: int| 0 <= k < i ==> (#[trigger] m[k]).0 != key@,
        decreases entries@.len() - i,
    {
        if text::str_eq(&entries[i].0, key) {
            return Some(i);
        }
        assert(m[i as int].0 != key@);
        i = i + 1;
    }
    proof {
        let at = pairs::lemma_lookup(m, key@);
        if pairs::lookup(m, key@) is Some {
            assert(m[at].0 != key@);
        }
    }
    None
}

/// The position of the entry that is found under a key.
pub fn find_key(entries: &Vec<(String, Json)>, key: &str) -> (r: Option<usize>)
    ensures
        match r {
            Some(i) => {
                &&& i < entries@.len()
                &&& entries@[i as int].0@ == key@
                &&& pairs::lookup(entries_model(entries@), key@) == Some(entries@[i as int].1@)
            },
            None => pairs::lookup(entries_model(entries@), key@) is None,
        },
{
    match find_first(entries, key) {
        Some(i) => {
            proof {
                pairs::lemma_lookup_first(entries_model(entries@), key@, i as int);
            }
            Some(i)
        },
        None => None,
    }
}

/// Sets the value under a key.
pub fn put_entry(entries: &mut Vec<(String, Json)>, key: &str, value: Json)
    ensures
        entries_model(final(entries)@) == pairs::put(entries_model(old(entries)@), key@, value@),
{
    let ghost m = entries_model(entries@);
    match find_first(entries, key) {
        Some(i) => {
            proof {
                pairs::lemma_put_at(m, key@, value@, i as int);
            }
            entries.set(i, (text::owned(key), value));
            assert(entries_model(entries@) =~= m.update(i as int, (key@, value@)));
        },
        None => {
            proof {
                pairs::lemma_put_new(m, key@, value@);
            }
            entries.push((text::owned(key), value));
            assert(entries_model(entries@) =~= m.push((key@, value@)));
        },
    }
}

fn number_eq(a: &str, b: &str) -> (r: bool)
    ensures
        r == number_equal(a@, b@),
{
    text::str_eq(a, b) || (is_zero_fraction(a) && is_zero_fraction(b))
}

fn is_zero_fraction(t: &str) -> (r: bool)
    ensures
        r == zero_fraction(t@),
{
    text::str_eq(t, "0.0") || text::str_eq(t, "-0.0")
}

/// Whether two values are equal.
pub fn equal(a: &Json, b: &Json) -> (r: bool)
    ensures
        r == json_equal(a@, b@),
    decreases a,
{
    broadcast use {lemma_array_model, lemma_object_model};

    match (a, b) {
        (Json::Null, Json::Null) => true,
        (Json::Bool(x), Json::Bool(y)) => *x == *y,
        (Json::Number(x), Json::Number(y)) => number_eq(x, y),
        (Json::Text(x), Json::Text(y)) => text::str_eq(x, y),
        (Json::Array(x), Json::Array(y)) => {
            let ghost mx = items_model(x@);
            let ghost my = items_model(y@);
            if x.len() != y.len() {
                return false;
            }
            let mut i: usize = 0;
            while i < x.len()
                invariant
                    i <= x@.len(),
                    x@.len() == y@.len(),
                    a == Json::Array(*x),
                    mx == items_model(x@),
                    my == items_model(y@),
                    a@ == JsonModel::Array(mx),
                    b@ == JsonModel::Array(my),
                    forall|k: int| 0 <= k < i ==> json_equal(#[trigger] mx[k], my[k]),
                decreases x@.len() - i,
            {
                assert(decreases_to!(a => a->Array_0));
                assert(decreases_to!(x@ => x@[i as int]));
                if !equal(&x[i], &y[i]) {
                    assert(!json_equal(mx[i as int], my[i as int]));
                    return false;
                }
                i = i + 1;
            }
            true
        },
        (Json::Object(x), Json::Object(y)) => {
            let ghost mx = entries_model(x@);
            let ghost my = entries_model(y@);
            if x.len() != y.len() {
                return false;
            }
            let mut i: usize = 0;
            while i < x.len()
                invariant
                    i <= x@.len(),
                    x@.len() == y@.len(),
                    a == Json::Object(*x),
                    mx == entries_model(x@),
                    my == entries_model(y@),
                    a@ == JsonModel::Object(mx),
                    b@ == JsonModel::Object(my),
                    forall|k: int|
                        0 <= k < i ==> {
                            &&& pairs::lookup(my, (#[trigger] mx[k]).0) is Some
                            &&& json_equal(mx[k].1, pairs::lookup(my, mx[k].0)->0)
                        },
                decreases x@.len() - i,
            {
                assert(mx[i as int] == (x@[i as int].0@, x@[i as int].1@));
                assert(decreases_to!(a => a->Object_0));
                assert(decreases_to!(x@ => x@[i as int]));
                assert(decreases_to!(x@[i as int] => x@[i as int].1));
                match find_key(y, &x[i].0) {
                    Some(j) => {
                        if !equal(&x[i].1, &y[j].1) {
                            return false;
                        }
                    },
                    None => {
                        return false;
                    },
                }
                i = i + 1;
            }
            true
        },
        _ => false,
    }
}

impl PartialEq for Json {
    fn eq(&self, other: &Json) -> (r: bool) {
        equal(self, other)
    }
}

impl vstd::std_specs::cmp::PartialEqSpecImpl for Json {
    open spec fn obeys_eq_spec() -> bool {
        true
    }

    open spec fn eq_spec(&self, other: &Json) -> bool {
        json_equal(self@, other@)
    }
}

impl Json {
    /// A copy of the value.
    pub fn copy(&self) -> (r: Json)
        ensures
            r@ == self@,
        decreases self,
    {
        broadcast use {lemma_array_model, lemma_object_model};

        match self {
            Json::Null => Json::Null,
            Json::Bool(b) => Json::Bool(*b),
            Json::Number(t) => Json::Number(text::owned(t)),
            Json::Text(t) => Json::Text(text::owned(t)),
            Json::Array(items) => {
                let mut out: Vec<Json> = Vec::new();
                let mut i: usize = 0;
                while i < items.len()
                    invariant
                        i <= items@.len(),
                        self == Json::Array(*items),
                        out@.len() == i,
                        forall|k: int| 0 <= k < i ==> (#[trigger] out@[k])@ == items@[k]@,
                    decreases items@.len() - i,
                {
                    assert(decreases_to!(self => self->Array_0));
                    assert(decreases_to!(items@ => items@[i as int]));
                    out.push(items[i].copy());
                    i = i + 1;
                }
                assert(items_model(out@) =~= items_model(items@));
                Json::Array(out)
            },
            Json::Object(entries) => {
                let mut out: Vec<(String, Json)> = Vec::new();
                let mut i: usize = 0;
                while i < entries.len()
                    invariant
                        i <= entries@.len(),
                        self == Json::Object(*entries),
                        out@.len() == i,
                        forall|k: int|
                            0 <= k < i ==> {
                                &&& (#[trigger] out@[k]).0@ == entries@[k].0@
                                &&& out@[k].1@ == entries@[k].1@
                            },
                    decreases entries@.len() - i,
                {
                    assert(decreases_to!(self => self->Object_0));
                    assert(decreases_to!(entries@ => entries@[i as int]));
                    assert(decreases_to!(entries@[i as int] => entries@[i as int].1));
                    out.push((text::owned(&entries[i].0), entries[i].1.copy()));
                    i = i + 1;
                }
                assert(entries_model(out@) =~= entries_model(entries@));
                Json::Object(out)
            },
        }
    }

    /// Whether the value is an object.
    pub fn is_object(&self) -> (r: bool)
        ensures
            r == (self@ is Object),
    {
        matches!(self, Json::Object(_))
    }

    /// The value that an object holds under a key.
    pub fn get(&self, key: &str) -> (r: Option<&Json>)
        ensures
            match r {
                Some(v) => self@ is Object && pairs::lookup(self@->Object_0, key@) == Some(v@),
                None => self@ is Object ==> pairs::lookup(self@->Object_0, key@) is None,
            },
    {
        broadcast use {lemma_array_model, lemma_object_model};

        match self {
            Json::Object(entries) => match find_key(entries, key) {
                Some(i) => Some(&entries[i].1),
                None => None,
            },
            _ => None,
        }
    }
}

/// Two values at a key are both missing or equal.
pub open spec fn equal_at(x: EntriesModel, y: EntriesModel, key: Seq<char>) -> bool {
    match (pairs::lookup(x, key), pairs::lookup(y, key)) {
        (Some(a), Some(b)) => json_equal(a, b),
        (None, None) => true,
        _ => false,
    }
}

/// The keys of entries.
pub open spec fn keys_of(x: EntriesModel) -> Seq<Seq<char>> {
    x.map_values(|e: (Seq<char>, JsonModel)| e.0)
}

proof fn lemma_same_keys(x: EntriesModel, y: EntriesModel)
    requires
        pairs::distinct_keys(x),
        pairs::distinct_keys(y),
        forall|key: Seq<char>| #[trigger] equal_at(x, y, key),
    ensures
        x.len() == y.len(),
{
    let a = keys_of(x);
    let b = keys_of(y);
    assert(a.no_duplicates());
    assert(b.no_duplicates());
    assert forall|key: Seq<char>| a.contains(key) == b.contains(key) by {
        assert(equal_at(x, y, key));
        let in_x = pairs::lemma_lookup(x, key);
        let in_y = pairs::lemma_lookup(y, key);
        if pairs::lookup(x, key) is Some {
            assert(a[in_x] == key);
        }
        if pairs::lookup(y, key) is Some {
            assert(b[in_y] == key);
        }
        if a.contains(key) {
            let i = a.index_of(key);
            assert(x[i].0 == key);
        }
        if b.contains(key) {
            let i = b.index_of(key);
            assert(y[i].0 == key);
        }
    }
    assert(a.to_set() =~= b.to_set());
    a.unique_seq_to_set();
    b.unique_seq_to_set();
}

/// Objects are equal exactly where they hold equal values at every key, in whatever
/// order. Values of different kinds are never equal, and texts, truth values and
/// numbers only where they are the same, but for the two zeros with a fraction.
pub proof fn law_equal_means(a: JsonModel, b: JsonModel)
    requires
        well_formed(a),
        well_formed(b),
    ensures
        a is Object && b is Object ==> (json_equal(a, b) <==> forall|key: Seq<char>| #[trigger]
            equal_at(a->Object_0, b->Object_0, key)),
        a is Array && b is Array ==> (json_equal(a, b) <==> a->Array_0.len() == b->Array_0.len()
            && forall|i: int|
            0 <= i < a->Array_0.len() ==> json_equal(#[trigger] a->Array_0[i], b->Array_0[i])),
        json_equal(a, b) && !(a is Object) && !(a is Array) ==> a == b || (a is Number && b is Number
            && zero_fraction(a->Number_0) && zero_fraction(b->Number_0)),
        (a is Object) != (b is Object) || (a is Array) != (b is Array) ==> !json_equal(a, b),
{
    if a is Object && b is Object {
        let x = a->Object_0;
        let y = b->Object_0;
        assert(a == JsonModel::Object(x) && b == JsonModel::Object(y));
        if json_equal(a, b) {
            law_equal_symmetric(a, b);
            assert forall|key: Seq<char>| #[trigger] equal_at(x, y, key) by {
                let in_x = pairs::lemma_lookup(x, key);
                let in_y = pairs::lemma_lookup(y, key);
                if pairs::lookup(x, key) is Some {
                    assert(pairs::lookup(y, x[in_x].0) is Some);
                }
                if pairs::lookup(y, key) is Some {
                    assert(pairs::lookup(x, y[in_y].0) is Some);
                }
            }
        }
        if forall|key: Seq<char>| #[trigger] equal_at(x, y, key) {
            lemma_same_keys(x, y);
            assert forall|i: int| 0 <= i < x.len() implies {
                &&& pairs::lookup(y, (#[trigger] x[i]).0) is Some
                &&& json_equal(x[i].1, pairs::lookup(y, x[i].0)->0)
            } by {
                pairs::lemma_lookup_distinct(x, i);
                assert(equal_at(x, y, x[i].0));
            }
        }
    }
}

} // verus!
