//! Merging two configurations by decisions on single keys.
use crate::diff::semantic;
use crate::json;
use crate::json::{EntriesModel, Json, JsonModel};
use crate::pairs;
use crate::text;
use vstd::prelude::*;
use vstd::string::*;

verus! {

/// Decisions on dotted key paths: `true` where the repo's value is pushed,
/// `false` where the deployed value is pulled.
#[derive(Debug)]
pub struct Decisions {
    entries: Vec<(String, bool)>,
}

/// Decisions in the order in which they were first made.
pub type DecisionsModel = Seq<(Seq<char>, bool)>;

impl View for Decisions {
    type V = DecisionsModel;

    closed spec fn view(&self) -> DecisionsModel {
        self.entries@.map_values(|e: (String, bool)| (e.0@, e.1))
    }
}

impl Decisions {
    /// No path is decided twice.
    #[verifier::type_invariant]
    spec fn distinct(self) -> bool {
        pairs::distinct_keys(self@)
    }

    /// No decisions.
    pub fn new() -> (r: Decisions)
        ensures
            r@ == Seq::<(Seq<char>, bool)>::empty(),
    {
        let entries: Vec<(String, bool)> = Vec::new();
        let ghost m = entries@.map_values(|e: (String, bool)| (e.0@, e.1));
        assert(m =~= Seq::<(Seq<char>, bool)>::empty());
        Decisions { entries }
    }

    fn position(&self, path: &str) -> (r: Option<usize>)
        ensures
            match r {
                Some(i) => {
                    &&& i < self@.len()
                    &&& self@.len() == self.entries@.len()
                    &&& self@[i as int].0 == path@
                    &&& pairs::lookup(self@, path@) == Some(self.entries@[i as int].1)
                    &&& forall|k: int| 0 <= k < i ==> (#[trigger] self@[k]).0 != path@
                },
                None => pairs::lookup(self@, path@) is None,
            },
    {
        let mut i: usize = 0;
        while i < self.entries.len()
            invariant
                i <= self.entries@.len(),
                forall|k: int| 0 <= k < i ==> (#[trigger] self@[k]).0 != path@,
            decreases self.entries@.len() - i,
        {
            assert(self@[i as int].0 == self.entries@[i as int].0@);
            if text::str_eq(&self.entries[i].0, path) {
                proof {
                    pairs::lemma_lookup_first(self@, path@, i as int);
                }
                return Some(i);
            }
            i = i + 1;
        }
        proof {
            let at = pairs::lemma_lookup(self@, path@);
            if pairs::lookup(self@, path@) is Some {
                assert(self@[at].0 != path@);
            }
        }
        None
    }

    /// The decision on a path.
    pub fn get(&self, path: &str) -> (r: Option<bool>)
        ensures
            r == pairs::lookup(self@, path@),
    {
        match self.position(path) {
            Some(i) => Some(self.entries[i].1),
            None => None,
        }
    }

    /// Decides on a path; an earlier decision on it is replaced.
    pub fn insert(&mut self, path: &str, push: bool)
        ensures
            final(self)@ == pairs::put(old(self)@, path@, push),
    {
        proof {
            use_type_invariant(&*self);
            pairs::lemma_put_distinct(self@, path@, push);
        }
        let ghost before = self@;
        let found = self.position(path);
        let mut entries: Vec<(String, bool)> = Vec::new();
        std::mem::swap(&mut entries, &mut self.entries);
        match found {
            Some(i) => {
                proof {
                    pairs::lemma_put_at(before, path@, push, i as int);
                }
                entries.set(i, (text::owned(path), push));
            },
            None => {
                proof {
                    pairs::lemma_put_new(before, path@, push);
                }
                entries.push((text::owned(path), push));
            },
        }
        let ghost m = entries@.map_values(|e: (String, bool)| (e.0@, e.1));
        assert(m =~= pairs::put(before, path@, push));
        *self = Decisions { entries };
    }

    /// The paths that are pushed, or those that are pulled, in the order in which
    /// they were first decided.
    pub fn paths(&self, push: bool) -> (r: Vec<String>)
        ensures
            text::texts(r@) == decided_paths(self@, push, self@.len()),
    {
        let mut r: Vec<String> = Vec::new();
        assert(text::texts(r@) =~= seq![]);
        assert(self@.len() == self.entries@.len());
        let mut i: usize = 0;
        while i < self.entries.len()
            invariant
                i <= self.entries@.len(),
                self@.len() == self.entries@.len(),
                text::texts(r@) == decided_paths(self@, push, i as nat),
            decreases self.entries@.len() - i,
        {
            assert(self@[i as int] == (self.entries@[i as int].0@, self.entries@[i as int].1));
            if self.entries[i].1 == push {
                let path = text::owned(&self.entries[i].0);
                proof {
                    text::lemma_texts_push(r@, path);
                }
                r.push(path);
            }
            i = i + 1;
        }
        r
    }

    /// How many paths are decided.
    pub fn len(&self) -> (r: usize)
        ensures
            r == self@.len(),
    {
        self.entries.len()
    }
}

/// The paths, among the first `n` decided ones, that are decided in a way.
pub open spec fn decided_paths(ds: DecisionsModel, push: bool, n: nat) -> Seq<Seq<char>>
    decreases n,
{
    if n == 0 || n > ds.len() {
        seq![]
    } else {
        let before = decided_paths(ds, push, (n - 1) as nat);
        if ds[n - 1].1 == push {
            before.push(ds[n - 1].0)
        } else {
            before
        }
    }
}

/// The decision on the path of a key.
pub open spec fn decision(ds: DecisionsModel, path: Seq<char>, key: Seq<char>) -> Option<bool> {
    pairs::lookup(ds, semantic::key_path(path, key))
}

/// Two values merged by decisions. Of two objects, the entries are merged; of
/// anything else, the repo's value stands where it is pushed, and the deployed
/// value otherwise.
pub open spec fn merged(
    repo: JsonModel,
    deployed: JsonModel,
    ds: DecisionsModel,
    path: Seq<char>,
) -> JsonModel
    decreases deployed, 0nat,
{
    match (repo, deployed) {
        (JsonModel::Object(r), JsonModel::Object(d)) => JsonModel::Object(
            merged_repo(merged_deployed(r, d, ds, path, d.len()), r, d, ds, path, r.len()),
        ),
        _ => if pairs::lookup(ds, path) == Some(true) {
            repo
        } else {
            deployed
        },
    }
}

/// What the first `n` deployed entries contribute: a pushed key its repo value,
/// or nothing where the repo lacks it; a pulled key its deployed value; an
/// undecided key the two values merged, or the deployed one where the repo
/// lacks it.
pub open spec fn merged_deployed(
    r: EntriesModel,
    d: EntriesModel,
    ds: DecisionsModel,
    path: Seq<char>,
    n: nat,
) -> EntriesModel
    decreases d, n,
{
    if n == 0 || n > d.len() {
        seq![]
    } else {
        let before = merged_deployed(r, d, ds, path, (n - 1) as nat);
        let key = d[n - 1].0;
        let value = d[n - 1].1;
        match (decision(ds, path, key), pairs::lookup(r, key)) {
            (Some(true), Some(repo)) => pairs::put(before, key, repo),
            (Some(true), None) => before,
            (Some(false), _) => pairs::put(before, key, value),
            (None, Some(repo)) => pairs::put(
                before,
                key,
                merged(repo, value, ds, semantic::key_path(path, key)),
            ),
            (None, None) => pairs::put(before, key, value),
        }
    }
}

/// What the first `n` repo entries add to what is merged: each key that is not
/// deployed, where it is pushed.
pub open spec fn merged_repo(
    start: EntriesModel,
    r: EntriesModel,
    d: EntriesModel,
    ds: DecisionsModel,
    path: Seq<char>,
    n: nat,
) -> EntriesModel
    decreases n,
{
    if n == 0 || n > r.len() {
        start
    } else {
        let before = merged_repo(start, r, d, ds, path, (n - 1) as nat);
        let key = r[n - 1].0;
        if pairs::lookup(d, key) is None && decision(ds, path, key) == Some(true) {
            pairs::put(before, key, r[n - 1].1)
        } else {
            before
        }
    }
}

/// Merges two values, which stand at a path, by decisions.
pub fn merge_values(repo: &Json, deployed: &Json, decisions: &Decisions, path: &str) -> (r: Json)
    ensures
        r@ == merged(repo@, deployed@, decisions@, path@),
    decreases deployed,
{
    broadcast use {json::lemma_array_model, json::lemma_object_model};

    match (repo, deployed) {
        (Json::Object(repo_obj), Json::Object(dep_obj)) => {
            let ghost r = json::entries_model(repo_obj@);
            let ghost d = json::entries_model(dep_obj@);
            let ghost ds = decisions@;
            let mut out: Vec<(String, Json)> = Vec::new();
            assert(json::entries_model(out@) =~= seq![]);
            let mut i: usize = 0;
            while i < dep_obj.len()
                invariant
                    i <= dep_obj@.len(),
                    deployed == Json::Object(*dep_obj),
                    r == json::entries_model(repo_obj@),
                    d == json::entries_model(dep_obj@),
                    ds == decisions@,
                    json::entries_model(out@) == merged_deployed(r, d, ds, path@, i as nat),
                decreases dep_obj@.len() - i,
            {
                assert(d[i as int] == (dep_obj@[i as int].0@, dep_obj@[i as int].1@));
                assert(decreases_to!(deployed => deployed->Object_0));
                assert(decreases_to!(dep_obj@ => dep_obj@[i as int]));
                assert(decreases_to!(dep_obj@[i as int] => dep_obj@[i as int].1));
                let key = &dep_obj[i].0;
                let at = semantic::join_path(path, key);
                match (decisions.get(&at), json::find_key(repo_obj, key)) {
                    (Some(true), Some(k)) => json::put_entry(&mut out, key, repo_obj[k].1.copy()),
                    (Some(true), None) => {},
                    (Some(false), _) => json::put_entry(&mut out, key, dep_obj[i].1.copy()),
                    (None, Some(k)) => {
                        let value = merge_values(&repo_obj[k].1, &dep_obj[i].1, decisions, &at);
                        json::put_entry(&mut out, key, value)
                    },
                    (None, None) => json::put_entry(&mut out, key, dep_obj[i].1.copy()),
                }
                i = i + 1;
            }
            let ghost start = json::entries_model(out@);
            let mut k: usize = 0;
            while k < repo_obj.len()
                invariant
                    k <= repo_obj@.len(),
                    r == json::entries_model(repo_obj@),
                    d == json::entries_model(dep_obj@),
                    ds == decisions@,
                    json::entries_model(out@) == merged_repo(start, r, d, ds, path@, k as nat),
                decreases repo_obj@.len() - k,
            {
                assert(r[k as int] == (repo_obj@[k as int].0@, repo_obj@[k as int].1@));
                let key = &repo_obj[k].0;
                match json::find_key(dep_obj, key) {
                    Some(_) => {},
                    None => {
                        match decisions.get(&semantic::join_path(path, key)) {
                            Some(true) => json::put_entry(&mut out, key, repo_obj[k].1.copy()),
                            _ => {},
                        }
                    },
                }
                k = k + 1;
            }
            Json::Object(out)
        },
        _ => match decisions.get(path) {
            Some(true) => repo.copy(),
            _ => deployed.copy(),
        },
    }
}

/// Builds a value from the deployed one by decisions on single keys.
pub fn build_merged_json(repo_json: &Json, deployed_json: &Json, decisions: &Decisions) -> (r: Json)
    ensures
        r@ == merged(repo_json@, deployed_json@, decisions@, seq![]),
{
    proof {
        reveal_strlit("");
        assert(""@ =~= Seq::<char>::empty());
    }
    merge_values(repo_json, deployed_json, decisions, "")
}

// ---------------------------------------------------------------------------
// Laws of the merge
// ---------------------------------------------------------------------------

/// What a merge of two objects holds under a key.
pub open spec fn merged_under(
    r: EntriesModel,
    d: EntriesModel,
    ds: DecisionsModel,
    path: Seq<char>,
    key: Seq<char>,
) -> Option<JsonModel> {
    match (decision(ds, path, key), pairs::lookup(r, key), pairs::lookup(d, key)) {
        (Some(true), repo, _) => repo,
        (Some(false), _, deployed) => deployed,
        (None, Some(repo), Some(deployed)) => Some(
            merged(repo, deployed, ds, semantic::key_path(path, key)),
        ),
        (None, _, deployed) => deployed,
    }
}

proof fn lemma_merged_deployed(
    r: EntriesModel,
    d: EntriesModel,
    ds: DecisionsModel,
    path: Seq<char>,
    n: nat,
    key: Seq<char>,
)
    requires
        pairs::distinct_keys(d),
        n <= d.len(),
    ensures
        pairs::lookup(merged_deployed(r, d, ds, path, n), key) == if pairs::lookup(
            d.take(n as int),
            key,
        ) is Some {
            merged_under(r, d, ds, path, key)
        } else {
            None
        },
    decreases n,
{
    if n > 0 {
        lemma_merged_deployed(r, d, ds, path, (n - 1) as nat, key);
        pairs::lemma_take_lookup(d, n as int, key);
        pairs::lemma_lookup_distinct(d, n - 1);
        let before = merged_deployed(r, d, ds, path, (n - 1) as nat);
        let here = d[n - 1].0;
        let value = d[n - 1].1;
        if here == key {
            assert(pairs::lookup(d.take(n - 1), key) is None) by {
                let at = pairs::lemma_lookup(d.take(n - 1), key);
                if pairs::lookup(d.take(n - 1), key) is Some {
                    assert(d.take(n - 1)[at] == d[at]);
                    assert(d[at].0 != d[n - 1].0);
                }
            }
        }
        match (decision(ds, path, here), pairs::lookup(r, here)) {
            (Some(true), Some(repo)) => {
                pairs::lemma_put_lookup(before, here, repo, key);
            },
            (Some(true), None) => {},
            (Some(false), _) => {
                pairs::lemma_put_lookup(before, here, value, key);
            },
            (None, Some(repo)) => {
                pairs::lemma_put_lookup(
                    before,
                    here,
                    merged(repo, value, ds, semantic::key_path(path, here)),
                    key,
                );
            },
            (None, None) => {
                pairs::lemma_put_lookup(before, here, value, key);
            },
        }
    } else {
        assert(d.take(0).len() == 0);
    }
}

proof fn lemma_merged_repo(
    start: EntriesModel,
    r: EntriesModel,
    d: EntriesModel,
    ds: DecisionsModel,
    path: Seq<char>,
    n: nat,
    key: Seq<char>,
)
    requires
        pairs::distinct_keys(r),
        n <= r.len(),
    ensures
        pairs::lookup(merged_repo(start, r, d, ds, path, n), key) == if pairs::lookup(
            r.take(n as int),
            key,
        ) is Some && pairs::lookup(d, key) is None && decision(ds, path, key) == Some(true) {
            pairs::lookup(r, key)
        } else {
            pairs::lookup(start, key)
        },
    decreases n,
{
    if n > 0 {
        lemma_merged_repo(start, r, d, ds, path, (n - 1) as nat, key);
        pairs::lemma_take_lookup(r, n as int, key);
        pairs::lemma_lookup_distinct(r, n - 1);
        let before = merged_repo(start, r, d, ds, path, (n - 1) as nat);
        pairs::lemma_put_lookup(before, r[n - 1].0, r[n - 1].1, key);
    } else {
        assert(r.take(0).len() == 0);
    }
}

/// What a merge of two objects holds under each key: the repo's value where it
/// is pushed, so nothing where the repo lacks it; the deployed value where it
/// is pulled; of a key that is not decided, what both sides come to, and the
/// deployed side where one of them lacks it.
pub proof fn law_merge(
    r: EntriesModel,
    d: EntriesModel,
    ds: DecisionsModel,
    path: Seq<char>,
    key: Seq<char>,
)
    requires
        pairs::distinct_keys(r),
        pairs::distinct_keys(d),
    ensures
        merged(JsonModel::Object(r), JsonModel::Object(d), ds, path) is Object,
        pairs::lookup(
            merged(JsonModel::Object(r), JsonModel::Object(d), ds, path)->Object_0,
            key,
        ) == merged_under(r, d, ds, path, key),
{
    let start = merged_deployed(r, d, ds, path, d.len());
    lemma_merged_deployed(r, d, ds, path, d.len(), key);
    lemma_merged_repo(start, r, d, ds, path, r.len(), key);
    assert(d.take(d.len() as int) =~= d);
    assert(r.take(r.len() as int) =~= r);
}

/// A merge of values whose keys are distinct has distinct keys.
pub proof fn law_merge_well_formed(
    repo: JsonModel,
    deployed: JsonModel,
    ds: DecisionsModel,
    path: Seq<char>,
)
    requires
        json::well_formed(repo),
        json::well_formed(deployed),
    ensures
        json::well_formed(merged(repo, deployed, ds, path)),
    decreases deployed, 1nat,
{
    match (repo, deployed) {
        (JsonModel::Object(r), JsonModel::Object(d)) => {
            assert(repo->Object_0 == r && deployed->Object_0 == d);
            lemma_deployed_well_formed(r, d, ds, path, d.len());
            lemma_repo_well_formed(
                merged_deployed(r, d, ds, path, d.len()),
                r,
                d,
                ds,
                path,
                r.len(),
            );
        },
        _ => {},
    }
}

proof fn lemma_deployed_well_formed(
    r: EntriesModel,
    d: EntriesModel,
    ds: DecisionsModel,
    path: Seq<char>,
    n: nat,
)
    requires
        n <= d.len(),
        json::well_formed(JsonModel::Object(r)),
        json::well_formed(JsonModel::Object(d)),
    ensures
        json::well_formed(JsonModel::Object(merged_deployed(r, d, ds, path, n))),
    decreases d, n,
{
    assert(JsonModel::Object(r)->Object_0 == r);
    assert(JsonModel::Object(d)->Object_0 == d);
    if n > 0 {
        lemma_deployed_well_formed(r, d, ds, path, (n - 1) as nat);
        let before = merged_deployed(r, d, ds, path, (n - 1) as nat);
        let here = d[n - 1].0;
        let value = d[n - 1].1;
        let at = pairs::lemma_lookup(r, here);
        match pairs::lookup(r, here) {
            Some(repo) => {
                assert(well_formed_at(r, at));
                law_merge_well_formed(repo, value, ds, semantic::key_path(path, here));
                json::lemma_put_well_formed(before, here, repo);
                json::lemma_put_well_formed(
                    before,
                    here,
                    merged(repo, value, ds, semantic::key_path(path, here)),
                );
            },
            None => {},
        }
        json::lemma_put_well_formed(before, here, value);
    }
}

/// The value of an entry is well formed.
spec fn well_formed_at(e: EntriesModel, i: int) -> bool {
    json::well_formed(e[i].1)
}

proof fn lemma_repo_well_formed(
    start: EntriesModel,
    r: EntriesModel,
    d: EntriesModel,
    ds: DecisionsModel,
    path: Seq<char>,
    n: nat,
)
    requires
        n <= r.len(),
        json::well_formed(JsonModel::Object(start)),
        json::well_formed(JsonModel::Object(r)),
    ensures
        json::well_formed(JsonModel::Object(merged_repo(start, r, d, ds, path, n))),
    decreases n,
{
    assert(JsonModel::Object(r)->Object_0 == r);
    if n > 0 {
        lemma_repo_well_formed(start, r, d, ds, path, (n - 1) as nat);
        let before = merged_repo(start, r, d, ds, path, (n - 1) as nat);
        assert(well_formed_at(r, n - 1));
        json::lemma_put_well_formed(before, r[n - 1].0, r[n - 1].1);
    }
}

/// Nothing is decided at the keys of a chain below a path but the last.
pub open spec fn undecided_above(
    ds: DecisionsModel,
    path: Seq<char>,
    keys: Seq<Seq<char>>,
) -> bool
    decreases keys.len(),
{
    keys.len() <= 1 || {
        &&& decision(ds, path, keys[0]) is None
        &&& undecided_above(ds, semantic::key_path(path, keys[0]), keys.skip(1))
    }
}

/// What a merge holds under a chain of keys that both sides share, where nothing
/// is decided above its end: the repo's value where the path is pushed, the
/// deployed value where it is pulled, and the deployed value as well where it is
/// not decided and not both values are objects.
pub proof fn law_merge_chain(
    repo: JsonModel,
    deployed: JsonModel,
    ds: DecisionsModel,
    path: Seq<char>,
    keys: Seq<Seq<char>>,
)
    requires
        json::well_formed(repo),
        json::well_formed(deployed),
        semantic::chain_shared(repo, deployed, keys),
        undecided_above(ds, path, keys),
        !(semantic::chain_value(repo, keys) matches Some(JsonModel::Object(_))
            && semantic::chain_value(deployed, keys) matches Some(JsonModel::Object(_))),
    ensures
        semantic::chain_value(merged(repo, deployed, ds, path), keys) == if pairs::lookup(
            ds,
            semantic::chain_path(path, keys),
        ) == Some(true) {
            semantic::chain_value(repo, keys)
        } else {
            semantic::chain_value(deployed, keys)
        },
    decreases keys.len(),
{
    if keys.len() > 0 {
        let r = repo->Object_0;
        let d = deployed->Object_0;
        let key = keys[0];
        let rest = keys.skip(1);
        let at = semantic::key_path(path, key);
        law_merge(r, d, ds, path, key);
        let in_repo = pairs::lemma_lookup(r, key);
        let in_deployed = pairs::lemma_lookup(d, key);
        if pairs::lookup(r, key) is Some {
            assert(well_formed_at(r, in_repo));
        }
        if pairs::lookup(d, key) is Some {
            assert(well_formed_at(d, in_deployed));
        }
        if keys.len() == 1 {
            assert(rest.len() == 0);
            assert(semantic::chain_path(at, rest) == at);
        } else {
            law_merge_chain(r[in_repo].1, d[in_deployed].1, ds, at, rest);
        }
    }
}

/// A merge gives every change the side that was chosen for it: under the keys of
/// the change stands the repo's value where its path is pushed, and the deployed
/// one where it is pulled or skipped, unless something is decided above it.
pub open spec fn side_taken(
    c: semantic::ChangeModel,
    repo: JsonModel,
    deployed: JsonModel,
    ds: DecisionsModel,
    path: Seq<char>,
    keys: Seq<Seq<char>>,
) -> bool {
    &&& semantic::change_at(c, repo, deployed, path, keys)
    &&& undecided_above(ds, path, keys) ==> semantic::chain_value(
        merged(repo, deployed, ds, path),
        keys,
    ) == if pairs::lookup(ds, c.path) == Some(true) {
        c.repo_value
    } else {
        c.deployed_value
    }
}

/// The merge gives every change the side that was chosen for it, wherever nothing
/// is decided above it.
pub proof fn law_sides_taken(
    repo: JsonModel,
    deployed: JsonModel,
    ds: DecisionsModel,
    path: Seq<char>,
    i: int,
)
    requires
        json::well_formed(repo),
        json::well_formed(deployed),
        0 <= i < semantic::key_changes(repo, deployed, path, false).len(),
    ensures
        exists|keys: Seq<Seq<char>>| #[trigger]
            side_taken(
                semantic::key_changes(repo, deployed, path, false)[i],
                repo,
                deployed,
                ds,
                path,
                keys,
            ),
{
    let c = semantic::key_changes(repo, deployed, path, false)[i];
    semantic::law_changes_found(repo, deployed, path, false);
    assert(semantic::change_found(c, repo, deployed, path));
    let keys = choose|keys: Seq<Seq<char>>| #[trigger]
        semantic::change_at(c, repo, deployed, path, keys);
    if undecided_above(ds, path, keys) {
        law_merge_chain(repo, deployed, ds, path, keys);
    }
    assert(side_taken(c, repo, deployed, ds, path, keys));
}

/// Each of the changes is decided in the same way.
pub open spec fn all_decided(
    changes: Seq<semantic::ChangeModel>,
    ds: DecisionsModel,
    push: bool,
) -> bool {
    forall|i: int|
        0 <= i < changes.len() ==> pairs::lookup(ds, (#[trigger] changes[i]).path) == Some(push)
}

/// No path is decided the other way.
pub open spec fn never_decided(ds: DecisionsModel, push: bool) -> bool {
    forall|path: Seq<char>| #[trigger] pairs::lookup(ds, path) != Some(push)
}

proof fn lemma_decided_split(
    a: Seq<semantic::ChangeModel>,
    b: Seq<semantic::ChangeModel>,
    ds: DecisionsModel,
    push: bool,
)
    requires
        all_decided(a + b, ds, push),
    ensures
        all_decided(a, ds, push),
        all_decided(b, ds, push),
{
    assert forall|i: int| 0 <= i < a.len() implies pairs::lookup(ds, (#[trigger] a[i]).path)
        == Some(push) by {
        assert(a[i] == (a + b)[i]);
    }
    assert forall|i: int| 0 <= i < b.len() implies pairs::lookup(ds, (#[trigger] b[i]).path)
        == Some(push) by {
        assert(b[i] == (a + b)[a.len() + i]);
    }
}

proof fn lemma_decided_repo(
    r: EntriesModel,
    d: EntriesModel,
    ds: DecisionsModel,
    path: Seq<char>,
    n: nat,
    at: int,
    push: bool,
)
    requires
        0 <= at < n <= r.len(),
        all_decided(semantic::repo_changes(r, d, path, false, n), ds, push),
    ensures
        match pairs::lookup(d, r[at].0) {
            Some(v) => all_decided(
                semantic::key_changes(r[at].1, v, semantic::key_path(path, r[at].0), false),
                ds,
                push,
            ),
            None => decision(ds, path, r[at].0) == Some(push),
        },
    decreases n,
{
    let entry = r[n - 1];
    let here = semantic::key_path(path, entry.0);
    let before = semantic::repo_changes(r, d, path, false, (n - 1) as nat);
    match pairs::lookup(d, entry.0) {
        Some(v) => {
            lemma_decided_split(before, semantic::key_changes(entry.1, v, here, false), ds, push);
        },
        None => {
            let c = seq![semantic::added_change(here, entry.1, false)];
            lemma_decided_split(before, c, ds, push);
            assert(pairs::lookup(ds, c[0].path) == Some(push));
        },
    }
    if at < n - 1 {
        lemma_decided_repo(r, d, ds, path, (n - 1) as nat, at, push);
    }
}

proof fn lemma_decided_removed(
    r: EntriesModel,
    d: EntriesModel,
    ds: DecisionsModel,
    path: Seq<char>,
    n: nat,
    at: int,
    push: bool,
)
    requires
        0 <= at < n <= d.len(),
        pairs::lookup(r, d[at].0) is None,
        all_decided(semantic::removed_changes(r, d, path, false, n), ds, push),
    ensures
        decision(ds, path, d[at].0) == Some(push),
    decreases n,
{
    let entry = d[n - 1];
    let before = semantic::removed_changes(r, d, path, false, (n - 1) as nat);
    if pairs::lookup(r, entry.0) is None {
        let c = semantic::removed_change(
            semantic::key_path(path, entry.0),
            entry.1,
            false,
        );
        assert(before.push(c) =~= before + seq![c]);
        lemma_decided_split(before, seq![c], ds, push);
        assert(pairs::lookup(ds, seq![c][0].path) == Some(push));
    }
    if at < n - 1 {
        lemma_decided_removed(r, d, ds, path, (n - 1) as nat, at, push);
    }
}

/// What is decided on two objects, for each of their keys: the changes under a
/// key that both have, and the key itself where one lacks it.
proof fn lemma_decided_keys(
    r: EntriesModel,
    d: EntriesModel,
    ds: DecisionsModel,
    path: Seq<char>,
    push: bool,
)
    requires
        json::well_formed(JsonModel::Object(r)),
        json::well_formed(JsonModel::Object(d)),
        all_decided(
            semantic::key_changes(JsonModel::Object(r), JsonModel::Object(d), path, false),
            ds,
            push,
        ),
    ensures
        forall|i: int|
            0 <= i < r.len() ==> match pairs::lookup(d, (#[trigger] r[i]).0) {
                Some(v) => all_decided(
                    semantic::key_changes(r[i].1, v, semantic::key_path(path, r[i].0), false),
                    ds,
                    push,
                ),
                None => decision(ds, path, r[i].0) == Some(push),
            },
        forall|i: int|
            0 <= i < d.len() && pairs::lookup(r, (#[trigger] d[i]).0) is None ==> decision(
                ds,
                path,
                d[i].0,
            ) == Some(push),
{
    let x = JsonModel::Object(r);
    let y = JsonModel::Object(d);
    assert(x->Object_0 == r && y->Object_0 == d);
    if json::json_equal(x, y) {
        pairs::lemma_same_keys(r, d);
        assert forall|i: int| 0 <= i < r.len() implies match pairs::lookup(
            d,
            (#[trigger] r[i]).0,
        ) {
            Some(v) => all_decided(
                semantic::key_changes(r[i].1, v, semantic::key_path(path, r[i].0), false),
                ds,
                push,
            ),
            None => decision(ds, path, r[i].0) == Some(push),
        } by {
            assert(pairs::lookup(d, r[i].0) is Some);
        }
    } else {
        lemma_decided_split(
            semantic::repo_changes(r, d, path, false, r.len()),
            semantic::removed_changes(r, d, path, false, d.len()),
            ds,
            push,
        );
        assert forall|i: int| 0 <= i < r.len() implies match pairs::lookup(
            d,
            (#[trigger] r[i]).0,
        ) {
            Some(v) => all_decided(
                semantic::key_changes(r[i].1, v, semantic::key_path(path, r[i].0), false),
                ds,
                push,
            ),
            None => decision(ds, path, r[i].0) == Some(push),
        } by {
            lemma_decided_repo(r, d, ds, path, r.len(), i, push);
        }
        assert forall|i: int|
            0 <= i < d.len() && pairs::lookup(r, (#[trigger] d[i]).0) is None implies decision(
            ds,
            path,
            d[i].0,
        ) == Some(push) by {
            lemma_decided_removed(r, d, ds, path, d.len(), i, push);
        }
    }
}

/// Where every change is pushed, and nothing pulled, the merge shows no change
/// against the repo's value.
pub proof fn law_all_pushed(
    repo: JsonModel,
    deployed: JsonModel,
    ds: DecisionsModel,
    path: Seq<char>,
)
    requires
        json::well_formed(repo),
        json::well_formed(deployed),
        all_decided(semantic::key_changes(repo, deployed, path, false), ds, true),
        never_decided(ds, false),
    ensures
        semantic::equivalent(repo, merged(repo, deployed, ds, path)),
    decreases deployed,
{
    json::law_equal_reflexive(repo);
    match (repo, deployed) {
        (JsonModel::Object(r), JsonModel::Object(d)) => {
            assert(repo->Object_0 == r && deployed->Object_0 == d);
            lemma_decided_keys(r, d, ds, path, true);
            let m = merged(repo, deployed, ds, path)->Object_0;
            assert(JsonModel::Object(m)->Object_0 == m);
            assert forall|i: int| 0 <= i < r.len() implies {
                &&& pairs::lookup(m, (#[trigger] r[i]).0) is Some
                &&& semantic::equivalent(r[i].1, pairs::lookup(m, r[i].0)->0)
            } by {
                let key = r[i].0;
                law_merge(r, d, ds, path, key);
                pairs::lemma_lookup_distinct(r, i);
                json::law_equal_reflexive(r[i].1);
                assert(pairs::lookup(ds, semantic::key_path(path, key)) != Some(false));
                match pairs::lookup(d, key) {
                    Some(v) => {
                        let at = pairs::lemma_lookup(d, key);
                        assert(well_formed_at(d, at));
                        law_all_pushed(r[i].1, v, ds, semantic::key_path(path, key));
                    },
                    None => {},
                }
            }
            assert forall|i: int| 0 <= i < m.len() implies pairs::lookup(
                r,
                (#[trigger] m[i]).0,
            ) is Some by {
                let key = m[i].0;
                law_merge(r, d, ds, path, key);
                let found = pairs::lemma_lookup(m, key);
                assert(pairs::lookup(m, key) is Some);
                assert(pairs::lookup(ds, semantic::key_path(path, key)) != Some(false));
                if pairs::lookup(r, key) is None {
                    let at = pairs::lemma_lookup(d, key);
                    assert(d[at].0 == key);
                    assert(decision(ds, path, key) == Some(true));
                }
            }
        },
        _ => {
            assert(pairs::lookup(ds, path) != Some(false));
            let changes = semantic::key_changes(repo, deployed, path, false);
            if !semantic::unchanged(repo, deployed) {
                assert(changes[0].path == path);
            }
        },
    }
}

/// Where nothing is pushed, the merge is the deployed value.
pub proof fn law_none_pushed(
    repo: JsonModel,
    deployed: JsonModel,
    ds: DecisionsModel,
    path: Seq<char>,
)
    requires
        json::well_formed(deployed),
        never_decided(ds, true),
    ensures
        merged(repo, deployed, ds, path) == deployed,
    decreases deployed, 1nat,
{
    match (repo, deployed) {
        (JsonModel::Object(r), JsonModel::Object(d)) => {
            assert(deployed->Object_0 == d);
            lemma_none_pushed(r, d, ds, path, d.len());
            lemma_none_added(d, r, d, ds, path, r.len());
            assert(d.take(d.len() as int) =~= d);
        },
        _ => {
            assert(pairs::lookup(ds, path) != Some(true));
        },
    }
}

proof fn lemma_none_pushed(
    r: EntriesModel,
    d: EntriesModel,
    ds: DecisionsModel,
    path: Seq<char>,
    n: nat,
)
    requires
        n <= d.len(),
        json::well_formed(JsonModel::Object(d)),
        never_decided(ds, true),
    ensures
        merged_deployed(r, d, ds, path, n) == d.take(n as int),
    decreases d, n,
{
    assert(JsonModel::Object(d)->Object_0 == d);
    if n == 0 {
        assert(d.take(0) =~= seq![]);
    } else {
        let before = d.take(n - 1);
        let key = d[n - 1].0;
        let value = d[n - 1].1;
        lemma_none_pushed(r, d, ds, path, (n - 1) as nat);
        assert(pairs::lookup(ds, semantic::key_path(path, key)) != Some(true));
        if pairs::lookup(r, key) is Some {
            assert(well_formed_at(d, n - 1));
            law_none_pushed(pairs::lookup(r, key)->0, value, ds, semantic::key_path(path, key));
        }
        let at = pairs::lemma_lookup(before, key);
        if pairs::lookup(before, key) is Some {
            assert(before[at] == d[at]);
        }
        pairs::lemma_put_new(before, key, value);
        assert(d.take(n as int) =~= before.push((key, value)));
    }
}

proof fn lemma_none_added(
    start: EntriesModel,
    r: EntriesModel,
    d: EntriesModel,
    ds: DecisionsModel,
    path: Seq<char>,
    n: nat,
)
    requires
        n <= r.len(),
        never_decided(ds, true),
    ensures
        merged_repo(start, r, d, ds, path, n) == start,
    decreases n,
{
    if n > 0 {
        lemma_none_added(start, r, d, ds, path, (n - 1) as nat);
        assert(pairs::lookup(ds, semantic::key_path(path, r[n - 1].0)) != Some(true));
    }
}

/// Some change is at a path.
pub open spec fn changed_at(changes: Seq<semantic::ChangeModel>, path: Seq<char>) -> bool {
    exists|i: int| 0 <= i < changes.len() && (#[trigger] changes[i]).path == path
}

/// Only paths of changes are decided.
pub open spec fn decided_within(ds: DecisionsModel, changes: Seq<semantic::ChangeModel>) -> bool {
    forall|path: Seq<char>| #[trigger]
        pairs::lookup(ds, path) is Some ==> changed_at(changes, path)
}

proof fn lemma_undecided(ds: DecisionsModel, keys: Seq<Seq<char>>, m: int)
    requires
        0 <= m <= keys.len(),
        forall|k: int|
            0 < k < keys.len() ==> pairs::lookup(
                ds,
                #[trigger] semantic::chain_path(seq![], keys.take(k)),
            ) is None,
    ensures
        undecided_above(ds, semantic::chain_path(seq![], keys.take(m)), keys.skip(m)),
    decreases keys.len() - m,
{
    if keys.len() - m > 1 {
        lemma_undecided(ds, keys, m + 1);
        semantic::lemma_chain_push(seq![], keys.take(m), keys[m]);
        assert(keys.take(m).push(keys[m]) =~= keys.take(m + 1));
        assert(keys.skip(m)[0] == keys[m]);
        assert(keys.skip(m).skip(1) =~= keys.skip(m + 1));
        assert(pairs::lookup(ds, semantic::chain_path(seq![], keys.take(m + 1))) is None);
    }
}

/// Where only the paths of changes are decided, nothing is decided above what
/// both sides share, as long as the keys can stand in dotted paths.
proof fn lemma_nothing_above(
    repo: JsonModel,
    deployed: JsonModel,
    ds: DecisionsModel,
    keys: Seq<Seq<char>>,
)
    requires
        json::well_formed(repo),
        json::well_formed(deployed),
        semantic::plain_keys(repo),
        semantic::plain_keys(deployed),
        decided_within(ds, semantic::key_changes(repo, deployed, seq![], false)),
        semantic::chain_shared(repo, deployed, keys),
    ensures
        undecided_above(ds, seq![], keys),
{
    let none = Seq::<char>::empty();
    let changes = semantic::key_changes(repo, deployed, none, false);
    semantic::law_changes_found(repo, deployed, none, false);
    semantic::law_change_sides(repo, deployed, none, false);
    assert forall|k: int| 0 < k < keys.len() implies pairs::lookup(
        ds,
        #[trigger] semantic::chain_path(none, keys.take(k)),
    ) is None by {
        let start = keys.take(k);
        let path = semantic::chain_path(none, start);
        semantic::lemma_chain_objects(repo, deployed, keys, k);
        semantic::lemma_chain_plain(repo, start);
        semantic::lemma_chain_components(start);
        if pairs::lookup(ds, path) is Some {
            assert(changed_at(changes, path));
            let i = choose|i: int| 0 <= i < changes.len() && (#[trigger] changes[i]).path == path;
            let c = changes[i];
            assert(semantic::change_found(c, repo, deployed, none));
            assert(semantic::sides_agree(c));
            let other = choose|other: Seq<Seq<char>>| #[trigger]
                semantic::change_at(c, repo, deployed, none, other);
            if c.repo_value is Some {
                semantic::lemma_chain_plain(repo, other);
            } else {
                semantic::lemma_chain_plain(deployed, other);
            }
            assert(other.len() > 0);
            semantic::lemma_chain_components(other);
            assert(other == start);
        }
    }
    lemma_undecided(ds, keys, 0);
    assert(keys.take(0) =~= seq![]);
    assert(keys.skip(0) =~= keys);
}

/// What a merge holds under a chain of keys that both sides share and under which
/// not both hold an object, where only the paths of changes are decided and the
/// keys can stand in dotted paths: the repo's value where the path is pushed, and
/// the deployed value everywhere else.
pub proof fn law_merge_exact(
    repo: JsonModel,
    deployed: JsonModel,
    ds: DecisionsModel,
    keys: Seq<Seq<char>>,
)
    requires
        json::well_formed(repo),
        json::well_formed(deployed),
        semantic::plain_keys(repo),
        semantic::plain_keys(deployed),
        decided_within(ds, semantic::key_changes(repo, deployed, seq![], false)),
        semantic::chain_shared(repo, deployed, keys),
        !(semantic::chain_value(repo, keys) matches Some(JsonModel::Object(_))
            && semantic::chain_value(deployed, keys) matches Some(JsonModel::Object(_))),
    ensures
        semantic::chain_value(merged(repo, deployed, ds, seq![]), keys) == if pairs::lookup(
            ds,
            semantic::chain_path(seq![], keys),
        ) == Some(true) {
            semantic::chain_value(repo, keys)
        } else {
            semantic::chain_value(deployed, keys)
        },
{
    lemma_nothing_above(repo, deployed, ds, keys);
    law_merge_chain(repo, deployed, ds, seq![], keys);
}

/// The keys of a change, under which a merge holds the side that was chosen.
pub open spec fn chosen_side_at(
    c: semantic::ChangeModel,
    repo: JsonModel,
    deployed: JsonModel,
    ds: DecisionsModel,
    keys: Seq<Seq<char>>,
) -> bool {
    &&& semantic::change_at(c, repo, deployed, seq![], keys)
    &&& semantic::chain_value(merged(repo, deployed, ds, seq![]), keys) == if pairs::lookup(
        ds,
        c.path,
    ) == Some(true) {
        c.repo_value
    } else {
        c.deployed_value
    }
}

/// Where only the paths of changes are decided, and the keys can stand in dotted
/// paths, the merge gives every change the side that was chosen for it.
pub proof fn law_chosen_sides(repo: JsonModel, deployed: JsonModel, ds: DecisionsModel, i: int)
    requires
        json::well_formed(repo),
        json::well_formed(deployed),
        semantic::plain_keys(repo),
        semantic::plain_keys(deployed),
        decided_within(ds, semantic::key_changes(repo, deployed, seq![], false)),
        0 <= i < semantic::key_changes(repo, deployed, seq![], false).len(),
    ensures
        exists|keys: Seq<Seq<char>>| #[trigger]
            chosen_side_at(
                semantic::key_changes(repo, deployed, seq![], false)[i],
                repo,
                deployed,
                ds,
                keys,
            ),
{
    let none = Seq::<char>::empty();
    let c = semantic::key_changes(repo, deployed, none, false)[i];
    semantic::law_changes_found(repo, deployed, none, false);
    assert(semantic::change_found(c, repo, deployed, none));
    let keys = choose|keys: Seq<Seq<char>>| #[trigger]
        semantic::change_at(c, repo, deployed, none, keys);
    law_merge_exact(repo, deployed, ds, keys);
    assert(chosen_side_at(c, repo, deployed, ds, keys));
}

/// The paths that are decided in a way are those whose decision says so.
pub proof fn law_decided_paths(ds: DecisionsModel, push: bool, path: Seq<char>)
    requires
        pairs::distinct_keys(ds),
    ensures
        decided_paths(ds, push, ds.len()).contains(path) <==> pairs::lookup(ds, path) == Some(push),
{
    lemma_decided(ds, push, ds.len(), path);
    let at = pairs::lemma_lookup(ds, path);
    if decided_before(ds, push, ds.len() as int, path) {
        let i = choose|i: int| 0 <= i < ds.len() && #[trigger] ds[i] == (path, push);
        pairs::lemma_lookup_distinct(ds, i);
    }
    if pairs::lookup(ds, path) == Some(push) {
        assert(ds[at] == (path, push));
    }
}

/// A path is decided in a way before a place.
spec fn decided_before(ds: DecisionsModel, push: bool, n: int, path: Seq<char>) -> bool {
    exists|i: int| 0 <= i < n && #[trigger] ds[i] == (path, push)
}

proof fn lemma_decided(ds: DecisionsModel, push: bool, n: nat, path: Seq<char>)
    requires
        n <= ds.len(),
    ensures
        decided_paths(ds, push, n).contains(path) <==> decided_before(ds, push, n as int, path),
    decreases n,
{
    if n > 0 {
        lemma_decided(ds, push, (n - 1) as nat, path);
        let before = decided_paths(ds, push, (n - 1) as nat);
        let all = decided_paths(ds, push, n);
        if before.contains(path) {
            let k = before.index_of(path);
            assert(all[k] == path);
        }
        if ds[n - 1] == (path, push) {
            assert(all[before.len() as int] == path);
        }
        if all.contains(path) && !before.contains(path) {
            let k = all.index_of(path);
            if k < before.len() {
                assert(before[k] == path);
            }
            assert(ds[n - 1] == (path, push));
        }
    }
}

} // verus!
