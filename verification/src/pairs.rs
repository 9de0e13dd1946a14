//! Lists of keys with values, in the order in which the keys came.
use vstd::prelude::*;

verus! {

/// The value of the first entry with the given key.
pub open spec fn lookup<V>(entries: Seq<(Seq<char>, V)>, key: Seq<char>) -> Option<V>
    decreases entries.len(),
{
    if entries.len() == 0 {
        None
    } else if entries[0].0 == key {
        Some(entries[0].1)
    } else {
        lookup(entries.skip(1), key)
    }
}

/// No key occurs twice.
pub open spec fn distinct_keys<V>(entries: Seq<(Seq<char>, V)>) -> bool {
    forall|i: int, j: int|
        0 <= i < entries.len() && 0 <= j < entries.len() && i != j ==> (#[trigger] entries[i]).0
            != (#[trigger] entries[j]).0
}

/// A key is found exactly when an entry has it, and what is found is the value
/// of the first such entry.
pub proof fn lemma_lookup<V>(entries: Seq<(Seq<char>, V)>, key: Seq<char>) -> (at: int)
    ensures
        lookup(entries, key) is None ==> forall|i: int|
            0 <= i < entries.len() ==> (#[trigger] entries[i]).0 != key,
        lookup(entries, key) is Some ==> {
            &&& 0 <= at < entries.len()
            &&& entries[at].0 == key
            &&& lookup(entries, key) == Some(entries[at].1)
            &&& forall|i: int| 0 <= i < at ==> (#[trigger] entries[i]).0 != key
        },
    decreases entries.len(),
{
    if entries.len() == 0 {
        0
    } else if entries[0].0 == key {
        0
    } else {
        let rest = entries.skip(1);
        let at = lemma_lookup(rest, key);
        assert forall|i: int|
            0 <= i < entries.len() && (lookup(entries, key) is None || i <= at) implies (
        #[trigger] entries[i]).0 != key by {
            if i > 0 {
                assert(entries[i] == rest[i - 1]);
            }
        }
        at + 1
    }
}

/// The first entry with a key is the one that is found.
pub proof fn lemma_lookup_first<V>(entries: Seq<(Seq<char>, V)>, key: Seq<char>, at: int)
    requires
        0 <= at < entries.len(),
        entries[at].0 == key,
        forall|i: int| 0 <= i < at ==> (#[trigger] entries[i]).0 != key,
    ensures
        lookup(entries, key) == Some(entries[at].1),
{
    let found = lemma_lookup(entries, key);
    if lookup(entries, key) is Some {
        assert(found == at) by {
            if found < at {
                assert(entries[found].0 != key);
            }
            if at < found {
                assert(entries[at].0 != key);
            }
        }
    } else {
        assert(entries[at].0 != key);
    }
}

/// Where keys are distinct, every entry is found under its key.
pub proof fn lemma_lookup_distinct<V>(entries: Seq<(Seq<char>, V)>, at: int)
    requires
        distinct_keys(entries),
        0 <= at < entries.len(),
    ensures
        lookup(entries, entries[at].0) == Some(entries[at].1),
{
    lemma_lookup_first(entries, entries[at].0, at);
}

/// The entries with the value under a key set: replaced where the key stands,
/// appended where it is new.
pub open spec fn put<V>(entries: Seq<(Seq<char>, V)>, key: Seq<char>, value: V) -> Seq<(Seq<char>, V)>
    decreases entries.len(),
{
    if entries.len() == 0 {
        seq![(key, value)]
    } else if entries[0].0 == key {
        entries.update(0, (key, value))
    } else {
        seq![entries[0]] + put(entries.skip(1), key, value)
    }
}

/// Setting a key changes what is found under it and nothing else.
pub proof fn lemma_put_lookup<V>(
    entries: Seq<(Seq<char>, V)>,
    key: Seq<char>,
    value: V,
    other: Seq<char>,
)
    ensures
        lookup(put(entries, key, value), other) == if other == key {
            Some(value)
        } else {
            lookup(entries, other)
        },
    decreases entries.len(),
{
    reveal_with_fuel(lookup, 2);
    let r = put(entries, key, value);
    if entries.len() == 0 {
        assert(r.skip(1).len() == 0);
    } else if entries[0].0 == key {
        assert(r.skip(1) =~= entries.skip(1));
    } else {
        lemma_put_lookup(entries.skip(1), key, value, other);
        assert(r.skip(1) =~= put(entries.skip(1), key, value));
    }
}

/// Setting a key keeps keys distinct.
pub proof fn lemma_put_distinct<V>(entries: Seq<(Seq<char>, V)>, key: Seq<char>, value: V)
    requires
        distinct_keys(entries),
    ensures
        distinct_keys(put(entries, key, value)),
        put(entries, key, value).len() == entries.len() + if lookup(entries, key) is Some {
            0int
        } else {
            1
        },
        forall|i: int|
            0 <= i < entries.len() ==> (#[trigger] put(entries, key, value)[i]).0 == entries[i].0,
        forall|i: int|
            entries.len() <= i < put(entries, key, value).len() ==> (#[trigger] put(
                entries,
                key,
                value,
            )[i]).0 == key,
    decreases entries.len(),
{
    let r = put(entries, key, value);
    if entries.len() > 0 && entries[0].0 != key {
        let rest = entries.skip(1);
        assert(distinct_keys(rest)) by {
            assert forall|i: int, j: int|
                0 <= i < rest.len() && 0 <= j < rest.len() && i != j implies (
            #[trigger] rest[i]).0 != (#[trigger] rest[j]).0 by {
                assert(rest[i] == entries[i + 1] && rest[j] == entries[j + 1]);
            }
        }
        lemma_put_distinct(rest, key, value);
        let p = put(rest, key, value);
        assert forall|i: int| 1 <= i < r.len() implies #[trigger] r[i] == p[i - 1] by {}
        assert forall|i: int| 0 <= i < entries.len() implies (#[trigger] r[i]).0
            == entries[i].0 by {
            if i > 0 {
                assert(rest[i - 1] == entries[i]);
            }
        }
        let at = lemma_lookup(entries, key);
        assert forall|i: int, j: int|
            0 <= i < r.len() && 0 <= j < r.len() && i != j implies (#[trigger] r[i]).0 != (
        #[trigger] r[j]).0 by {
            if i == entries.len() || j == entries.len() {
                let k = if i == entries.len() { j } else { i };
                assert(lookup(entries, key) is None);
                assert(entries[k].0 != key);
            }
        }
    }
}

/// A new key is appended.
pub proof fn lemma_put_new<V>(entries: Seq<(Seq<char>, V)>, key: Seq<char>, value: V)
    requires
        lookup(entries, key) is None,
    ensures
        put(entries, key, value) == entries.push((key, value)),
    decreases entries.len(),
{
    if entries.len() > 0 {
        lemma_put_new(entries.skip(1), key, value);
        assert(put(entries, key, value) =~= entries.push((key, value)));
    } else {
        assert(put(entries, key, value) =~= entries.push((key, value)));
    }
}

/// What setting a key does at the position where the key first stands.
pub proof fn lemma_put_at<V>(entries: Seq<(Seq<char>, V)>, key: Seq<char>, value: V, at: int)
    requires
        0 <= at < entries.len(),
        entries[at].0 == key,
        forall|i: int| 0 <= i < at ==> (#[trigger] entries[i]).0 != key,
    ensures
        put(entries, key, value) == entries.update(at, (key, value)),
    decreases entries.len(),
{
    if at > 0 {
        assert(entries[0].0 != key);
        let rest = entries.skip(1);
        assert forall|i: int| 0 <= i < at - 1 implies (#[trigger] rest[i]).0 != key by {
            assert(rest[i] == entries[i + 1]);
        }
        lemma_put_at(rest, key, value, at - 1);
        assert(put(entries, key, value) =~= entries.update(at, (key, value)));
    }
}

/// The entries without those that have a key.
pub open spec fn without<V>(entries: Seq<(Seq<char>, V)>, key: Seq<char>) -> Seq<(Seq<char>, V)>
    decreases entries.len(),
{
    if entries.len() == 0 {
        seq![]
    } else if entries[0].0 == key {
        without(entries.skip(1), key)
    } else {
        seq![entries[0]] + without(entries.skip(1), key)
    }
}

/// Leaving out a key changes what is found under it and nothing else, and keeps
/// keys distinct.
pub proof fn lemma_without<V>(entries: Seq<(Seq<char>, V)>, key: Seq<char>)
    ensures
        forall|other: Seq<char>| #[trigger]
            lookup(without(entries, key), other) == if other == key {
                None
            } else {
                lookup(entries, other)
            },
        distinct_keys(entries) ==> distinct_keys(without(entries, key)),
    decreases entries.len(),
{
    let r = without(entries, key);
    if entries.len() > 0 {
        let rest = entries.skip(1);
        lemma_without(rest, key);
        let w = without(rest, key);
        if entries[0].0 != key {
            assert(r.skip(1) =~= w);
            assert forall|other: Seq<char>| #[trigger] lookup(r, other) == if other == key {
                None
            } else {
                lookup(entries, other)
            } by {
                assert(lookup(w, other) == if other == key {
                    None
                } else {
                    lookup(rest, other)
                });
            }
        }
        if distinct_keys(entries) {
            assert(distinct_keys(rest)) by {
                assert forall|i: int, j: int|
                    0 <= i < rest.len() && 0 <= j < rest.len() && i != j implies (
                #[trigger] rest[i]).0 != (#[trigger] rest[j]).0 by {
                    assert(rest[i] == entries[i + 1] && rest[j] == entries[j + 1]);
                }
            }
            if entries[0].0 != key {
                let first = entries[0].0;
                let at = lemma_lookup(rest, first);
                assert(lookup(rest, first) is None) by {
                    if lookup(rest, first) is Some {
                        assert(rest[at] == entries[at + 1]);
                        assert(entries[0].0 != entries[at + 1].0);
                    }
                }
                assert(lookup(w, first) is None);
                let none = lemma_lookup(w, first);
                assert forall|i: int, j: int|
                    0 <= i < r.len() && 0 <= j < r.len() && i != j implies (#[trigger] r[i]).0 != (
                #[trigger] r[j]).0 by {
                    if i > 0 {
                        assert(r[i] == w[i - 1]);
                    }
                    if j > 0 {
                        assert(r[j] == w[j - 1]);
                    }
                }
            }
        }
    }
}

/// Setting a key twice is setting it to the last value.
pub proof fn lemma_put_again<V>(entries: Seq<(Seq<char>, V)>, key: Seq<char>, a: V, b: V)
    ensures
        put(put(entries, key, a), key, b) == put(entries, key, b),
    decreases entries.len(),
{
    let once = put(entries, key, a);
    if entries.len() == 0 {
        assert(put(once, key, b) =~= put(entries, key, b));
    } else if entries[0].0 == key {
        assert(put(once, key, b) =~= put(entries, key, b));
    } else {
        lemma_put_again(entries.skip(1), key, a, b);
        assert(once.skip(1) =~= put(entries.skip(1), key, a));
        assert(once[0] == entries[0]);
        assert(put(once, key, b) =~= put(entries, key, b));
    }
}

/// What is found among the first `n` entries, where keys are distinct.
pub proof fn lemma_take_lookup<V>(e: Seq<(Seq<char>, V)>, n: int, key: Seq<char>)
    requires
        distinct_keys(e),
        0 < n <= e.len(),
    ensures
        lookup(e.take(n), key) == if e[n - 1].0 == key {
            Some(e[n - 1].1)
        } else {
            lookup(e.take(n - 1), key)
        },
{
    let before = e.take(n - 1);
    let all = e.take(n);
    assert(all =~= before.push(e[n - 1]));
    assert(lookup(before, e[n - 1].0) is None) by {
        let at = lemma_lookup(before, e[n - 1].0);
        if lookup(before, e[n - 1].0) is Some {
            assert(before[at] == e[at]);
            assert(e[at].0 != e[n - 1].0);
        }
    }
    lemma_put_new(before, e[n - 1].0, e[n - 1].1);
    lemma_put_lookup(before, e[n - 1].0, e[n - 1].1, key);
}

/// Lists with distinct keys, as many of them, of which every key of one is a
/// key of the other, have the same keys.
pub proof fn lemma_same_keys<V>(r: Seq<(Seq<char>, V)>, d: Seq<(Seq<char>, V)>)
    requires
        distinct_keys(r),
        distinct_keys(d),
        r.len() == d.len(),
        forall|i: int| 0 <= i < r.len() ==> lookup(d, (#[trigger] r[i]).0) is Some,
    ensures
        forall|i: int| 0 <= i < d.len() ==> lookup(r, (#[trigger] d[i]).0) is Some,
{
    let rk = r.map_values(|e: (Seq<char>, V)| e.0);
    let dk = d.map_values(|e: (Seq<char>, V)| e.0);
    assert(rk.no_duplicates()) by {
        assert forall|i: int, j: int| 0 <= i < rk.len() && 0 <= j < rk.len() && i != j implies rk[i]
            != rk[j] by {
            assert(r[i].0 != r[j].0);
        }
    }
    assert(dk.no_duplicates()) by {
        assert forall|i: int, j: int| 0 <= i < dk.len() && 0 <= j < dk.len() && i != j implies dk[i]
            != dk[j] by {
            assert(d[i].0 != d[j].0);
        }
    }
    rk.unique_seq_to_set();
    dk.unique_seq_to_set();
    assert(rk.to_set().subset_of(dk.to_set())) by {
        assert forall|k: Seq<char>| rk.to_set().contains(k) implies dk.to_set().contains(k) by {
            let i = choose|i: int| 0 <= i < rk.len() && rk[i] == k;
            assert(r[i].0 == k);
            let at = lemma_lookup(d, k);
            assert(dk[at] == k);
        }
    }
    vstd::set_lib::lemma_subset_equality(rk.to_set(), dk.to_set());
    assert forall|i: int| 0 <= i < d.len() implies lookup(r, (#[trigger] d[i]).0) is Some by {
        assert(dk[i] == d[i].0);
        assert(dk.to_set().contains(d[i].0));
        assert(rk.to_set().contains(d[i].0));
        let j = choose|j: int| 0 <= j < rk.len() && rk[j] == d[i].0;
        assert(r[j].0 == d[i].0);
        let at = lemma_lookup(r, d[i].0);
    }
}

/// Lists with distinct keys that have the same keys are of the same length.
pub proof fn lemma_same_length<V>(r: Seq<(Seq<char>, V)>, d: Seq<(Seq<char>, V)>)
    requires
        distinct_keys(r),
        distinct_keys(d),
        forall|i: int| 0 <= i < r.len() ==> lookup(d, (#[trigger] r[i]).0) is Some,
        forall|i: int| 0 <= i < d.len() ==> lookup(r, (#[trigger] d[i]).0) is Some,
    ensures
        r.len() == d.len(),
{
    let rk = r.map_values(|e: (Seq<char>, V)| e.0);
    let dk = d.map_values(|e: (Seq<char>, V)| e.0);
    assert(rk.no_duplicates()) by {
        assert forall|i: int, j: int| 0 <= i < rk.len() && 0 <= j < rk.len() && i != j implies rk[i]
            != rk[j] by {
            assert(r[i].0 != r[j].0);
        }
    }
    assert(dk.no_duplicates()) by {
        assert forall|i: int, j: int| 0 <= i < dk.len() && 0 <= j < dk.len() && i != j implies dk[i]
            != dk[j] by {
            assert(d[i].0 != d[j].0);
        }
    }
    rk.unique_seq_to_set();
    dk.unique_seq_to_set();
    assert forall|k: Seq<char>| rk.to_set().contains(k) implies dk.to_set().contains(k) by {
        let i = choose|i: int| 0 <= i < rk.len() && rk[i] == k;
        assert(r[i].0 == k);
        let at = lemma_lookup(d, k);
        assert(dk[at] == k);
    }
    assert forall|k: Seq<char>| dk.to_set().contains(k) implies rk.to_set().contains(k) by {
        let i = choose|i: int| 0 <= i < dk.len() && dk[i] == k;
        assert(d[i].0 == k);
        let at = lemma_lookup(r, k);
        assert(rk[at] == k);
    }
    assert(rk.to_set() =~= dk.to_set());
}

} // verus!
