//! When two configurations say the same.
use crate::diff;
use crate::diff::semantic;
use crate::formats;
use crate::formats::Format;
use crate::json;
use crate::json::{EntriesModel, JsonModel};
use crate::pairs;
use crate::text;
use vstd::prelude::*;
use vstd::string::*;

verus! {

/// The dotted path of a key below a path.
pub open spec fn dotted(path: Seq<char>, key: Seq<char>) -> Seq<char> {
    if path.len() == 0 {
        key
    } else {
        path + "."@ + key
    }
}

/// A key is left out of a comparison: its name, or its dotted path, is listed.
pub open spec fn left_out(ignored: Seq<Seq<char>>, path: Seq<char>, key: Seq<char>) -> bool {
    exists|i: int|
        0 <= i < ignored.len() && (#[trigger] ignored[i] == key || ignored[i] == dotted(path, key))
}

/// Two values at a path say the same: simple values that are equal, numbers of
/// equal value, lists whose items say the same one by one, and objects with the
/// same keys, those aside that are left out, whose values say the same under each
/// of them.
pub open spec fn agree(g: JsonModel, d: JsonModel, ignored: Seq<Seq<char>>, path: Seq<char>) -> bool
    decreases g,
{
    match (g, d) {
        (JsonModel::Null, JsonModel::Null) => true,
        (JsonModel::Bool(x), JsonModel::Bool(y)) => x == y,
        (JsonModel::Text(x), JsonModel::Text(y)) => x == y,
        (JsonModel::Number(x), JsonModel::Number(y)) => json::number_equal(x, y)
            || json::same_double(x, y),
        (JsonModel::Array(x), JsonModel::Array(y)) => {
            &&& x.len() == y.len()
            &&& forall|i: int| 0 <= i < x.len() ==> agree(#[trigger] x[i], y[i], ignored, path)
        },
        (JsonModel::Object(x), JsonModel::Object(y)) => {
            &&& forall|i: int|
                0 <= i < x.len() && !left_out(ignored, path, (#[trigger] x[i]).0) ==> {
                    &&& pairs::lookup(y, x[i].0) is Some
                    &&& agree(
                        x[i].1,
                        pairs::lookup(y, x[i].0)->0,
                        ignored,
                        dotted(path, x[i].0),
                    )
                }
            &&& forall|i: int|
                0 <= i < y.len() && !left_out(ignored, path, (#[trigger] y[i]).0)
                    ==> pairs::lookup(x, y[i].0) is Some
        },
        _ => false,
    }
}

proof fn lemma_left_out(ignored: Seq<Seq<char>>, path: Seq<char>, key: Seq<char>)
    ensures
        semantic::is_ignored(ignored, path, key) == left_out(ignored, path, key),
        semantic::key_path(path, key) == dotted(path, key),
{
    let full = dotted(path, key);
    if ignored.contains(key) {
        assert(ignored[ignored.index_of(key)] == key);
    }
    if ignored.contains(full) {
        assert(ignored[ignored.index_of(full)] == full);
    }
}

proof fn lemma_filtered_lookup(
    entries: EntriesModel,
    ignored: Seq<Seq<char>>,
    path: Seq<char>,
    n: nat,
    key: Seq<char>,
)
    requires
        n <= entries.len(),
        pairs::distinct_keys(entries),
    ensures
        pairs::lookup(semantic::filtered_entries(entries, ignored, path, n), key) == match (
            left_out(ignored, path, key),
            pairs::lookup(entries.take(n as int), key),
        ) {
            (false, Some(v)) => Some(semantic::filtered(v, ignored, dotted(path, key))),
            _ => None,
        },
    decreases n,
{
    lemma_left_out(ignored, path, key);
    if n > 0 {
        lemma_filtered_lookup(entries, ignored, path, (n - 1) as nat, key);
        let before = semantic::filtered_entries(entries, ignored, path, (n - 1) as nat);
        let entry = entries[n - 1];
        lemma_left_out(ignored, path, entry.0);
        pairs::lemma_take_lookup(entries, n as int, key);
        if !semantic::is_ignored(ignored, path, entry.0) {
            pairs::lemma_put_lookup(
                before,
                entry.0,
                semantic::filtered(entry.1, ignored, semantic::key_path(path, entry.0)),
                key,
            );
        }
    } else {
        assert(entries.take(0).len() == 0);
    }
}

/// Every key of two objects is found in the other, with an equivalent value.
spec fn same_entries(x: EntriesModel, y: EntriesModel) -> bool {
    &&& forall|i: int|
        0 <= i < x.len() ==> {
            &&& pairs::lookup(y, (#[trigger] x[i]).0) is Some
            &&& semantic::equivalent(x[i].1, pairs::lookup(y, x[i].0)->0)
        }
    &&& forall|i: int| 0 <= i < y.len() ==> pairs::lookup(x, (#[trigger] y[i]).0) is Some
}

proof fn lemma_equivalent_objects(x: EntriesModel, y: EntriesModel)
    requires
        pairs::distinct_keys(x),
        pairs::distinct_keys(y),
    ensures
        semantic::equivalent(JsonModel::Object(x), JsonModel::Object(y)) == same_entries(x, y),
{
    let g = JsonModel::Object(x);
    let d = JsonModel::Object(y);
    assert(g->Object_0 == x && d->Object_0 == y);
    if json::json_equal(g, d) {
        pairs::lemma_same_keys(x, y);
        assert forall|i: int| 0 <= i < x.len() implies {
            &&& pairs::lookup(y, (#[trigger] x[i]).0) is Some
            &&& semantic::equivalent(x[i].1, pairs::lookup(y, x[i].0)->0)
        } by {
            assert(pairs::lookup(y, x[i].0) is Some);
        }
    }
}

proof fn lemma_agree_objects(
    x: EntriesModel,
    y: EntriesModel,
    ignored: Seq<Seq<char>>,
    path: Seq<char>,
)
    requires
        json::well_formed(JsonModel::Object(x)),
        json::well_formed(JsonModel::Object(y)),
    ensures
        semantic::equivalent(
            semantic::filtered(JsonModel::Object(x), ignored, path),
            semantic::filtered(JsonModel::Object(y), ignored, path),
        ) == agree(JsonModel::Object(x), JsonModel::Object(y), ignored, path),
    decreases x,
{
    let g = JsonModel::Object(x);
    let d = JsonModel::Object(y);
    assert(g->Object_0 == x && d->Object_0 == y);
    let fx = semantic::filtered_entries(x, ignored, path, x.len());
    let fy = semantic::filtered_entries(y, ignored, path, y.len());
    semantic::law_ignored_absent(g, ignored, path);
    semantic::law_ignored_absent(d, ignored, path);
    assert(JsonModel::Object(fx)->Object_0 == fx && JsonModel::Object(fy)->Object_0 == fy);
    lemma_equivalent_objects(fx, fy);
    assert(x.take(x.len() as int) =~= x);
    assert(y.take(y.len() as int) =~= y);
    assert forall|i: int| 0 <= i < x.len() implies ({
        &&& !left_out(ignored, path, (#[trigger] x[i]).0) && pairs::lookup(y, x[i].0) is Some
            ==> semantic::equivalent(
            semantic::filtered(x[i].1, ignored, dotted(path, x[i].0)),
            semantic::filtered(pairs::lookup(y, x[i].0)->0, ignored, dotted(path, x[i].0)),
        ) == agree(x[i].1, pairs::lookup(y, x[i].0)->0, ignored, dotted(path, x[i].0))
    }) by {
        if pairs::lookup(y, x[i].0) is Some {
            let at = pairs::lemma_lookup(y, x[i].0);
            assert(json::well_formed(x[i].1) && json::well_formed(y[at].1));
            assert(decreases_to!(x => x[i]));
            assert(decreases_to!(x[i] => x[i].1));
            lemma_agree(x[i].1, y[at].1, ignored, dotted(path, x[i].0));
        }
    }
    if same_entries(fx, fy) {
        assert forall|i: int|
            0 <= i < x.len() && !left_out(ignored, path, (#[trigger] x[i]).0) implies {
            &&& pairs::lookup(y, x[i].0) is Some
            &&& agree(x[i].1, pairs::lookup(y, x[i].0)->0, ignored, dotted(path, x[i].0))
        } by {
            let key = x[i].0;
            pairs::lemma_lookup_distinct(x, i);
            lemma_filtered_lookup(x, ignored, path, x.len(), key);
            lemma_filtered_lookup(y, ignored, path, y.len(), key);
            let at = pairs::lemma_lookup(fx, key);
            assert(fx[at].0 == key);
            assert(pairs::lookup(fy, fx[at].0) is Some);
        }
        assert forall|i: int|
            0 <= i < y.len() && !left_out(ignored, path, (#[trigger] y[i]).0) implies pairs::lookup(
            x,
            y[i].0,
        ) is Some by {
            let key = y[i].0;
            pairs::lemma_lookup_distinct(y, i);
            lemma_filtered_lookup(x, ignored, path, x.len(), key);
            lemma_filtered_lookup(y, ignored, path, y.len(), key);
            let at = pairs::lemma_lookup(fy, key);
            assert(fy[at].0 == key);
            assert(pairs::lookup(fx, fy[at].0) is Some);
        }
    }
    if agree(g, d, ignored, path) {
        assert forall|i: int| 0 <= i < fx.len() implies {
            &&& pairs::lookup(fy, (#[trigger] fx[i]).0) is Some
            &&& semantic::equivalent(fx[i].1, pairs::lookup(fy, fx[i].0)->0)
        } by {
            let key = fx[i].0;
            pairs::lemma_lookup_distinct(fx, i);
            lemma_filtered_lookup(x, ignored, path, x.len(), key);
            lemma_filtered_lookup(y, ignored, path, y.len(), key);
            let at = pairs::lemma_lookup(x, key);
            assert(x[at].0 == key);
            assert(!left_out(ignored, path, x[at].0));
        }
        assert forall|i: int| 0 <= i < fy.len() implies pairs::lookup(
            fx,
            (#[trigger] fy[i]).0,
        ) is Some by {
            let key = fy[i].0;
            pairs::lemma_lookup_distinct(fy, i);
            lemma_filtered_lookup(x, ignored, path, x.len(), key);
            lemma_filtered_lookup(y, ignored, path, y.len(), key);
            let at = pairs::lemma_lookup(y, key);
            assert(y[at].0 == key);
            assert(!left_out(ignored, path, y[at].0));
        }
    }
}

proof fn lemma_agree(g: JsonModel, d: JsonModel, ignored: Seq<Seq<char>>, path: Seq<char>)
    requires
        json::well_formed(g),
        json::well_formed(d),
    ensures
        semantic::equivalent(
            semantic::filtered(g, ignored, path),
            semantic::filtered(d, ignored, path),
        ) == agree(g, d, ignored, path),
    decreases g,
{
    match (g, d) {
        (JsonModel::Object(x), JsonModel::Object(y)) => {
            assert(decreases_to!(g => g->Object_0));
            lemma_agree_objects(x, y, ignored, path);
        },
        (JsonModel::Array(x), JsonModel::Array(y)) => {
            assert(g->Array_0 == x && d->Array_0 == y);
            let fx = semantic::filtered(g, ignored, path)->Array_0;
            let fy = semantic::filtered(d, ignored, path)->Array_0;
            assert forall|i: int| 0 <= i < x.len() && x.len() == y.len() implies (
            semantic::equivalent(#[trigger] fx[i], fy[i]) == agree(
                x[i],
                y[i],
                ignored,
                path,
            )) by {
                assert(json::well_formed(x[i]) && json::well_formed(y[i]));
                assert(decreases_to!(g => g->Array_0));
                assert(decreases_to!(x => x[i]));
                lemma_agree(x[i], y[i], ignored, path);
            }
            if agree(g, d, ignored, path) {
                assert forall|i: int| 0 <= i < fx.len() implies semantic::equivalent(
                    #[trigger] fx[i],
                    fy[i],
                ) by {
                    assert(agree(x[i], y[i], ignored, path));
                }
            }
            if semantic::equivalent(
                semantic::filtered(g, ignored, path),
                semantic::filtered(d, ignored, path),
            ) {
                assert forall|i: int| 0 <= i < x.len() implies agree(
                    #[trigger] x[i],
                    y[i],
                    ignored,
                    path,
                ) by {
                    assert(semantic::equivalent(fx[i], fy[i]));
                }
            }
        },
        _ => {},
    }
}

/// Two values are reported to differ exactly where they do not say the same, the
/// keys aside that are left out.
pub proof fn law_agree(g: JsonModel, d: JsonModel, ignored: Seq<Seq<char>>, styled: bool)
    requires
        json::well_formed(g),
        json::well_formed(d),
    ensures
        semantic::key_changes(
            semantic::filtered(g, ignored, seq![]),
            semantic::filtered(d, ignored, seq![]),
            seq![],
            styled,
        ).len() == 0 <==> agree(g, d, ignored, seq![]),
{
    lemma_agree(g, d, ignored, seq![]);
    semantic::law_changes_complete(
        semantic::filtered(g, ignored, seq![]),
        semantic::filtered(d, ignored, seq![]),
        seq![],
        styled,
    );
}

/// Two texts in a structured format that can be read show a difference exactly
/// where what they hold does not say the same, the keys aside that are left out.
pub proof fn law_texts_agree(
    format: Format,
    generated: Seq<char>,
    deployed: Seq<char>,
    ignored: Seq<Seq<char>>,
    styled: bool,
)
    requires
        format != Format::SpaceDelimitedPairs,
        format != Format::Plaintext,
        formats::parsed(format, generated) is Some,
        formats::parsed(format, deployed) is Some,
        json::well_formed(formats::parsed(format, generated)->0),
        json::well_formed(formats::parsed(format, deployed)->0),
    ensures
        diff::config_lines(format, generated, deployed, ignored, styled).len() == 0 <==> agree(
            formats::parsed(format, generated)->0,
            formats::parsed(format, deployed)->0,
            ignored,
            seq![],
        ),
{
    law_agree(
        formats::parsed(format, generated)->0,
        formats::parsed(format, deployed)->0,
        ignored,
        styled,
    );
}

/// The lines of a text in which none of the patterns is found.
pub open spec fn counting_lines(s: Seq<char>, patterns: Seq<Seq<char>>) -> Seq<Seq<char>> {
    text::lines(s).filter(
        |line: Seq<char>|
            forall|i: int|
                0 <= i < patterns.len() ==> diff::text::pattern_found(
                    #[trigger] patterns[i],
                    line,
                ) != Some(true),
    )
}

proof fn lemma_counting(lines: Seq<Seq<char>>, patterns: Seq<Seq<char>>, n: nat)
    requires
        n <= lines.len(),
    ensures
        diff::text::kept_lines(lines, patterns, n) == lines.take(n as int).filter(
            |line: Seq<char>|
                forall|i: int|
                    0 <= i < patterns.len() ==> diff::text::pattern_found(
                        #[trigger] patterns[i],
                        line,
                    ) != Some(true),
        ),
    decreases n,
{
    let counts = |line: Seq<char>|
        forall|i: int|
            0 <= i < patterns.len() ==> diff::text::pattern_found(#[trigger] patterns[i], line)
                != Some(true);
    reveal(Seq::filter);
    if n == 0 {
        assert(lines.take(0).filter(counts) =~= seq![]);
    } else {
        lemma_counting(lines, patterns, (n - 1) as nat);
        assert(lines.take(n as int).drop_last() =~= lines.take(n - 1));
        assert(lines.take(n as int).last() == lines[n - 1]);
        assert(diff::text::ignored_line(lines[n - 1], patterns) == !counts(lines[n - 1]));
    }
}

/// Two texts in a format that is compared line by line show a difference exactly
/// where their lines differ, the lines aside in which a pattern is found.
pub proof fn law_lines_agree(
    format: Format,
    generated: Seq<char>,
    deployed: Seq<char>,
    patterns: Seq<Seq<char>>,
    styled: bool,
)
    requires
        format == Format::SpaceDelimitedPairs || format == Format::Plaintext,
    ensures
        diff::config_lines(format, generated, deployed, patterns, styled).len() == 0
            <==> counting_lines(generated, patterns) == counting_lines(deployed, patterns),
{
    let g = text::lines(generated);
    let d = text::lines(deployed);
    lemma_counting(g, patterns, g.len());
    lemma_counting(d, patterns, d.len());
    assert(g.take(g.len() as int) =~= g);
    assert(d.take(d.len() as int) =~= d);
    diff::text::law_line_changes(
        diff::text::kept_lines(g, patterns, g.len()),
        diff::text::kept_lines(d, patterns, d.len()),
        styled,
    );
}

/// Where one of two texts cannot be read in its format, they are compared line by
/// line, and no line is left out.
pub proof fn law_unread_compared(
    format: Format,
    generated: Seq<char>,
    deployed: Seq<char>,
    ignored: Seq<Seq<char>>,
    styled: bool,
)
    requires
        format != Format::SpaceDelimitedPairs,
        format != Format::Plaintext,
        formats::parsed(format, generated) is None || formats::parsed(format, deployed) is None,
    ensures
        diff::config_lines(format, generated, deployed, ignored, styled).len() == 0
            <==> text::lines(generated) == text::lines(deployed),
{
    let none = Seq::<Seq<char>>::empty();
    law_lines_agree(Format::Plaintext, generated, deployed, none, styled);
    lemma_all_count(text::lines(generated));
    lemma_all_count(text::lines(deployed));
    lemma_counting(text::lines(generated), none, text::lines(generated).len());
    lemma_counting(text::lines(deployed), none, text::lines(deployed).len());
    let g = text::lines(generated);
    let d = text::lines(deployed);
    assert(g.take(g.len() as int) =~= g);
    assert(d.take(d.len() as int) =~= d);
}

proof fn lemma_all_count(lines: Seq<Seq<char>>)
    ensures
        diff::text::kept_lines(lines, seq![], lines.len()) == lines,
{
    lemma_first_count(lines, lines.len());
    assert(lines.take(lines.len() as int) =~= lines);
}

proof fn lemma_first_count(lines: Seq<Seq<char>>, n: nat)
    requires
        n <= lines.len(),
    ensures
        diff::text::kept_lines(lines, seq![], n) == lines.take(n as int),
    decreases n,
{
    if n == 0 {
        assert(lines.take(0) =~= seq![]);
    } else {
        lemma_first_count(lines, (n - 1) as nat);
        assert(!diff::text::ignored_line(lines[n - 1], seq![]));
        assert(lines.take(n as int) =~= lines.take(n - 1).push(lines[n - 1]));
    }
}

} // verus!
