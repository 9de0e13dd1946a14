//! What a pull writes into the source of an order.
use crate::diff::semantic;
use crate::json;
use crate::json::{EntriesModel, JsonModel};
use crate::nickel::ast_utils::{RewriteModel, SpanModel};
use crate::nickel::layout;
use crate::nickel::reading;
use crate::nickel::rewrite;
use crate::nickel::rewrite::EditModel;
use crate::nickel::schema::FileEntry;
use crate::nickel::term;
use crate::pairs;
use crate::sync::edits;
use crate::sync::edits::FieldEditModel;
use crate::sync::overlay;
use crate::sync::pull;
use crate::sync::pull::{PullError, PullOutcome};
use crate::text;
use vstd::prelude::*;
use vstd::string::*;
use vstd::utf8::*;

verus! {

/// A piece of text that takes the place of a span reads as a value.
pub open spec fn piece_reads(e: EditModel, s: SpanModel, v: JsonModel) -> bool {
    &&& e.start == s.value_start
    &&& e.end == s.value_end
    &&& reading::literal_value(e.text) == Some(v)
}

/// Both sides have a key, with values that are not equal.
pub open spec fn differs_at(current: EntriesModel, deployed: EntriesModel, key: Seq<char>) -> bool {
    match (pairs::lookup(current, key), pairs::lookup(deployed, key)) {
        (Some(c), Some(d)) => !json::json_equal(c, d),
        _ => false,
    }
}

/// A piece is the one of a span whose key differs: it reads as the deployed value.
pub open spec fn piece_earned(
    e: EditModel,
    spans: Seq<SpanModel>,
    current: EntriesModel,
    deployed: EntriesModel,
) -> bool {
    exists|at: int|
        0 <= at < spans.len() && differs_at(current, deployed, (#[trigger] spans[at]).name)
            && piece_reads(e, spans[at], pairs::lookup(deployed, spans[at].name)->0)
}

/// Some piece takes the place of a span and reads as a value.
pub open spec fn piece_given(pieces: Seq<EditModel>, s: SpanModel, v: JsonModel) -> bool {
    exists|i: int| 0 <= i < pieces.len() && piece_reads(#[trigger] pieces[i], s, v)
}

/// No piece takes the place of a span.
pub open spec fn untouched(pieces: Seq<EditModel>, s: SpanModel) -> bool {
    forall|i: int| 0 <= i < pieces.len() ==> (#[trigger] pieces[i]).start != s.value_start
}

/// The lines of pieces are indented one level deeper than the first place that is
/// written to.
pub open spec fn laid_out(
    pieces: Seq<EditModel>,
    source: Seq<char>,
    spans: Seq<SpanModel>,
) -> bool {
    let pad = text::repeated("  "@, pull::spans_indent(source, spans) + 1);
    forall|i: int| 0 <= i < pieces.len() ==> layout::indented_by((#[trigger] pieces[i]).text, pad)
}

/// A source with pieces in the place of ranges, from the back to the front, and
/// nothing else changed.
pub open spec fn patched(source: Seq<char>, pieces: Seq<EditModel>, t: Seq<char>) -> bool {
    let bytes = encode_utf8(source);
    &&& rewrite::disjoint(pieces)
    &&& pieces.len() == 0 ==> t == source
    &&& pieces.len() > 0 ==> encode_utf8(t) == bytes.take(pieces.last().start as int)
        + rewrite::spliced(bytes, pieces, pieces.len())
}

/// A new source holds the deployed value of every key that differs and whose place
/// is known, written in that place so that it reads back, and nothing else in it
/// has changed.
pub open spec fn brought_in(
    source: Seq<char>,
    t: Seq<char>,
    spans: Seq<SpanModel>,
    current: EntriesModel,
    deployed: EntriesModel,
    pieces: Seq<EditModel>,
) -> bool {
    &&& patched(source, pieces, t)
    &&& forall|i: int|
        0 <= i < pieces.len() ==> piece_earned(#[trigger] pieces[i], spans, current, deployed)
    &&& forall|at: int|
        0 <= at < spans.len() && differs_at(current, deployed, (#[trigger] spans[at]).name)
            ==> piece_given(pieces, spans[at], pairs::lookup(deployed, spans[at].name)->0)
}

proof fn lemma_brought_in(
    r: Result<PullOutcome, PullError>,
    source: Seq<char>,
    spans: Seq<SpanModel>,
    current: EntriesModel,
    deployed: EntriesModel,
    warnings: Seq<(crate::output::Level, Seq<char>)>,
)
    requires
        pull::rewrite_right(
            r,
            source,
            spans,
            JsonModel::Object(current),
            JsonModel::Object(deployed),
            warnings,
        ),
        pairs::distinct_keys(deployed),
        reading::numbers_written(JsonModel::Object(deployed)),
        rewrite::distinct_names(spans),
        rewrite::spans_apart(spans, encode_utf8(source)),
    ensures
        r is Ok,
        r->Ok_0 is Rewritten,
        brought_in(
            source,
            r->Ok_0->Rewritten_source@,
            spans,
            current,
            deployed,
            rewrite::rewrite_edits(spans, current, deployed, pull::spans_indent(source, spans)),
        ),
        laid_out(
            rewrite::rewrite_edits(spans, current, deployed, pull::spans_indent(source, spans)),
            source,
            spans,
        ),
{
    let indent = pull::spans_indent(source, spans);
    let pad = text::repeated("  "@, indent + 1);
    let edits = rewrite::rewrite_edits(spans, current, deployed, indent);
    rewrite::law_rewrite_spans(source, spans, current, deployed, indent);
    let t = r->Ok_0->Rewritten_source@;
    assert(JsonModel::Object(deployed)->Object_0 == deployed);
    if edits.len() == 0 {
        text::lemma_encode_injective(t, source);
    }
    assert forall|i: int| 0 <= i < edits.len() implies piece_earned(
        #[trigger] edits[i],
        spans,
        current,
        deployed,
    ) && layout::indented_by(edits[i].text, pad) by {
        assert(rewrite::edit_placed(spans, current, deployed, pad, edits[i], deployed.len()));
        let (at, k) = choose|at: int, k: int|
            k < deployed.len() && #[trigger] rewrite::edit_at(
                spans,
                current,
                deployed,
                pad,
                edits[i],
                at,
                k,
            );
        pairs::lemma_lookup_distinct(deployed, k);
        assert(reading::numbers_written(deployed[k].1));
        reading::law_literal_read_back(deployed[k].1, indent + 1);
        layout::law_literal_indented(deployed[k].1, indent + 1);
        assert(differs_at(current, deployed, spans[at].name));
    }
    assert forall|at: int|
        0 <= at < spans.len() && differs_at(
            current,
            deployed,
            (#[trigger] spans[at]).name,
        ) implies piece_given(edits, spans[at], pairs::lookup(deployed, spans[at].name)->0) by {
        let k = pairs::lemma_lookup(deployed, spans[at].name);
        assert(rewrite::changed_key(current, deployed, k));
        assert(rewrite::edit_made(spans, deployed, pad, edits, at, k));
        let e = EditModel {
            start: spans[at].value_start,
            end: spans[at].value_end,
            text: crate::nickel::literal::nickel_text(deployed[k].1, pad),
        };
        let i = edits.index_of(e);
        assert(reading::numbers_written(deployed[k].1));
        reading::law_literal_read_back(deployed[k].1, indent + 1);
        assert(piece_reads(edits[i], spans[at], deployed[k].1));
    }
}

/// A pull of a whole entry succeeds and comes to a source that holds the deployed
/// value of every key that differs and whose place is known, its lines indented
/// below that place, and is else the same.
pub proof fn law_entry_pulled(
    r: Result<PullOutcome, PullError>,
    found: RewriteModel,
    source: Seq<char>,
    ncl_path: Seq<char>,
    current: EntriesModel,
    deployed: EntriesModel,
    entry: FileEntry,
)
    requires
        pull::entry_pull_right(
            r,
            found,
            source,
            ncl_path,
            Some(JsonModel::Object(deployed)),
            Some(&entry),
            false,
            false,
        ),
        entry.from_config is Some,
        entry.from_config->0@ == JsonModel::Object(current),
        found.spans().len() > 0,
        pairs::distinct_keys(deployed),
        reading::numbers_written(JsonModel::Object(deployed)),
        rewrite::distinct_names(found.spans()),
        rewrite::spans_apart(found.spans(), encode_utf8(source)),
    ensures
        r is Ok,
        r->Ok_0 is Rewritten,
        exists|pieces: Seq<EditModel>| #[trigger]
            brought_in(
                source,
                r->Ok_0->Rewritten_source@,
                found.spans(),
                current,
                deployed,
                pieces,
            ) && laid_out(pieces, source, found.spans()),
        r->Ok_0->Rewritten_warnings@.len() == found.blocked().len(),
{
    let spans = found.spans();
    let warnings = pull::blocked_warnings(found.blocked(), None, found.blocked().len());
    assert(term::range_lies_in(
        spans[0].value_start,
        spans[0].value_end,
        encode_utf8(source),
    ));
    lemma_brought_in(r, source, spans, current, deployed, warnings);
    lemma_all_warned(found.blocked(), found.blocked().len());
}

proof fn lemma_all_warned(fields: Seq<crate::nickel::ast_utils::BlockedModel>, n: nat)
    requires
        n <= fields.len(),
    ensures
        pull::blocked_warnings(fields, None, n).len() == n,
    decreases n,
{
    if n > 0 {
        lemma_all_warned(fields, (n - 1) as nat);
    }
}

/// Without a place to write to, nothing can be pulled, and the order is not
/// touched.
pub proof fn law_nowhere_to_pull(
    r: Result<PullOutcome, PullError>,
    found: RewriteModel,
    source: Seq<char>,
    ncl_path: Seq<char>,
    deployed: Option<JsonModel>,
    entry: Option<&FileEntry>,
    pulled: Seq<Seq<char>>,
    changes: Seq<semantic::ChangeModel>,
    dry_run: bool,
)
    requires
        found.spans().len() == 0,
        pull::entry_pull_right(r, found, source, ncl_path, deployed, entry, false, dry_run)
            || pull::keys_pull_right(
            r,
            found,
            source,
            ncl_path,
            deployed,
            entry,
            pulled,
            changes,
            false,
            dry_run,
        ),
    ensures
        !(r matches Ok(PullOutcome::Rewritten { .. })),
        !(r matches Ok(PullOutcome::Restructure { .. })),
{
}

/// A deployed text that cannot be read, an entry that is not there and one without
/// configuration end a pull with an error that says so.
pub proof fn law_pull_refused(
    r: Result<PullOutcome, PullError>,
    found: RewriteModel,
    source: Seq<char>,
    ncl_path: Seq<char>,
    deployed: Option<JsonModel>,
    entry: Option<&FileEntry>,
    pulled: Seq<Seq<char>>,
    changes: Seq<semantic::ChangeModel>,
    structure: bool,
    dry_run: bool,
)
    requires
        deployed is None || entry is None || entry->0.from_config is None,
        (found.spans().len() > 0 && pull::entry_pull_right(
            r,
            found,
            source,
            ncl_path,
            deployed,
            entry,
            structure,
            dry_run,
        )) || pull::keys_pull_right(
            r,
            found,
            source,
            ncl_path,
            deployed,
            entry,
            pulled,
            changes,
            structure,
            dry_run,
        ),
    ensures
        r is Err,
        deployed is None ==> r->Err_0 is DeployedUnreadable,
        deployed is Some && entry is None ==> r->Err_0 is NoEntry,
        deployed is Some && entry is Some ==> r->Err_0 is NoFromConfig,
{
}

// ---------------------------------------------------------------------------
// Single keys
// ---------------------------------------------------------------------------

proof fn lemma_reach_below(pulled: Seq<Seq<char>>, path: Seq<char>, key: Seq<char>)
    requires
        path.len() > 0,
        overlay::reaches(pulled, semantic::key_path(path, key)),
    ensures
        overlay::reaches(pulled, path),
{
    let at = semantic::key_path(path, key);
    let i = choose|i: int|
        0 <= i < pulled.len() && (#[trigger] pulled[i] == at || text::begins(
            pulled[i],
            at + "."@,
        ));
    let p = pulled[i];
    let head = path + "."@;
    if p == at {
        assert(p.take(head.len() as int) =~= head);
    } else {
        assert(p.take((at + "."@).len() as int) == at + "."@);
        assert(p.take(head.len() as int) =~= p.take((at + "."@).len() as int).take(
            head.len() as int,
        ));
        assert((at + "."@).take(head.len() as int) =~= head);
    }
    assert(text::begins(p, head));
}

/// What no pulled path reaches stays as it is.
pub proof fn law_not_reached(
    current: JsonModel,
    deployed: JsonModel,
    pulled: Seq<Seq<char>>,
    path: Seq<char>,
)
    requires
        json::well_formed(current),
        path.len() > 0,
        !overlay::reaches(pulled, path),
    ensures
        overlay::overlaid(current, deployed, pulled, path) == current,
    decreases current, 1nat,
{
    lemma_not_pulled(pulled, path);
    match (current, deployed) {
        (JsonModel::Object(c), JsonModel::Object(d)) => {
            assert(current->Object_0 == c);
            lemma_current_kept(c, d, pulled, path, c.len());
            assert(c.take(c.len() as int) =~= c);
            lemma_none_new(c, c, d, pulled, path, d.len());
        },
        _ => {},
    }
}

proof fn lemma_not_pulled(pulled: Seq<Seq<char>>, path: Seq<char>)
    requires
        !overlay::reaches(pulled, path),
    ensures
        !pulled.contains(path),
{
    if pulled.contains(path) {
        assert(pulled[pulled.index_of(path)] == path);
    }
}

proof fn lemma_current_kept(
    c: EntriesModel,
    d: EntriesModel,
    pulled: Seq<Seq<char>>,
    path: Seq<char>,
    n: nat,
)
    requires
        n <= c.len(),
        json::well_formed(JsonModel::Object(c)),
        path.len() > 0,
        !overlay::reaches(pulled, path),
    ensures
        overlay::overlaid_current(c, d, pulled, path, n) == c.take(n as int),
    decreases c, n,
{
    assert(JsonModel::Object(c)->Object_0 == c);
    if n == 0 {
        assert(c.take(0) =~= seq![]);
    } else {
        lemma_current_kept(c, d, pulled, path, (n - 1) as nat);
        let before = c.take(n - 1);
        let key = c[n - 1].0;
        let value = c[n - 1].1;
        let below = semantic::key_path(path, key);
        if overlay::reaches(pulled, below) {
            lemma_reach_below(pulled, path, key);
        }
        if let Some(v) = pairs::lookup(d, key) {
            assert(json::well_formed(value));
            law_not_reached(value, v, pulled, below);
        }
        let at = pairs::lemma_lookup(before, key);
        if pairs::lookup(before, key) is Some {
            assert(before[at] == c[at]);
        }
        pairs::lemma_put_new(before, key, value);
        assert(c.take(n as int) =~= before.push((key, value)));
    }
}

proof fn lemma_none_new(
    start: EntriesModel,
    c: EntriesModel,
    d: EntriesModel,
    pulled: Seq<Seq<char>>,
    path: Seq<char>,
    n: nat,
)
    requires
        n <= d.len(),
        path.len() > 0,
        !overlay::reaches(pulled, path),
    ensures
        overlay::overlaid_new(start, c, d, pulled, path, n) == start,
    decreases n,
{
    if n > 0 {
        lemma_none_new(start, c, d, pulled, path, (n - 1) as nat);
        let below = semantic::key_path(path, d[n - 1].0);
        if overlay::reaches(pulled, below) {
            lemma_reach_below(pulled, path, d[n - 1].0);
        }
        lemma_not_pulled(pulled, below);
    }
}

/// Entries with distinct keys whose values hold numbers that are written as such.
spec fn sound(e: EntriesModel) -> bool {
    pairs::distinct_keys(e) && forall|i: int|
        0 <= i < e.len() ==> reading::numbers_written((#[trigger] e[i]).1)
}

proof fn lemma_put_sound(e: EntriesModel, key: Seq<char>, v: JsonModel)
    requires
        sound(e),
        reading::numbers_written(v),
    ensures
        sound(pairs::put(e, key, v)),
{
    pairs::lemma_put_distinct(e, key, v);
    let at = pairs::lemma_lookup(e, key);
    if pairs::lookup(e, key) is Some {
        pairs::lemma_put_at(e, key, v, at);
    } else {
        pairs::lemma_put_new(e, key, v);
    }
}

proof fn lemma_picked_sound(v: JsonModel, pulled: Seq<Seq<char>>, path: Seq<char>)
    requires
        reading::numbers_written(v),
    ensures
        overlay::picked(v, pulled, path) matches Some(x) ==> reading::numbers_written(x),
    decreases v, 1nat,
{
    if let JsonModel::Object(d) = v {
        assert(v->Object_0 == d);
        lemma_picked_entries_sound(d, pulled, path, d.len());
        let kept = overlay::picked_entries(d, pulled, path, d.len());
        assert(JsonModel::Object(kept)->Object_0 == kept);
    }
}

proof fn lemma_picked_entries_sound(
    d: EntriesModel,
    pulled: Seq<Seq<char>>,
    path: Seq<char>,
    n: nat,
)
    requires
        n <= d.len(),
        reading::numbers_written(JsonModel::Object(d)),
    ensures
        sound(overlay::picked_entries(d, pulled, path, n)),
    decreases d, n,
{
    assert(JsonModel::Object(d)->Object_0 == d);
    if n > 0 {
        lemma_picked_entries_sound(d, pulled, path, (n - 1) as nat);
        let below = semantic::key_path(path, d[n - 1].0);
        assert(reading::numbers_written(d[n - 1].1));
        lemma_picked_sound(d[n - 1].1, pulled, below);
        if let Some(v) = overlay::picked(d[n - 1].1, pulled, below) {
            lemma_put_sound(
                overlay::picked_entries(d, pulled, path, (n - 1) as nat),
                d[n - 1].0,
                v,
            );
        }
    }
}

proof fn lemma_overlaid_sound(
    current: JsonModel,
    deployed: JsonModel,
    pulled: Seq<Seq<char>>,
    path: Seq<char>,
)
    requires
        reading::numbers_written(current),
        reading::numbers_written(deployed),
    ensures
        reading::numbers_written(overlay::overlaid(current, deployed, pulled, path)),
        current is Object && deployed is Object && !(path.len() > 0 && pulled.contains(path))
            ==> sound(overlay::overlaid(current, deployed, pulled, path)->Object_0),
    decreases current, 1nat,
{
    match (current, deployed) {
        (JsonModel::Object(c), JsonModel::Object(d)) => {
            assert(current->Object_0 == c && deployed->Object_0 == d);
            let start = overlay::overlaid_current(c, d, pulled, path, c.len());
            lemma_current_sound(c, d, pulled, path, c.len());
            lemma_new_sound(start, c, d, pulled, path, d.len());
            let all = overlay::overlaid_new(start, c, d, pulled, path, d.len());
            assert(JsonModel::Object(all)->Object_0 == all);
        },
        _ => {},
    }
}

proof fn lemma_current_sound(
    c: EntriesModel,
    d: EntriesModel,
    pulled: Seq<Seq<char>>,
    path: Seq<char>,
    n: nat,
)
    requires
        n <= c.len(),
        reading::numbers_written(JsonModel::Object(c)),
        reading::numbers_written(JsonModel::Object(d)),
    ensures
        sound(overlay::overlaid_current(c, d, pulled, path, n)),
    decreases c, n,
{
    assert(JsonModel::Object(c)->Object_0 == c);
    assert(JsonModel::Object(d)->Object_0 == d);
    if n > 0 {
        lemma_current_sound(c, d, pulled, path, (n - 1) as nat);
        let key = c[n - 1].0;
        let below = semantic::key_path(path, key);
        assert(reading::numbers_written(c[n - 1].1));
        let value = match pairs::lookup(d, key) {
            Some(v) => overlay::overlaid(c[n - 1].1, v, pulled, below),
            None => c[n - 1].1,
        };
        if let Some(v) = pairs::lookup(d, key) {
            let at = pairs::lemma_lookup(d, key);
            assert(reading::numbers_written(d[at].1));
            lemma_overlaid_sound(c[n - 1].1, v, pulled, below);
        }
        lemma_put_sound(
            overlay::overlaid_current(c, d, pulled, path, (n - 1) as nat),
            key,
            value,
        );
    }
}

proof fn lemma_new_sound(
    start: EntriesModel,
    c: EntriesModel,
    d: EntriesModel,
    pulled: Seq<Seq<char>>,
    path: Seq<char>,
    n: nat,
)
    requires
        n <= d.len(),
        sound(start),
        reading::numbers_written(JsonModel::Object(d)),
    ensures
        sound(overlay::overlaid_new(start, c, d, pulled, path, n)),
    decreases n,
{
    assert(JsonModel::Object(d)->Object_0 == d);
    if n > 0 {
        lemma_new_sound(start, c, d, pulled, path, (n - 1) as nat);
        let key = d[n - 1].0;
        let below = semantic::key_path(path, key);
        assert(reading::numbers_written(d[n - 1].1));
        lemma_picked_sound(d[n - 1].1, pulled, below);
        if let Some(v) = overlay::picked(d[n - 1].1, pulled, below) {
            lemma_put_sound(
                overlay::overlaid_new(start, c, d, pulled, path, (n - 1) as nat),
                key,
                v,
            );
        }
    }
}

/// The pieces do for a span what the choice of keys asks for: where its key is
/// pulled and differs, a piece reads as the deployed value; where no pulled path
/// reaches its key, no piece takes its place.
pub open spec fn chosen_right(
    pieces: Seq<EditModel>,
    s: SpanModel,
    current: EntriesModel,
    deployed: EntriesModel,
    pulled: Seq<Seq<char>>,
) -> bool {
    &&& pulled.contains(s.name) && differs_at(current, deployed, s.name) ==> piece_given(
        pieces,
        s,
        pairs::lookup(deployed, s.name)->0,
    )
    &&& !overlay::reaches(pulled, s.name) ==> untouched(pieces, s)
}

/// A pull of single keys succeeds and comes to a source in which each pulled key
/// of the top level that differs, and whose place is known, holds its deployed
/// value, while a key that no pulled path reaches is left as it stands, and so is
/// everything between the values.
pub proof fn law_keys_pulled(
    r: Result<PullOutcome, PullError>,
    found: RewriteModel,
    source: Seq<char>,
    ncl_path: Seq<char>,
    current: EntriesModel,
    deployed: EntriesModel,
    entry: FileEntry,
    pulled: Seq<Seq<char>>,
    changes: Seq<semantic::ChangeModel>,
)
    requires
        pull::keys_pull_right(
            r,
            found,
            source,
            ncl_path,
            Some(JsonModel::Object(deployed)),
            Some(&entry),
            pulled,
            changes,
            false,
            false,
        ),
        entry.from_config is Some,
        entry.from_config->0@ == JsonModel::Object(current),
        found.spans().len() > 0,
        json::well_formed(JsonModel::Object(current)),
        json::well_formed(JsonModel::Object(deployed)),
        reading::numbers_written(JsonModel::Object(current)),
        reading::numbers_written(JsonModel::Object(deployed)),
        rewrite::distinct_names(found.spans()),
        rewrite::spans_apart(found.spans(), encode_utf8(source)),
        forall|i: int|
            0 <= i < found.spans().len() ==> (#[trigger] found.spans()[i]).name.len() > 0,
    ensures
        r is Ok,
        r->Ok_0 is Rewritten,
        exists|pieces: Seq<EditModel>| #[trigger]
            patched(source, pieces, r->Ok_0->Rewritten_source@) && laid_out(
                pieces,
                source,
                found.spans(),
            ) && forall|at: int|
                0 <= at < found.spans().len() ==> chosen_right(
                    pieces,
                    #[trigger] found.spans()[at],
                    current,
                    deployed,
                    pulled,
                ),
{
    let none = Seq::<char>::empty();
    let spans = found.spans();
    let c = JsonModel::Object(current);
    let d = JsonModel::Object(deployed);
    let chosen = overlay::overlaid(c, d, pulled, none);
    let mixed = chosen->Object_0;
    let warnings = pull::blocked_warnings(found.blocked(), Some(pulled), found.blocked().len());
    assert(c->Object_0 == current && d->Object_0 == deployed);
    assert(term::range_lies_in(
        spans[0].value_start,
        spans[0].value_end,
        encode_utf8(source),
    ));
    lemma_overlaid_sound(c, d, pulled, none);
    assert(chosen == JsonModel::Object(mixed));
    lemma_brought_in(r, source, spans, current, mixed, warnings);
    let pieces = rewrite::rewrite_edits(
        spans,
        current,
        mixed,
        pull::spans_indent(source, spans),
    );
    assert forall|at: int| 0 <= at < spans.len() implies chosen_right(
        pieces,
        #[trigger] spans[at],
        current,
        deployed,
        pulled,
    ) by {
        let s = spans[at];
        let key = s.name;
        assert(semantic::key_path(none, key) == key);
        overlay::law_overlay(current, deployed, pulled, none, key);
        if pulled.contains(key) && differs_at(current, deployed, key) {
            overlay::law_pulled_key(current, deployed, pulled, key);
            assert(differs_at(current, mixed, spans[at].name));
        }
        if !overlay::reaches(pulled, key) {
            let in_current = pairs::lemma_lookup(current, key);
            if pairs::lookup(current, key) is Some {
                assert(json::well_formed(current[in_current].1));
                json::law_equal_reflexive(current[in_current].1);
                if let Some(v) = pairs::lookup(deployed, key) {
                    law_not_reached(current[in_current].1, v, pulled, key);
                }
            }
            assert(!differs_at(current, mixed, key));
            assert forall|i: int| 0 <= i < pieces.len() implies (#[trigger] pieces[i]).start
                != s.value_start by {
                assert(piece_earned(pieces[i], spans, current, mixed));
                let other = choose|other: int|
                    0 <= other < spans.len() && differs_at(
                        current,
                        mixed,
                        (#[trigger] spans[other]).name,
                    ) && piece_reads(
                        pieces[i],
                        spans[other],
                        pairs::lookup(mixed, spans[other].name)->0,
                    );
                assert(other != at);
                if other < at {
                    assert(spans[other].value_start != spans[at].value_start);
                } else {
                    assert(spans[at].value_start != spans[other].value_start);
                }
            }
        }
    }
    assert(patched(source, pieces, r->Ok_0->Rewritten_source@));
}

// ---------------------------------------------------------------------------
// Fields that come and go
// ---------------------------------------------------------------------------

/// One side alone has a key.
pub open spec fn one_sided(current: EntriesModel, deployed: EntriesModel, key: Seq<char>) -> bool {
    (pairs::lookup(current, key) is Some) != (pairs::lookup(deployed, key) is Some)
}

/// Where a field of the top level comes or goes and the structure of the source is
/// known, a pull of a whole entry edits the source by structure: the edits insert
/// or delete that field, and carried out on the configuration of the order they
/// give the deployed one.
pub proof fn law_fields_restructured(
    r: Result<PullOutcome, PullError>,
    found: RewriteModel,
    source: Seq<char>,
    ncl_path: Seq<char>,
    current: EntriesModel,
    deployed: EntriesModel,
    entry: FileEntry,
    key: Seq<char>,
)
    requires
        pull::entry_pull_right(
            r,
            found,
            source,
            ncl_path,
            Some(JsonModel::Object(deployed)),
            Some(&entry),
            true,
            false,
        ),
        entry.from_config is Some,
        entry.from_config->0@ == JsonModel::Object(current),
        found.spans().len() > 0,
        pull::first_span_fits(source, found.spans()),
        json::well_formed(JsonModel::Object(current)),
        json::well_formed(JsonModel::Object(deployed)),
        semantic::plain_keys(JsonModel::Object(current)),
        semantic::plain_keys(JsonModel::Object(deployed)),
        one_sided(current, deployed, key),
    ensures
        r is Ok,
        r->Ok_0 is Restructure,
        ({
            let es = edits::field_edits_model(r->Ok_0->edits@);
            &&& es.contains(
                match pairs::lookup(deployed, key) {
                    Some(v) => FieldEditModel::Insert { path: key, value: v },
                    None => FieldEditModel::Delete { path: key },
                },
            )
            &&& json::json_equal(
                edits::carried_out(JsonModel::Object(current), es, es.len()),
                JsonModel::Object(deployed),
            )
        }),
{
    let none = Seq::<char>::empty();
    let c = JsonModel::Object(current);
    let d = JsonModel::Object(deployed);
    let keys = seq![key];
    let e = match pairs::lookup(deployed, key) {
        Some(v) => FieldEditModel::Insert { path: key, value: v },
        None => FieldEditModel::Delete { path: key },
    };
    assert(c->Object_0 == current && d->Object_0 == deployed);
    reveal_with_fuel(semantic::chain_value, 2);
    reveal_with_fuel(semantic::chain_path, 2);
    assert(keys.skip(1) =~= Seq::<Seq<char>>::empty());
    assert(semantic::chain_path(none, keys) == key);
    assert(edits::edit_at(e, c, d, none, keys));
    edits::law_edits_all(c, d, none, keys, e);
    edits::law_edits_carried_out(c, d);
    let wanted = edits::field_edits(c, d, none);
    let i = wanted.index_of(e);
    assert(!(wanted[i] is Modify));
}

// ---------------------------------------------------------------------------
// Keys at any depth
// ---------------------------------------------------------------------------

/// No key of a chain is empty.
pub open spec fn keys_named(keys: Seq<Seq<char>>) -> bool {
    forall|i: int| 0 <= i < keys.len() ==> (#[trigger] keys[i]).len() > 0
}

/// At any depth, a pulled path takes its deployed value, as long as both sides have
/// records on the way to it.
pub proof fn law_pulled_chain(
    current: JsonModel,
    deployed: JsonModel,
    pulled: Seq<Seq<char>>,
    path: Seq<char>,
    keys: Seq<Seq<char>>,
)
    requires
        json::well_formed(current),
        json::well_formed(deployed),
        keys.len() > 0,
        keys_named(keys),
        semantic::chain_shared(current, deployed, keys),
        semantic::chain_value(deployed, keys) is Some,
        pulled.contains(semantic::chain_path(path, keys)),
    ensures
        semantic::chain_value(overlay::overlaid(current, deployed, pulled, path), keys)
            == semantic::chain_value(deployed, keys),
    decreases keys.len(),
{
    let c = current->Object_0;
    let d = deployed->Object_0;
    assert(current == JsonModel::Object(c) && deployed == JsonModel::Object(d));
    if path.len() > 0 && pulled.contains(path) {
    } else {
        let key = keys[0];
        let rest = keys.skip(1);
        let at = semantic::key_path(path, key);
        overlay::law_overlay(c, d, pulled, path, key);
        let in_c = pairs::lemma_lookup(c, key);
        let in_d = pairs::lemma_lookup(d, key);
        if keys.len() == 1 {
            assert(rest =~= Seq::<Seq<char>>::empty());
            assert(semantic::chain_path(at, rest) == at);
            assert(at.len() > 0);
            assert(pulled.contains(at));
        } else {
            assert(json::well_formed(c[in_c].1));
            assert(json::well_formed(d[in_d].1));
            assert forall|i: int| 0 <= i < rest.len() implies (#[trigger] rest[i]).len() > 0 by {
                assert(rest[i] == keys[i + 1]);
            }
            law_pulled_chain(c[in_c].1, d[in_d].1, pulled, at, rest);
        }
    }
}

/// None of the paths on the way along a chain is pulled.
pub open spec fn way_not_pulled(
    pulled: Seq<Seq<char>>,
    path: Seq<char>,
    keys: Seq<Seq<char>>,
) -> bool
    decreases keys.len(),
{
    keys.len() == 0 || (!pulled.contains(semantic::key_path(path, keys[0])) && way_not_pulled(
        pulled,
        semantic::key_path(path, keys[0]),
        keys.skip(1),
    ))
}

/// At any depth, what no pulled path reaches, and what does not stand below one, is
/// left as the order has it.
pub proof fn law_unpulled_chain(
    current: JsonModel,
    deployed: JsonModel,
    pulled: Seq<Seq<char>>,
    path: Seq<char>,
    keys: Seq<Seq<char>>,
)
    requires
        json::well_formed(current),
        json::well_formed(deployed),
        keys.len() > 0,
        keys_named(keys),
        semantic::chain_shared(current, deployed, keys),
        path.len() == 0 || !pulled.contains(path),
        way_not_pulled(pulled, path, keys),
        !overlay::reaches(pulled, semantic::chain_path(path, keys)),
    ensures
        semantic::chain_value(overlay::overlaid(current, deployed, pulled, path), keys)
            == semantic::chain_value(current, keys),
    decreases keys.len(),
{
    let c = current->Object_0;
    let d = deployed->Object_0;
    assert(current == JsonModel::Object(c) && deployed == JsonModel::Object(d));
    let key = keys[0];
    let rest = keys.skip(1);
    let at = semantic::key_path(path, key);
    overlay::law_overlay(c, d, pulled, path, key);
    let in_c = pairs::lemma_lookup(c, key);
    let in_d = pairs::lemma_lookup(d, key);
    if keys.len() == 1 {
        assert(rest =~= Seq::<Seq<char>>::empty());
        assert(semantic::chain_path(at, rest) == at);
        if pairs::lookup(c, key) is Some {
            assert(json::well_formed(c[in_c].1));
            if pairs::lookup(d, key) is Some {
                law_not_reached(c[in_c].1, d[in_d].1, pulled, at);
            }
        }
    } else {
        assert(json::well_formed(c[in_c].1));
        assert(json::well_formed(d[in_d].1));
        assert forall|i: int| 0 <= i < rest.len() implies (#[trigger] rest[i]).len() > 0 by {
            assert(rest[i] == keys[i + 1]);
        }
        law_unpulled_chain(c[in_c].1, d[in_d].1, pulled, at, rest);
    }
}

} // verus!
