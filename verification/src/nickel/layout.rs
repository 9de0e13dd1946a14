//! How Nickel literals are laid out in lines.
use crate::json::{EntriesModel, JsonModel};
use crate::nickel::literal;
use crate::nickel::reading;
use crate::text;
use vstd::prelude::*;
use vstd::string::*;

verus! {

/// Every line of a text behind the first begins with an indentation.
pub open spec fn indented_by(s: Seq<char>, pad: Seq<char>) -> bool {
    forall|i: int|
        0 <= i < s.len() && #[trigger] s[i] == '\n' ==> text::begins(s.skip(i + 1), pad)
}

/// Every line of a text behind the first begins with an indentation, an empty one
/// at its end aside.
spec fn lines_padded(s: Seq<char>, pad: Seq<char>) -> bool {
    forall|i: int|
        0 <= i < s.len() - 1 && #[trigger] s[i] == '\n' ==> text::begins(s.skip(i + 1), pad)
}

/// A text is one line.
spec fn unbroken(s: Seq<char>) -> bool {
    forall|i: int| 0 <= i < s.len() ==> #[trigger] s[i] != '\n'
}

/// A text does not end with a line break.
spec fn ends_open(s: Seq<char>) -> bool {
    s.len() > 0 && s.last() != '\n'
}

proof fn lemma_padded_concat(a: Seq<char>, b: Seq<char>, pad: Seq<char>)
    requires
        lines_padded(a, pad),
        lines_padded(b, pad),
        ends_open(a) || a.len() == 0 || text::begins(b, pad) || b.len() == 0,
    ensures
        lines_padded(a + b, pad),
{
    let all = a + b;
    assert forall|i: int| 0 <= i < all.len() - 1 && #[trigger] all[i] == '\n' implies text::begins(
        all.skip(i + 1),
        pad,
    ) by {
        let rest = all.skip(i + 1);
        if i < a.len() - 1 {
            assert(a[i] == '\n');
            let own = a.skip(i + 1);
            assert(own.take(pad.len() as int) == pad);
            assert(rest.take(pad.len() as int) =~= own.take(pad.len() as int));
        } else if i == a.len() - 1 {
            assert(a.last() == '\n');
            assert(rest =~= b);
        } else {
            assert(b[i - a.len()] == '\n');
            assert(rest =~= b.skip(i - a.len() + 1));
        }
    }
}

proof fn lemma_less_padded(s: Seq<char>, pad: Seq<char>, more: Seq<char>)
    requires
        lines_padded(s, pad + more),
    ensures
        lines_padded(s, pad),
{
    assert forall|i: int| 0 <= i < s.len() - 1 && #[trigger] s[i] == '\n' implies text::begins(
        s.skip(i + 1),
        pad,
    ) by {
        let rest = s.skip(i + 1);
        let full = pad + more;
        assert(rest.take(full.len() as int) == full);
        assert(rest.take(pad.len() as int) =~= full.take(pad.len() as int));
        assert(full.take(pad.len() as int) =~= pad);
    }
}

proof fn lemma_begins_concat(a: Seq<char>, b: Seq<char>)
    ensures
        text::begins(a + b, a),
{
    assert((a + b).take(a.len() as int) =~= a);
}

proof fn lemma_name_unbroken(key: Seq<char>)
    ensures
        unbroken(literal::field_name(key)),
{
    reveal_strlit("\"");
    let name = literal::field_name(key);
    literal::law_escaped_plain(key);
    assert forall|i: int| 0 <= i < name.len() implies #[trigger] name[i] != '\n' by {
        if !literal::bare_name(key) && 0 < i < name.len() - 1 {
            assert(name[i] == literal::escaped(key)[i - 1]);
        }
    }
}

proof fn lemma_simple_unbroken(v: JsonModel, pad: Seq<char>)
    requires
        literal::simple_value(v),
        reading::numbers_written(v),
    ensures
        unbroken(literal::nickel_text(v, pad)),
        literal::nickel_text(v, pad).len() > 0,
{
    reveal_strlit("\"");
    reveal_strlit("null");
    reveal_strlit("true");
    reveal_strlit("false");
    if let JsonModel::Text(t) = v {
        let s = literal::nickel_text(v, pad);
        literal::law_escaped_plain(t);
        assert forall|i: int| 0 <= i < s.len() implies #[trigger] s[i] != '\n' by {
            if 0 < i < s.len() - 1 {
                assert(s[i] == literal::escaped(t)[i - 1]);
            }
        }
    }
}

proof fn lemma_joined_unbroken(parts: Seq<Seq<char>>, sep: Seq<char>)
    requires
        unbroken(sep),
        forall|i: int| 0 <= i < parts.len() ==> unbroken(#[trigger] parts[i]),
    ensures
        unbroken(text::joined(parts, sep)),
    decreases parts.len(),
{
    if parts.len() > 1 {
        let before = parts.drop_last();
        assert forall|i: int| 0 <= i < before.len() implies unbroken(#[trigger] before[i]) by {
            assert(before[i] == parts[i]);
        }
        lemma_joined_unbroken(before, sep);
        assert(unbroken(parts[parts.len() - 1]));
    } else if parts.len() == 1 {
        assert(unbroken(parts[0]));
    }
}

proof fn lemma_pairs_unbroken(entries: EntriesModel)
    requires
        literal::all_simple(entries),
        reading::numbers_written(JsonModel::Object(entries)),
    ensures
        unbroken(text::joined(literal::nickel_pairs(entries), ", "@)),
{
    reveal_strlit(", ");
    reveal_strlit(" = ");
    assert(JsonModel::Object(entries)->Object_0 == entries);
    let parts = literal::nickel_pairs(entries);
    assert forall|i: int| 0 <= i < parts.len() implies unbroken(#[trigger] parts[i]) by {
        lemma_name_unbroken(entries[i].0);
        assert(literal::simple_value(entries[i].1));
        assert(reading::numbers_written(entries[i].1));
        lemma_simple_unbroken(entries[i].1, seq![]);
    }
    lemma_joined_unbroken(parts, ", "@);
}

proof fn lemma_text_padded(v: JsonModel, pad: Seq<char>)
    requires
        reading::numbers_written(v),
        unbroken(pad),
    ensures
        lines_padded(literal::nickel_text(v, pad), pad),
        ends_open(literal::nickel_text(v, pad)),
    decreases v, 1nat,
{
    reveal_strlit("  ");
    let deep = pad + "  "@;
    let s = literal::nickel_text(v, pad);
    match v {
        JsonModel::Array(items) => {
            assert(v->Array_0 == items);
            reveal_strlit("[]");
            reveal_strlit("[");
            reveal_strlit("]");
            reveal_strlit("[\n");
            if items.len() == 0 {
                assert(unbroken(s));
            } else if items.len() == 1 && literal::simple_value(items[0]) {
                assert(reading::numbers_written(items[0]));
                lemma_simple_unbroken(items[0], seq![]);
                assert(unbroken(s));
            } else {
                let body = literal::nickel_items(items, deep, items.len());
                lemma_items_padded(items, deep, items.len());
                lemma_closed("[\n"@, body, pad, "  "@, "]"@);
            }
        },
        JsonModel::Object(entries) => {
            assert(v->Object_0 == entries);
            reveal_strlit("{}");
            reveal_strlit("{ ");
            reveal_strlit(" }");
            reveal_strlit("}");
            reveal_strlit("{\n");
            if entries.len() == 0 {
                assert(unbroken(s));
            } else if entries.len() <= 2 && literal::all_simple(entries) {
                lemma_pairs_unbroken(entries);
                assert(unbroken(s));
            } else {
                let body = literal::nickel_fields(entries, deep, entries.len());
                lemma_fields_padded(entries, deep, entries.len());
                lemma_closed("{\n"@, body, pad, "  "@, "}"@);
            }
        },
        _ => {
            lemma_simple_unbroken(v, pad);
        },
    }
}

/// An opening bracket on its line, indented lines and a closing bracket.
proof fn lemma_closed(
    head: Seq<char>,
    body: Seq<char>,
    pad: Seq<char>,
    more: Seq<char>,
    tail: Seq<char>,
)
    requires
        head.len() == 2 && head[0] != '\n',
        lines_padded(body, pad + more),
        body.len() == 0 || text::begins(body, pad + more),
        unbroken(pad),
        tail.len() == 1 && tail[0] != '\n',
    ensures
        lines_padded(head + body + pad + tail, pad),
        ends_open(head + body + pad + tail),
{
    lemma_less_padded(body, pad, more);
    let full = pad + more;
    if body.len() > 0 {
        assert(body.take(full.len() as int) == full);
        assert(body.take(pad.len() as int) =~= full.take(pad.len() as int));
        assert(full.take(pad.len() as int) =~= pad);
    }
    lemma_padded_concat(head, body, pad);
    let end = pad + tail;
    lemma_begins_concat(pad, tail);
    assert(unbroken(end));
    lemma_padded_concat(head + body, end, pad);
    assert(head + body + pad + tail =~= (head + body) + end);
}

/// A line: an indentation, what stands before a value, the value and its end.
proof fn lemma_line(
    before: Seq<char>,
    pad: Seq<char>,
    name: Seq<char>,
    value: Seq<char>,
    end: Seq<char>,
)
    requires
        lines_padded(before, pad),
        before.len() == 0 || (text::begins(before, pad) && before.last() == '\n'),
        unbroken(pad),
        unbroken(name),
        lines_padded(value, pad),
        ends_open(value),
        end.len() == 2 && end[0] == ',' && end[1] == '\n',
    ensures
        lines_padded(before + (pad + name + value + end), pad),
        text::begins(before + (pad + name + value + end), pad),
        (before + (pad + name + value + end)).last() == '\n',
{
    let head = pad + name;
    assert(unbroken(head));
    lemma_padded_concat(head, value, pad);
    if head.len() > 0 {
        assert(ends_open(head));
    }
    assert(lines_padded(end, pad));
    assert((head + value).last() == value.last());
    lemma_padded_concat(head + value, end, pad);
    let line = head + value + end;
    assert(line.take(pad.len() as int) =~= pad);
    lemma_padded_concat(before, line, pad);
    let all = before + line;
    if before.len() > 0 {
        assert(before.take(pad.len() as int) == pad);
        assert(all.take(pad.len() as int) =~= before.take(pad.len() as int));
    } else {
        assert(all =~= line);
    }
}

proof fn lemma_items_padded(items: Seq<JsonModel>, pad: Seq<char>, n: nat)
    requires
        n <= items.len(),
        reading::numbers_written(JsonModel::Array(items)),
        unbroken(pad),
    ensures
        ({
            let s = literal::nickel_items(items, pad, n);
            &&& lines_padded(s, pad)
            &&& s.len() == 0 || (text::begins(s, pad) && s.last() == '\n')
        }),
    decreases items, n,
{
    assert(JsonModel::Array(items)->Array_0 == items);
    if n > 0 {
        reveal_strlit(",\n");
        let before = literal::nickel_items(items, pad, (n - 1) as nat);
        let value = literal::nickel_text(items[n - 1], pad);
        let none = Seq::<char>::empty();
        assert(reading::numbers_written(items[n - 1]));
        lemma_items_padded(items, pad, (n - 1) as nat);
        lemma_text_padded(items[n - 1], pad);
        lemma_line(before, pad, none, value, ",\n"@);
        assert(literal::nickel_items(items, pad, n) =~= before + (pad + none + value + ",\n"@));
    }
}

proof fn lemma_fields_padded(entries: EntriesModel, pad: Seq<char>, n: nat)
    requires
        n <= entries.len(),
        reading::numbers_written(JsonModel::Object(entries)),
        unbroken(pad),
    ensures
        ({
            let s = literal::nickel_fields(entries, pad, n);
            &&& lines_padded(s, pad)
            &&& s.len() == 0 || (text::begins(s, pad) && s.last() == '\n')
        }),
    decreases entries, n,
{
    assert(JsonModel::Object(entries)->Object_0 == entries);
    if n > 0 {
        reveal_strlit(",\n");
        reveal_strlit(" = ");
        let before = literal::nickel_fields(entries, pad, (n - 1) as nat);
        let name = literal::field_name(entries[n - 1].0);
        let value = literal::nickel_text(entries[n - 1].1, pad);
        assert(reading::numbers_written(entries[n - 1].1));
        lemma_fields_padded(entries, pad, (n - 1) as nat);
        lemma_name_unbroken(entries[n - 1].0);
        lemma_text_padded(entries[n - 1].1, pad);
        assert(unbroken(name + " = "@));
        lemma_line(before, pad, name + " = "@, value, ",\n"@);
        assert(literal::nickel_fields(entries, pad, n) =~= before + (pad + (name + " = "@) + value
            + ",\n"@));
    }
}

/// Every line of a literal behind the first is indented at least as deep as the
/// literal itself.
pub proof fn law_literal_indented(v: JsonModel, indent: nat)
    requires
        reading::numbers_written(v),
    ensures
        indented_by(
            literal::nickel_text(v, text::repeated("  "@, indent)),
            text::repeated("  "@, indent),
        ),
{
    let pad = text::repeated("  "@, indent);
    lemma_pad_unbroken(indent);
    lemma_text_padded(v, pad);
}

proof fn lemma_pad_unbroken(n: nat)
    ensures
        unbroken(text::repeated("  "@, n)),
    decreases n,
{
    reveal_strlit("  ");
    if n > 0 {
        lemma_pad_unbroken((n - 1) as nat);
    }
}

/// The last line of a literal on several lines is its closing bracket, indented as
/// deep as the literal itself.
pub proof fn law_literal_closed(v: JsonModel, indent: nat)
    requires
        reading::numbers_written(v),
    ensures
        ({
            let pad = text::repeated("  "@, indent);
            let s = literal::nickel_text(v, pad);
            s.contains('\n') ==> text::ends(s, seq!['\n'] + pad + seq![s.last()])
        }),
{
    let pad = text::repeated("  "@, indent);
    let deep = pad + "  "@;
    let s = literal::nickel_text(v, pad);
    lemma_pad_unbroken(indent);
    lemma_text_padded(v, pad);
    reveal_strlit("  ");
    assert(unbroken(deep));
    if s.contains('\n') {
        let at = s.index_of('\n');
        assert(s[at] == '\n');
        assert(!unbroken(s));
        match v {
            JsonModel::Array(items) => {
                assert(v->Array_0 == items);
                reveal_strlit("[]");
                reveal_strlit("[");
                reveal_strlit("]");
                if items.len() == 1 && literal::simple_value(items[0]) {
                    assert(reading::numbers_written(items[0]));
                    lemma_simple_unbroken(items[0], seq![]);
                    assert(unbroken(s));
                }
                assert(items.len() > 0);
                let body = literal::nickel_items(items, deep, items.len());
                lemma_items_padded(items, deep, items.len());
                reveal_strlit(",\n");
                assert(body.len() > 0);
                lemma_last_line("[\n"@, body, pad, "]"@);
            },
            JsonModel::Object(entries) => {
                assert(v->Object_0 == entries);
                reveal_strlit("{}");
                reveal_strlit("{ ");
                reveal_strlit(" }");
                reveal_strlit("}");
                if entries.len() <= 2 && literal::all_simple(entries) {
                    lemma_pairs_unbroken(entries);
                    assert(unbroken(s));
                }
                assert(entries.len() > 0);
                let body = literal::nickel_fields(entries, deep, entries.len());
                lemma_fields_padded(entries, deep, entries.len());
                reveal_strlit(",\n");
                assert(body.len() > 0);
                lemma_last_line("{\n"@, body, pad, "}"@);
            },
            _ => {
                lemma_simple_unbroken(v, pad);
            },
        }
    }
}

proof fn lemma_last_line(head: Seq<char>, body: Seq<char>, pad: Seq<char>, tail: Seq<char>)
    requires
        body.len() > 0,
        body.last() == '\n',
        tail.len() == 1,
    ensures
        ({
            let s = head + body + pad + tail;
            text::ends(s, seq!['\n'] + pad + seq![s.last()])
        }),
{
    let s = head + body + pad + tail;
    let end = seq!['\n'] + pad + seq![s.last()];
    assert(s.skip(s.len() - end.len()) =~= end);
}

} // verus!
