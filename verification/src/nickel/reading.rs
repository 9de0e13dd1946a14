//! What a Nickel literal means.
use crate::json::{EntriesModel, JsonModel};
use crate::nickel::literal;
use crate::text;
use vstd::prelude::*;
use vstd::string::*;

verus! {

// ---------------------------------------------------------------------------
// Reading
// ---------------------------------------------------------------------------

/// A character that may stand between the parts of a literal.
pub open spec fn blank(c: char) -> bool {
    c == ' ' || c == '\n' || c == '\r' || c == '\t'
}

/// A text without the blanks at its start.
pub open spec fn skip_blank(s: Seq<char>) -> Seq<char>
    decreases s.len(),
{
    if s.len() > 0 && blank(s[0]) {
        skip_blank(s.skip(1))
    } else {
        s
    }
}

pub open spec fn letter(c: char) -> bool {
    ('a' <= c && c <= 'z') || ('A' <= c && c <= 'Z')
}

pub open spec fn digit(c: char) -> bool {
    '0' <= c && c <= '9'
}

/// A character of a name or of a number.
pub open spec fn word_char(c: char) -> bool {
    letter(c) || digit(c) || c == '_' || c == '-' || c == '\'' || c == '+' || c == '.'
}

/// The name or number at the start of a text.
pub open spec fn word(s: Seq<char>) -> Seq<char>
    decreases s.len(),
{
    if s.len() > 0 && word_char(s[0]) {
        seq![s[0]] + word(s.skip(1))
    } else {
        seq![]
    }
}

/// A word that is a number.
pub open spec fn number_word(w: Seq<char>) -> bool {
    &&& w.len() > 0
    &&& digit(w[0]) || w[0] == '-'
    &&& forall|i: int|
        0 <= i < w.len() ==> digit(#[trigger] w[i]) || w[i] == '-' || w[i] == '+' || w[i] == '.'
            || w[i] == 'e' || w[i] == 'E'
}

/// What a word stands for.
pub open spec fn word_value(w: Seq<char>) -> Option<JsonModel> {
    if w == "null"@ {
        Some(JsonModel::Null)
    } else if w == "true"@ {
        Some(JsonModel::Bool(true))
    } else if w == "false"@ {
        Some(JsonModel::Bool(false))
    } else if number_word(w) {
        Some(JsonModel::Number(w))
    } else {
        None
    }
}

/// A word with a meaning of its own, which names no field.
pub open spec fn keyword(w: Seq<char>) -> bool {
    ||| w == "Array"@
    ||| w == "Bool"@
    ||| w == "Dyn"@
    ||| w == "Number"@
    ||| w == "String"@
    ||| w == "else"@
    ||| w == "false"@
    ||| w == "forall"@
    ||| w == "fun"@
    ||| w == "if"@
    ||| w == "import"@
    ||| w == "in"@
    ||| w == "let"@
    ||| w == "match"@
    ||| w == "null"@
    ||| w == "rec"@
    ||| w == "then"@
    ||| w == "true"@
}

/// A word that names a field: behind any underscores a letter, then letters,
/// digits, underscores, dashes and apostrophes.
pub open spec fn name_word(w: Seq<char>) -> bool {
    &&& exists|i: int| 0 <= i < w.len() && letter(#[trigger] w[i]) && underscores(w, i)
    &&& forall|i: int|
        0 <= i < w.len() ==> letter(#[trigger] w[i]) || digit(w[i]) || w[i] == '_' || w[i] == '-'
            || w[i] == '\''
    &&& !keyword(w)
}

/// The first `n` characters are underscores.
pub open spec fn underscores(w: Seq<char>, n: int) -> bool {
    forall|i: int| 0 <= i < n ==> #[trigger] w[i] == '_'
}

/// The number that a hexadecimal digit stands for.
pub open spec fn hex_digit_value(c: char) -> nat {
    if '0' <= c && c <= '9' {
        (c as nat - '0' as nat) as nat
    } else if 'a' <= c && c <= 'f' {
        (c as nat - 'a' as nat + 10) as nat
    } else {
        (c as nat - 'A' as nat + 10) as nat
    }
}

/// The number that hexadecimal digits stand for.
pub open spec fn hex_value(s: Seq<char>) -> nat
    decreases s.len(),
{
    if s.len() == 0 {
        0
    } else {
        16 * hex_value(s.drop_last()) + hex_digit_value(s.last())
    }
}

/// The character that a letter behind a backslash stands for.
pub open spec fn unescaped(c: char) -> Option<char> {
    if c == '"' || c == '\\' || c == '%' {
        Some(c)
    } else if c == 'n' {
        Some('\n')
    } else if c == 'r' {
        Some('\r')
    } else if c == 't' {
        Some('\t')
    } else {
        None
    }
}

/// What a string holds, and what follows it; given what follows its opening
/// quotation mark. A string that holds an expression is no literal.
pub open spec fn read_string(s: Seq<char>) -> Option<(Seq<char>, Seq<char>)>
    decreases s.len(),
{
    if s.len() == 0 {
        None
    } else if s[0] == '"' {
        Some((seq![], s.skip(1)))
    } else if s[0] == '\\' {
        if s.len() < 2 {
            None
        } else if s[1] == 'u' {
            let n = text::first_of(s, '}') as int;
            if 3 <= n < s.len() && s[2] == '{' {
                with_first(hex_value(s.subrange(3, n)) as char, read_string(s.skip(n + 1)))
            } else {
                None
            }
        } else {
            match unescaped(s[1]) {
                Some(c) => with_first(c, read_string(s.skip(2))),
                None => None,
            }
        }
    } else if s[0] == '%' && s.len() > 1 && s[1] == '{' {
        None
    } else {
        with_first(s[0], read_string(s.skip(1)))
    }
}

/// What was read of a string, with a character before it.
pub open spec fn with_first(c: char, r: Option<(Seq<char>, Seq<char>)>) -> Option<
    (Seq<char>, Seq<char>),
> {
    match r {
        Some((t, rest)) => Some((seq![c] + t, rest)),
        None => None,
    }
}

/// The name of a field at the start of a text, and what follows it.
pub open spec fn read_name(s: Seq<char>) -> Option<(Seq<char>, Seq<char>)> {
    if s.len() > 0 && s[0] == '"' {
        read_string(s.skip(1))
    } else if name_word(word(s)) {
        Some((word(s), s.skip(word(s).len() as int)))
    } else {
        None
    }
}

/// The value of the literal at the start of a text, and what follows it.
#[verifier::opaque]
pub open spec fn read_value(s: Seq<char>) -> Option<(JsonModel, Seq<char>)>
    decreases s.len(), 0nat,
{
    proof {
        lemma_skip_len(s);
    }
    let t = skip_blank(s);
    if t.len() == 0 {
        None
    } else if t[0] == '"' {
        match read_string(t.skip(1)) {
            Some((x, rest)) => Some((JsonModel::Text(x), rest)),
            None => None,
        }
    } else if t[0] == '[' {
        match read_items(t.skip(1)) {
            Some((items, rest)) => Some((JsonModel::Array(items), rest)),
            None => None,
        }
    } else if t[0] == '{' {
        match read_fields(t.skip(1)) {
            Some((entries, rest)) => Some((JsonModel::Object(entries), rest)),
            None => None,
        }
    } else {
        match word_value(word(t)) {
            Some(v) => Some((v, t.skip(word(t).len() as int))),
            None => None,
        }
    }
}

/// The items of a list up to its end, and what follows it.
#[verifier::opaque]
pub open spec fn read_items(s: Seq<char>) -> Option<(Seq<JsonModel>, Seq<char>)>
    decreases s.len(), 1nat,
{
    let t = skip_blank(s);
    if t.len() > 0 && t[0] == ']' {
        Some((seq![], t.skip(1)))
    } else {
        match read_value(s) {
            None => None,
            Some((v, r)) => {
                let u = skip_blank(r);
                if u.len() == 0 || u.len() >= s.len() {
                    None
                } else if u[0] == ']' {
                    Some((seq![v], u.skip(1)))
                } else if u[0] == ',' {
                    match read_items(u.skip(1)) {
                        Some((items, rest)) => Some((seq![v] + items, rest)),
                        None => None,
                    }
                } else {
                    None
                }
            },
        }
    }
}

/// The fields of a record up to its end, and what follows it.
#[verifier::opaque]
pub open spec fn read_fields(s: Seq<char>) -> Option<(EntriesModel, Seq<char>)>
    decreases s.len(), 1nat,
{
    let t = skip_blank(s);
    if t.len() > 0 && t[0] == '}' {
        Some((seq![], t.skip(1)))
    } else {
        match read_name(t) {
            None => None,
            Some((key, r)) => {
                let u = skip_blank(r);
                if u.len() == 0 || u.len() >= s.len() || u[0] != '=' {
                    None
                } else {
                    match read_value(u.skip(1)) {
                        None => None,
                        Some((v, q)) => {
                            let p = skip_blank(q);
                            if p.len() == 0 || p.len() >= s.len() {
                                None
                            } else if p[0] == '}' {
                                Some((seq![(key, v)], p.skip(1)))
                            } else if p[0] == ',' {
                                match read_fields(p.skip(1)) {
                                    Some((entries, rest)) => Some(
                                        (seq![(key, v)] + entries, rest),
                                    ),
                                    None => None,
                                }
                            } else {
                                None
                            }
                        },
                    }
                }
            },
        }
    }
}

/// The value of a text that is a literal and nothing more.
pub open spec fn literal_value(s: Seq<char>) -> Option<JsonModel> {
    match read_value(s) {
        Some((v, rest)) => if skip_blank(rest).len() == 0 {
            Some(v)
        } else {
            None
        },
        None => None,
    }
}

/// All numbers of a value are written as numbers.
pub open spec fn numbers_written(v: JsonModel) -> bool
    decreases v,
{
    match v {
        JsonModel::Number(n) => number_word(n),
        JsonModel::Array(items) => forall|i: int|
            0 <= i < items.len() ==> numbers_written(#[trigger] items[i]),
        JsonModel::Object(e) => forall|i: int|
            0 <= i < e.len() ==> numbers_written((#[trigger] e[i]).1),
        _ => true,
    }
}

// ---------------------------------------------------------------------------
// Blanks and words
// ---------------------------------------------------------------------------

/// A text is no longer without the blanks at its start.
pub proof fn lemma_skip_len(s: Seq<char>)
    ensures
        skip_blank(s).len() <= s.len(),
    decreases s.len(),
{
    if s.len() > 0 && blank(s[0]) {
        lemma_skip_len(s.skip(1));
    }
}

/// A text of blanks alone.
spec fn all_blank(s: Seq<char>) -> bool {
    forall|i: int| 0 <= i < s.len() ==> blank(#[trigger] s[i])
}

/// A text that starts with something else than a blank.
spec fn starts(s: Seq<char>) -> bool {
    s.len() > 0 && !blank(s[0])
}

/// No word goes on at the start of a text.
spec fn stops(s: Seq<char>) -> bool {
    s.len() == 0 || !word_char(s[0])
}

proof fn lemma_skip(b: Seq<char>, s: Seq<char>)
    requires
        all_blank(b),
    ensures
        skip_blank(b + s) == skip_blank(s),
        starts(s) ==> skip_blank(b + s) == s,
    decreases b.len(),
{
    if b.len() == 0 {
        assert(b + s =~= s);
    } else {
        assert((b + s)[0] == b[0]);
        assert((b + s).skip(1) =~= b.skip(1) + s);
        assert forall|i: int| 0 <= i < b.skip(1).len() implies blank(#[trigger] b.skip(1)[i]) by {
            assert(b.skip(1)[i] == b[i + 1]);
        }
        lemma_skip(b.skip(1), s);
    }
}

proof fn lemma_word(w: Seq<char>, rest: Seq<char>)
    requires
        forall|i: int| 0 <= i < w.len() ==> word_char(#[trigger] w[i]),
        stops(rest),
    ensures
        word(w + rest) == w,
    decreases w.len(),
{
    if w.len() == 0 {
        assert(w + rest =~= rest);
    } else {
        assert((w + rest)[0] == w[0]);
        assert((w + rest).skip(1) =~= w.skip(1) + rest);
        assert forall|i: int| 0 <= i < w.skip(1).len() implies word_char(
            #[trigger] w.skip(1)[i],
        ) by {
            assert(w.skip(1)[i] == w[i + 1]);
        }
        lemma_word(w.skip(1), rest);
        assert(seq![w[0]] + w.skip(1) =~= w);
    }
}

proof fn lemma_read_word(w: Seq<char>, v: JsonModel, rest: Seq<char>)
    requires
        w.len() > 0,
        forall|i: int| 0 <= i < w.len() ==> word_char(#[trigger] w[i]),
        word_value(w) == Some(v),
        stops(rest),
    ensures
        read_value(w + rest) == Some((v, rest)),
{
    reveal_with_fuel(read_value, 1);
    let s = w + rest;
    lemma_word(w, rest);
    assert(s[0] == w[0]);
    assert(skip_blank(s) == s);
    assert(s.skip(w.len() as int) =~= rest);
}

// ---------------------------------------------------------------------------
// Strings and names
// ---------------------------------------------------------------------------

proof fn lemma_hex_value(n: nat)
    ensures
        hex_value(text::digits(n, 16)) == n,
        forall|i: int|
            0 <= i < text::digits(n, 16).len() ==> #[trigger] text::digits(n, 16)[i] != '}',
        text::digits(n, 16).len() > 0,
    decreases n,
{
    let d = text::digits(n, 16);
    reveal_with_fuel(hex_value, 2);
    if n < 16 {
        assert(d.drop_last().len() == 0);
    } else {
        lemma_hex_value(n / 16);
        assert(d.drop_last() =~= text::digits(n / 16, 16));
    }
}

proof fn lemma_read_code(c: char, tail: Seq<char>)
    ensures
        read_string(literal::escape_code(c) + tail) == with_first(c, read_string(tail)),
{
    reveal_strlit("\\\"");
    reveal_strlit("\\\\");
    reveal_strlit("\\%");
    reveal_strlit("\\n");
    reveal_strlit("\\r");
    reveal_strlit("\\t");
    reveal_strlit("\\u{");
    reveal_strlit("}");
    let code = literal::escape_code(c);
    let s = code + tail;
    if c == '"' || c == '\\' || c == '%' || c == '\n' || c == '\r' || c == '\t' {
        assert(code.len() == 2);
        assert(s[0] == code[0] && s[1] == code[1]);
        assert(s.skip(2) =~= tail);
    } else if c as u32 >= 128 {
        let hex = text::digits((c as u32) as nat, 16);
        lemma_hex_value((c as u32) as nat);
        let n = 3 + hex.len() as int;
        assert(s[0] == '\\' && s[1] == 'u' && s[2] == '{');
        assert(s[n] == '}');
        assert forall|i: int| 0 <= i < n implies s[i] != '}' by {
            if i >= 3 {
                assert(s[i] == hex[i - 3]);
            }
        }
        text::lemma_first_of(s, '}', n);
        assert(s.subrange(3, n) =~= hex);
        assert(s.skip(n + 1) =~= tail);
    } else {
        assert(s[0] == c);
        assert(s.skip(1) =~= tail);
    }
}

proof fn lemma_read_string(t: Seq<char>, rest: Seq<char>)
    ensures
        read_string(literal::escaped(t) + "\""@ + rest) == Some((t, rest)),
    decreases t.len(),
{
    reveal_strlit("\"");
    if t.len() == 0 {
        let s = literal::escaped(t) + "\""@ + rest;
        assert(s[0] == '"');
        assert(s.skip(1) =~= rest);
        assert(t =~= seq![]);
    } else {
        let tail = literal::escaped(t.skip(1)) + "\""@ + rest;
        lemma_read_string(t.skip(1), rest);
        lemma_read_code(t[0], tail);
        assert(literal::escaped(t) + "\""@ + rest =~= literal::escape_code(t[0]) + tail);
        assert(seq![t[0]] + t.skip(1) =~= t);
    }
}

proof fn lemma_lettered(s: Seq<char>) -> (at: int)
    requires
        literal::lettered(s),
    ensures
        0 <= at < s.len(),
        letter(s[at]),
        underscores(s, at),
    decreases s.len(),
{
    if s[0] == '_' {
        let at = lemma_lettered(s.skip(1));
        assert forall|i: int| 0 <= i < at + 1 implies #[trigger] s[i] == '_' by {
            if i > 0 {
                assert(s.skip(1)[i - 1] == '_');
            }
        }
        at + 1
    } else {
        0
    }
}

proof fn lemma_read_name(key: Seq<char>, rest: Seq<char>)
    requires
        stops(rest),
    ensures
        read_name(literal::field_name(key) + rest) == Some((key, rest)),
        starts(literal::field_name(key)),
        literal::field_name(key)[0] != '}',
{
    reveal_strlit("\"");
    let name = literal::field_name(key);
    let s = name + rest;
    assert(s[0] == name[0]);
    if literal::bare_name(key) {
        let at = lemma_lettered(key);
        assert(letter(key[at]));
        assert forall|i: int| 0 <= i < key.len() implies word_char(#[trigger] key[i]) && (letter(
            key[i],
        ) || digit(key[i]) || key[i] == '_' || key[i] == '-' || key[i] == '\'') by {
            if i > 0 {
                assert(literal::ident_rest(key[i]));
            }
        }
        lemma_word(key, rest);
        assert(name_word(key));
        assert(s.skip(key.len() as int) =~= rest);
    } else {
        lemma_read_string(key, rest);
        assert(s.skip(1) =~= literal::escaped(key) + "\""@ + rest);
    }
}

// ---------------------------------------------------------------------------
// Lists and records
// ---------------------------------------------------------------------------

proof fn lemma_items_end(b: Seq<char>, rest: Seq<char>)
    requires
        all_blank(b),
    ensures
        read_items(b + "]"@ + rest) == Some((Seq::<JsonModel>::empty(), rest)),
{
    reveal_with_fuel(read_items, 1);
    reveal_strlit("]");
    assert(b + "]"@ + rest =~= b + ("]"@ + rest));
    lemma_skip(b, "]"@ + rest);
    assert(("]"@ + rest).skip(1) =~= rest);
}

proof fn lemma_fields_end(b: Seq<char>, rest: Seq<char>)
    requires
        all_blank(b),
    ensures
        read_fields(b + "}"@ + rest) == Some((EntriesModel::empty(), rest)),
{
    reveal_with_fuel(read_fields, 1);
    reveal_strlit("}");
    assert(b + "}"@ + rest =~= b + ("}"@ + rest));
    lemma_skip(b, "}"@ + rest);
    assert(("}"@ + rest).skip(1) =~= rest);
}

proof fn lemma_read_list(s: Seq<char>, items: Seq<JsonModel>, rest: Seq<char>)
    requires
        s.len() > 0,
        s[0] == '[',
        read_items(s.skip(1)) == Some((items, rest)),
    ensures
        read_value(s) == Some((JsonModel::Array(items), rest)),
{
    reveal_with_fuel(read_value, 1);
    reveal_with_fuel(read_items, 1);
    assert(skip_blank(s) == s);
}

proof fn lemma_read_record(s: Seq<char>, entries: EntriesModel, rest: Seq<char>)
    requires
        s.len() > 0,
        s[0] == '{',
        read_fields(s.skip(1)) == Some((entries, rest)),
    ensures
        read_value(s) == Some((JsonModel::Object(entries), rest)),
{
    reveal_with_fuel(read_value, 1);
    reveal_with_fuel(read_fields, 1);
    assert(skip_blank(s) == s);
}

/// One step through the items of a list.
proof fn lemma_item_step(b: Seq<char>, t: Seq<char>, v: JsonModel, after: Seq<char>)
    requires
        all_blank(b),
        starts(t),
        t[0] != ']',
        read_value(t + after) == Some((v, after)),
        skip_blank(after).len() > 0,
    ensures
        read_items(b + t + after) == (if skip_blank(after)[0] == ']' {
            Some((seq![v], skip_blank(after).skip(1)))
        } else if skip_blank(after)[0] == ',' {
            match read_items(skip_blank(after).skip(1)) {
                Some((items, rest)) => Some((seq![v] + items, rest)),
                None => None,
            }
        } else {
            None
        }),
{
    reveal_with_fuel(read_value, 1);
    reveal_with_fuel(read_items, 1);
    let s = b + t + after;
    assert(s =~= b + (t + after));
    lemma_skip(b, t + after);
    lemma_skip_len(after);
    assert(skip_blank(s) == t + after);
    assert(skip_blank(t + after) == t + after);
    assert(read_value(s) == read_value(t + after));
}

/// One step through the fields of a record.
proof fn lemma_field_step(
    b: Seq<char>,
    key: Seq<char>,
    t: Seq<char>,
    v: JsonModel,
    after: Seq<char>,
)
    requires
        all_blank(b),
        starts(t),
        read_value(t + after) == Some((v, after)),
        skip_blank(after).len() > 0,
    ensures
        read_fields(b + literal::field_name(key) + " = "@ + t + after) == (if skip_blank(after)[0]
            == '}' {
            Some((seq![(key, v)], skip_blank(after).skip(1)))
        } else if skip_blank(after)[0] == ',' {
            match read_fields(skip_blank(after).skip(1)) {
                Some((entries, rest)) => Some((seq![(key, v)] + entries, rest)),
                None => None,
            }
        } else {
            None
        }),
{
    reveal_with_fuel(read_value, 1);
    reveal_with_fuel(read_fields, 1);
    reveal_strlit(" = ");
    let name = literal::field_name(key);
    let r = " = "@ + t + after;
    let s = b + name + " = "@ + t + after;
    assert(s =~= b + (name + r));
    assert(stops(r));
    lemma_read_name(key, r);
    assert((name + r)[0] == name[0]);
    lemma_skip(b, name + r);
    lemma_skip_len(after);
    let u = "= "@ + t + after;
    reveal_strlit("= ");
    assert(r =~= seq![' '] + u);
    lemma_skip(seq![' '], u);
    assert(skip_blank(r) == u);
    assert(u.skip(1) =~= seq![' '] + (t + after));
    lemma_skip(seq![' '], t + after);
    assert(skip_blank(t + after) == t + after);
    assert(read_value(u.skip(1)) == read_value(t + after));
}

proof fn lemma_start(v: JsonModel, pad: Seq<char>)
    requires
        numbers_written(v),
    ensures
        starts(literal::nickel_text(v, pad)),
        literal::nickel_text(v, pad)[0] != ']',
{
    reveal_strlit("null");
    reveal_strlit("true");
    reveal_strlit("false");
    reveal_strlit("\"");
    reveal_strlit("[]");
    reveal_strlit("[");
    reveal_strlit("[\n");
    reveal_strlit("{}");
    reveal_strlit("{ ");
    reveal_strlit("{\n");
}

/// The lines of the items of a list from a place on.
spec fn items_from(items: Seq<JsonModel>, pad: Seq<char>, i: int) -> Seq<char>
    decreases items.len() - i,
{
    if i < 0 || i >= items.len() {
        seq![]
    } else {
        pad + literal::nickel_text(items[i], pad) + ",\n"@ + items_from(items, pad, i + 1)
    }
}

proof fn lemma_items_from(items: Seq<JsonModel>, pad: Seq<char>, n: nat)
    requires
        n <= items.len(),
    ensures
        literal::nickel_items(items, pad, items.len()) == literal::nickel_items(items, pad, n)
            + items_from(items, pad, n as int),
    decreases items.len() - n,
{
    if n == items.len() {
        assert(literal::nickel_items(items, pad, n) + items_from(items, pad, n as int)
            =~= literal::nickel_items(items, pad, n));
    } else {
        lemma_items_from(items, pad, n + 1);
        assert(literal::nickel_items(items, pad, n + 1) + items_from(items, pad, n as int + 1)
            =~= literal::nickel_items(items, pad, n) + items_from(items, pad, n as int));
    }
}

proof fn lemma_read_items(
    items: Seq<JsonModel>,
    pad: Seq<char>,
    i: int,
    b: Seq<char>,
    close: Seq<char>,
    rest: Seq<char>,
)
    requires
        0 <= i <= items.len(),
        numbers_written(JsonModel::Array(items)),
        all_blank(pad),
        all_blank(b),
        all_blank(close),
    ensures
        read_items(b + items_from(items, pad, i) + close + "]"@ + rest) == Some(
            (items.skip(i), rest),
        ),
    decreases items, items.len() - i,
{
    reveal_strlit("]");
    reveal_strlit(",\n");
    assert(JsonModel::Array(items)->Array_0 == items);
    let s = b + items_from(items, pad, i) + close + "]"@ + rest;
    if i == items.len() {
        lemma_items_end(b + close, rest);
        assert(s =~= (b + close) + "]"@ + rest);
        assert(items.skip(i) =~= seq![]);
    } else {
        let t = literal::nickel_text(items[i], pad);
        let next = items_from(items, pad, i + 1) + close + "]"@ + rest;
        let after = ",\n"@ + next;
        assert(numbers_written(items[i]));
        lemma_start(items[i], pad);
        lemma_read(items[i], pad, after);
        assert(skip_blank(after) == after);
        assert(s =~= (b + pad) + t + after);
        lemma_item_step(b + pad, t, items[i], after);
        let line = seq!['\n'];
        lemma_read_items(items, pad, i + 1, line, close, rest);
        assert(after.skip(1) =~= line + items_from(items, pad, i + 1) + close + "]"@ + rest);
        assert(seq![items[i]] + items.skip(i + 1) =~= items.skip(i));
    }
}

/// The lines of the fields of a record from a place on.
spec fn fields_from(entries: EntriesModel, pad: Seq<char>, i: int) -> Seq<char>
    decreases entries.len() - i,
{
    if i < 0 || i >= entries.len() {
        seq![]
    } else {
        pad + literal::field_name(entries[i].0) + " = "@ + literal::nickel_text(entries[i].1, pad)
            + ",\n"@ + fields_from(entries, pad, i + 1)
    }
}

proof fn lemma_fields_from(entries: EntriesModel, pad: Seq<char>, n: nat)
    requires
        n <= entries.len(),
    ensures
        literal::nickel_fields(entries, pad, entries.len()) == literal::nickel_fields(
            entries,
            pad,
            n,
        ) + fields_from(entries, pad, n as int),
    decreases entries.len() - n,
{
    if n == entries.len() {
        assert(literal::nickel_fields(entries, pad, n) + fields_from(entries, pad, n as int)
            =~= literal::nickel_fields(entries, pad, n));
    } else {
        lemma_fields_from(entries, pad, n + 1);
        assert(literal::nickel_fields(entries, pad, n + 1) + fields_from(entries, pad, n as int + 1)
            =~= literal::nickel_fields(entries, pad, n) + fields_from(entries, pad, n as int));
    }
}

proof fn lemma_read_fields(
    entries: EntriesModel,
    pad: Seq<char>,
    i: int,
    b: Seq<char>,
    close: Seq<char>,
    rest: Seq<char>,
)
    requires
        0 <= i <= entries.len(),
        numbers_written(JsonModel::Object(entries)),
        all_blank(pad),
        all_blank(b),
        all_blank(close),
    ensures
        read_fields(b + fields_from(entries, pad, i) + close + "}"@ + rest) == Some(
            (entries.skip(i), rest),
        ),
    decreases entries, entries.len() - i,
{
    reveal_strlit("}");
    reveal_strlit(",\n");
    assert(JsonModel::Object(entries)->Object_0 == entries);
    let s = b + fields_from(entries, pad, i) + close + "}"@ + rest;
    if i == entries.len() {
        lemma_fields_end(b + close, rest);
        assert(s =~= (b + close) + "}"@ + rest);
        assert(entries.skip(i) =~= seq![]);
    } else {
        let key = entries[i].0;
        let v = entries[i].1;
        let t = literal::nickel_text(v, pad);
        let next = fields_from(entries, pad, i + 1) + close + "}"@ + rest;
        let after = ",\n"@ + next;
        assert(numbers_written(v));
        assert(decreases_to!(entries => entries[i]));
        assert(decreases_to!(entries[i] => entries[i].1));
        lemma_start(v, pad);
        lemma_read(v, pad, after);
        assert(skip_blank(after) == after);
        assert(s =~= (b + pad) + literal::field_name(key) + " = "@ + t + after);
        lemma_field_step(b + pad, key, t, v, after);
        let line = seq!['\n'];
        lemma_read_fields(entries, pad, i + 1, line, close, rest);
        assert(after.skip(1) =~= line + fields_from(entries, pad, i + 1) + close + "}"@ + rest);
        assert(seq![(key, v)] + entries.skip(i + 1) =~= entries.skip(i));
    }
}

proof fn lemma_read_pairs(entries: EntriesModel, rest: Seq<char>)
    requires
        1 <= entries.len() <= 2,
        numbers_written(JsonModel::Object(entries)),
    ensures
        read_fields(
            " "@ + text::joined(literal::nickel_pairs(entries), ", "@) + " }"@ + rest,
        ) == Some((entries, rest)),
    decreases entries, 0int,
{
    reveal_strlit(" ");
    reveal_strlit(", ");
    reveal_strlit(" }");
    reveal_with_fuel(text::joined, 2);
    assert(JsonModel::Object(entries)->Object_0 == entries);
    let pairs = literal::nickel_pairs(entries);
    let none = Seq::<char>::empty();
    let last = entries.len() - 1;
    let end = " }"@ + rest;
    let close = seq!['}'] + rest;
    assert(end =~= seq![' '] + close);
    lemma_skip(seq![' '], close);
    assert(close.skip(1) =~= rest);
    assert forall|i: int| 0 <= i < entries.len() implies numbers_written(
        (#[trigger] entries[i]).1,
    ) by {}
    let v = entries[last].1;
    let t = literal::nickel_text(v, none);
    assert(decreases_to!(entries => entries[last]));
    assert(decreases_to!(entries[last] => entries[last].1));
    lemma_start(v, none);
    lemma_read(v, none, end);
    lemma_field_step(" "@, entries[last].0, t, v, end);
    let tail = " "@ + pairs[last] + " }"@ + rest;
    assert(tail =~= " "@ + literal::field_name(entries[last].0) + " = "@ + t + end);
    assert(read_fields(tail) == Some((seq![entries[last]], rest)));
    let s = " "@ + text::joined(pairs, ", "@) + " }"@ + rest;
    if entries.len() == 1 {
        assert(s =~= tail);
        assert(seq![entries[0]] =~= entries);
    } else {
        let w = entries[0].1;
        let u = literal::nickel_text(w, none);
        let after = seq![','] + tail;
        assert(decreases_to!(entries => entries[0]));
        assert(decreases_to!(entries[0] => entries[0].1));
        lemma_start(w, none);
        lemma_read(w, none, after);
        assert(skip_blank(after) == after);
        assert(after.skip(1) =~= tail);
        lemma_field_step(" "@, entries[0].0, u, w, after);
        assert(pairs.drop_last() =~= seq![pairs[0]]);
        assert(text::joined(pairs, ", "@) == pairs[0] + ", "@ + pairs[1]);
        assert(s =~= " "@ + literal::field_name(entries[0].0) + " = "@ + u + after);
        assert(seq![entries[0]] + seq![entries[1]] =~= entries);
    }
}

proof fn lemma_read_array(items: Seq<JsonModel>, pad: Seq<char>, rest: Seq<char>)
    requires
        numbers_written(JsonModel::Array(items)),
        all_blank(pad),
    ensures
        read_value(literal::nickel_text(JsonModel::Array(items), pad) + rest) == Some(
            (JsonModel::Array(items), rest),
        ),
    decreases items, items.len() + 1,
{
    let v = JsonModel::Array(items);
    let s = literal::nickel_text(v, pad) + rest;
    let none = Seq::<char>::empty();
    assert(v->Array_0 == items);
    reveal_strlit("[]");
    reveal_strlit("[");
    reveal_strlit("]");
    reveal_strlit("[\n");
    if items.len() == 0 {
        lemma_items_end(none, rest);
        assert(s.skip(1) =~= none + "]"@ + rest);
        assert(items =~= seq![]);
    } else if items.len() == 1 && literal::simple_value(items[0]) {
        let u = literal::nickel_text(items[0], none);
        let after = "]"@ + rest;
        assert(numbers_written(items[0]));
        lemma_start(items[0], none);
        lemma_read(items[0], none, after);
        assert(skip_blank(after) == after);
        lemma_item_step(none, u, items[0], after);
        assert(s.skip(1) =~= none + u + after);
        assert(after.skip(1) =~= rest);
        assert(seq![items[0]] =~= items);
    } else {
        let inner = pad + "  "@;
        let body = items_from(items, inner, 0);
        reveal_strlit("  ");
        lemma_items_from(items, inner, 0);
        lemma_read_items(items, inner, 0, seq!['\n'], pad, rest);
        assert(literal::nickel_items(items, inner, 0) + body =~= body);
        assert(s == "[\n"@ + body + pad + "]"@ + rest);
        assert(s.skip(1) =~= seq!['\n'] + body + pad + "]"@ + rest);
        assert(items.skip(0) =~= items);
    }
    lemma_read_list(s, items, rest);
}

proof fn lemma_read_object(entries: EntriesModel, pad: Seq<char>, rest: Seq<char>)
    requires
        numbers_written(JsonModel::Object(entries)),
        all_blank(pad),
    ensures
        read_value(literal::nickel_text(JsonModel::Object(entries), pad) + rest) == Some(
            (JsonModel::Object(entries), rest),
        ),
    decreases entries, entries.len() + 1,
{
    let v = JsonModel::Object(entries);
    let s = literal::nickel_text(v, pad) + rest;
    let none = Seq::<char>::empty();
    assert(v->Object_0 == entries);
    reveal_strlit("{}");
    reveal_strlit("{ ");
    reveal_strlit("}");
    reveal_strlit(" ");
    reveal_strlit("{\n");
    if entries.len() == 0 {
        lemma_fields_end(none, rest);
        assert(s.skip(1) =~= none + "}"@ + rest);
        assert(entries =~= seq![]);
    } else if entries.len() <= 2 && literal::all_simple(entries) {
        let body = text::joined(literal::nickel_pairs(entries), ", "@);
        lemma_read_pairs(entries, rest);
        assert(s == "{ "@ + body + " }"@ + rest);
        assert(s.skip(1) =~= " "@ + body + " }"@ + rest);
    } else {
        let inner = pad + "  "@;
        let body = fields_from(entries, inner, 0);
        reveal_strlit("  ");
        lemma_fields_from(entries, inner, 0);
        lemma_read_fields(entries, inner, 0, seq!['\n'], pad, rest);
        assert(literal::nickel_fields(entries, inner, 0) + body =~= body);
        assert(s == "{\n"@ + body + pad + "}"@ + rest);
        assert(s.skip(1) =~= seq!['\n'] + body + pad + "}"@ + rest);
        assert(entries.skip(0) =~= entries);
    }
    lemma_read_record(s, entries, rest);
}

/// What stands behind a literal is left where the literal has been read.
proof fn lemma_read(v: JsonModel, pad: Seq<char>, rest: Seq<char>)
    requires
        numbers_written(v),
        all_blank(pad),
        stops(rest),
    ensures
        read_value(literal::nickel_text(v, pad) + rest) == Some((v, rest)),
    decreases v, 0int,
{
    let t = literal::nickel_text(v, pad);
    match v {
        JsonModel::Null => {
            reveal_strlit("null");
            lemma_read_word(t, v, rest);
        },
        JsonModel::Bool(b) => {
            reveal_strlit("null");
            reveal_strlit("true");
            reveal_strlit("false");
            assert("true"@[0] != "null"@[0]);
            assert("false"@[0] != "null"@[0]);
            assert("false"@[0] != "true"@[0]);
            lemma_read_word(t, v, rest);
        },
        JsonModel::Number(n) => {
            reveal_strlit("null");
            reveal_strlit("true");
            reveal_strlit("false");
            assert("true"@[0] == 't' && "null"@[0] == 'n' && "false"@[0] == 'f');
            lemma_read_word(t, v, rest);
        },
        JsonModel::Text(x) => {
            reveal_with_fuel(read_value, 1);
            reveal_strlit("\"");
            let s = t + rest;
            lemma_read_string(x, rest);
            assert(skip_blank(s) == s);
            assert(s.skip(1) =~= literal::escaped(x) + "\""@ + rest);
        },
        JsonModel::Array(items) => {
            assert(decreases_to!(v => v->Array_0));
            lemma_read_array(items, pad, rest);
        },
        JsonModel::Object(entries) => {
            assert(decreases_to!(v => v->Object_0));
            lemma_read_object(entries, pad, rest);
        },
    }
}

proof fn lemma_indent_blank(n: nat)
    ensures
        all_blank(text::repeated("  "@, n)),
    decreases n,
{
    reveal_strlit("  ");
    if n > 0 {
        lemma_indent_blank((n - 1) as nat);
    }
}

/// A value that is written as a Nickel literal, at whatever indentation, reads
/// back as that value.
pub proof fn law_literal_read_back(v: JsonModel, indent: nat)
    requires
        numbers_written(v),
    ensures
        literal_value(literal::nickel_text(v, text::repeated("  "@, indent))) == Some(v),
{
    let pad = text::repeated("  "@, indent);
    let none = Seq::<char>::empty();
    lemma_indent_blank(indent);
    lemma_read(v, pad, none);
    assert(literal::nickel_text(v, pad) + none =~= literal::nickel_text(v, pad));
}

/// Different values are never written as the same literal.
pub proof fn law_literal_injective(a: JsonModel, b: JsonModel, i: nat, j: nat)
    requires
        numbers_written(a),
        numbers_written(b),
        literal::nickel_text(a, text::repeated("  "@, i)) == literal::nickel_text(
            b,
            text::repeated("  "@, j),
        ),
    ensures
        a == b,
{
    law_literal_read_back(a, i);
    law_literal_read_back(b, j);
}

} // verus!
