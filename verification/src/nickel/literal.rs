//! Structured values written as Nickel literals.
use crate::json;
use crate::json::{Json, JsonModel};
use crate::text;
use vstd::prelude::*;
use vstd::string::*;

verus! {

// ---------------------------------------------------------------------------
// Strings and keys
// ---------------------------------------------------------------------------

/// How a character stands in a Nickel string: quotation mark, backslash,
/// percent sign and line controls behind a backslash, characters beyond ASCII by
/// their number.
pub open spec fn escape_code(c: char) -> Seq<char> {
    if c == '"' {
        "\\\""@
    } else if c == '\\' {
        "\\\\"@
    } else if c == '%' {
        "\\%"@
    } else if c == '\n' {
        "\\n"@
    } else if c == '\r' {
        "\\r"@
    } else if c == '\t' {
        "\\t"@
    } else if c as u32 >= 128 {
        "\\u{"@ + text::digits((c as u32) as nat, 16) + "}"@
    } else {
        seq![c]
    }
}

/// A text as it stands between the quotation marks of a Nickel string.
pub open spec fn escaped(s: Seq<char>) -> Seq<char>
    decreases s.len(),
{
    if s.len() == 0 {
        seq![]
    } else {
        escape_code(s[0]) + escaped(s.skip(1))
    }
}

/// Escapes a text for a Nickel string.
pub fn escape_nickel_string(s: &str) -> (r: String)
    ensures
        r@ == escaped(s@),
{
    let x = text::chars_of(s);
    let mut out = String::new();
    let mut i: usize = 0;
    assert(x@.skip(0) == x@);
    assert(escaped(s@) == out@ + escaped(x@.skip(0)));
    while i < x.len()
        invariant
            x@ == s@,
            i <= x@.len(),
            escaped(s@) == out@ + escaped(x@.skip(i as int)),
        decreases x@.len() - i,
    {
        let ghost before = out@;
        let ghost rest = x@.skip(i as int);
        let c = x[i];
        if c == '"' {
            out.append("\\\"");
        } else if c == '\\' {
            out.append("\\\\");
        } else if c == '%' {
            out.append("\\%");
        } else if c == '\n' {
            out.append("\\n");
        } else if c == '\r' {
            out.append("\\r");
        } else if c == '\t' {
            out.append("\\t");
        } else if c as u32 >= 128 {
            let code = text::concat3("\\u{", &text::hexadecimal(c as u32), "}");
            out.append(&code);
        } else {
            out.push(c);
        }
        assert(out@ == before + escape_code(rest[0]));
        i = i + 1;
        assert(rest.skip(1) == x@.skip(i as int));
        assert(escaped(s@) == out@ + escaped(x@.skip(i as int)));
    }
    assert(out@ + escaped(x@.skip(i as int)) == out@);
    out
}

/// A digit of a hexadecimal number in lower case.
pub open spec fn hex_digit(c: char) -> bool {
    ('0' <= c && c <= '9') || ('a' <= c && c <= 'f')
}

proof fn lemma_digit_char(a: nat, b: nat)
    requires
        a < 16,
        b < 16,
    ensures
        hex_digit(text::digit_char(a)),
        text::digit_char(a) == text::digit_char(b) ==> a == b,
{
}

proof fn lemma_hex_digits(n: nat)
    ensures
        text::digits(n, 16).len() > 0,
        n >= 16 ==> text::digits(n, 16).len() > 1,
        forall|i: int|
            0 <= i < text::digits(n, 16).len() ==> hex_digit(#[trigger] text::digits(n, 16)[i]),
    decreases n,
{
    lemma_digit_char(n % 16, 0);
    if n >= 16 {
        lemma_hex_digits(n / 16);
    }
}

proof fn lemma_hex_injective(n: nat, m: nat)
    requires
        text::digits(n, 16) == text::digits(m, 16),
    ensures
        n == m,
    decreases n,
{
    lemma_hex_digits(n);
    lemma_hex_digits(m);
    if n < 16 || m < 16 {
        assert(n < 16 && m < 16);
        assert(text::digits(n, 16)[0] == text::digit_char(n));
        assert(text::digits(m, 16)[0] == text::digit_char(m));
        lemma_digit_char(n, m);
    } else {
        let a = text::digits(n, 16);
        let b = text::digits(m, 16);
        assert(a.last() == text::digit_char(n % 16));
        assert(b.last() == text::digit_char(m % 16));
        lemma_digit_char(n % 16, m % 16);
        assert(a.drop_last() =~= text::digits(n / 16, 16));
        assert(b.drop_last() =~= text::digits(m / 16, 16));
        lemma_hex_injective(n / 16, m / 16);
    }
}

proof fn lemma_code_shape(c: char)
    ensures
        escape_code(c).len() > 0,
        escape_code(c)[0] == '\\' <==> escape_code(c).len() > 1,
        escape_code(c).len() == 1 ==> escape_code(c)[0] == c,
        escape_code(c).len() > 1 ==> {
            let k = escape_code(c)[1];
            ||| c == '"' && k == '"'
            ||| c == '\\' && k == '\\'
            ||| c == '%' && k == '%'
            ||| c == '\n' && k == 'n'
            ||| c == '\r' && k == 'r'
            ||| c == '\t' && k == 't'
            ||| c as u32 >= 128 && k == 'u'
        },
        forall|i: int|
            0 <= i < escape_code(c).len() ==> (#[trigger] escape_code(c)[i]) as u32 >= 32
                || escape_code(c)[i] == c,
        forall|i: int|
            0 <= i < escape_code(c).len() ==> (#[trigger] escape_code(c)[i]) as u32 <= 127,
        forall|i: int|
            0 <= i < escape_code(c).len() && (#[trigger] escape_code(c)[i] == '"' || escape_code(
                c,
            )[i] == '%') ==> i == 1,
        forall|i: int|
            0 <= i < escape_code(c).len() ==> {
                &&& #[trigger] escape_code(c)[i] != '\n'
                &&& escape_code(c)[i] != '\r'
                &&& escape_code(c)[i] != '\t'
            },
{
    reveal_strlit("\\\"");
    reveal_strlit("\\\\");
    reveal_strlit("\\%");
    reveal_strlit("\\n");
    reveal_strlit("\\r");
    reveal_strlit("\\t");
    reveal_strlit("\\u{");
    reveal_strlit("}");
    if c as u32 >= 128 {
        let n = (c as u32) as nat;
        lemma_hex_digits(n);
        let hex = text::digits(n, 16);
        let code = escape_code(c);
        assert(code == "\\u{"@ + hex + "}"@);
        assert forall|i: int| 0 <= i < code.len() implies code[i] == '\\' || code[i] == 'u' || code[i]
            == '{' || code[i] == '}' || hex_digit(#[trigger] code[i]) by {
            if 3 <= i < 3 + hex.len() {
                assert(code[i] == hex[i - 3]);
            }
        }
        assert(code[0] == '\\' && code[1] == 'u');
    }
}

/// An escaped text is plain ASCII without line breaks and tabs, and a quotation
/// mark or a percent sign in it stands behind a backslash.
pub proof fn law_escaped_plain(s: Seq<char>)
    ensures
        forall|i: int|
            0 <= i < escaped(s).len() ==> {
                &&& (#[trigger] escaped(s)[i]) as u32 <= 127
                &&& escaped(s)[i] != '\n'
                &&& escaped(s)[i] != '\r'
                &&& escaped(s)[i] != '\t'
                &&& escaped(s)[i] == '"' || escaped(s)[i] == '%' ==> i > 0 && escaped(s)[i - 1]
                    == '\\'
            },
    decreases s.len(),
{
    if s.len() > 0 {
        let code = escape_code(s[0]);
        let rest = escaped(s.skip(1));
        lemma_code_shape(s[0]);
        law_escaped_plain(s.skip(1));
        let all = escaped(s);
        assert(all == code + rest);
        assert forall|i: int| 0 <= i < all.len() implies {
            &&& (#[trigger] all[i]) as u32 <= 127
            &&& all[i] != '\n'
            &&& all[i] != '\r'
            &&& all[i] != '\t'
            &&& all[i] == '"' || all[i] == '%' ==> i > 0 && all[i - 1] == '\\'
        } by {
            if i < code.len() {
                assert(all[i] == code[i]);
                if all[i] == '"' || all[i] == '%' {
                    assert(i == 1);
                    assert(all[0] == code[0]);
                }
            } else {
                assert(all[i] == rest[i - code.len()]);
                if all[i] == '"' || all[i] == '%' {
                    assert(all[i - 1] == rest[i - code.len() - 1]);
                }
            }
        }
    }
}

proof fn lemma_code_unique(a: char, b: char, x: Seq<char>, y: Seq<char>)
    requires
        escape_code(a) + x == escape_code(b) + y,
    ensures
        a == b,
{
    let s = escape_code(a) + x;
    let t = escape_code(b) + y;
    lemma_code_shape(a);
    lemma_code_shape(b);
    assert(s[0] == escape_code(a)[0]);
    assert(t[0] == escape_code(b)[0]);
    if escape_code(a).len() > 1 && escape_code(b).len() > 1 {
        assert(s[1] == escape_code(a)[1]);
        assert(t[1] == escape_code(b)[1]);
        if a as u32 >= 128 && b as u32 >= 128 {
            reveal_strlit("\\u{");
            reveal_strlit("}");
            let na = (a as u32) as nat;
            let nb = (b as u32) as nat;
            let ha = text::digits(na, 16);
            let hb = text::digits(nb, 16);
            lemma_hex_digits(na);
            lemma_hex_digits(nb);
            assert forall|i: int| 0 <= i < ha.len() implies s[i + 3] == #[trigger] ha[i] by {}
            assert forall|i: int| 0 <= i < hb.len() implies t[i + 3] == #[trigger] hb[i] by {}
            assert(s[ha.len() as int + 3] == '}');
            assert(t[hb.len() as int + 3] == '}');
            if ha.len() < hb.len() {
                assert(hex_digit(hb[ha.len() as int]));
            }
            if hb.len() < ha.len() {
                assert(hex_digit(ha[hb.len() as int]));
            }
            assert forall|i: int| 0 <= i < ha.len() implies ha[i] == hb[i] by {
                assert(s[i + 3] == t[i + 3]);
            }
            assert(ha =~= hb);
            lemma_hex_injective(na, nb);
        }
    }
}

/// Different texts are escaped differently.
pub proof fn law_escaped_injective(a: Seq<char>, b: Seq<char>)
    requires
        escaped(a) == escaped(b),
    ensures
        a == b,
    decreases a.len(),
{
    if a.len() > 0 {
        lemma_code_shape(a[0]);
        assert(escaped(a).len() > 0);
    }
    if b.len() > 0 {
        lemma_code_shape(b[0]);
        assert(escaped(b).len() > 0);
    }
    if a.len() > 0 && b.len() > 0 {
        let x = escaped(a.skip(1));
        let y = escaped(b.skip(1));
        lemma_code_unique(a[0], b[0], x, y);
        let n = escape_code(a[0]).len() as int;
        assert(x =~= escaped(a).skip(n));
        assert(y =~= escaped(b).skip(n));
        law_escaped_injective(a.skip(1), b.skip(1));
        assert(a =~= seq![a[0]] + a.skip(1));
        assert(b =~= seq![b[0]] + b.skip(1));
    } else {
        assert(a =~= b);
    }
}

pub open spec fn ascii_letter(c: char) -> bool {
    ('a' <= c && c <= 'z') || ('A' <= c && c <= 'Z')
}

pub open spec fn ascii_digit(c: char) -> bool {
    '0' <= c && c <= '9'
}

/// A character that may stand in a Nickel identifier behind its first one.
pub open spec fn ident_rest(c: char) -> bool {
    ascii_letter(c) || ascii_digit(c) || c == '_' || c == '-' || c == '\''
}

/// A text that can be written as a Nickel identifier.
pub open spec fn nickel_ident(s: Seq<char>) -> bool {
    &&& s.len() > 0
    &&& ascii_letter(s[0]) || s[0] == '_'
    &&& forall|i: int| 1 <= i < s.len() ==> ident_rest(#[trigger] s[i])
}

fn is_letter(c: char) -> (r: bool)
    ensures
        r == ascii_letter(c),
{
    ('a' <= c && c <= 'z') || ('A' <= c && c <= 'Z')
}

/// Whether a text can be written as a Nickel identifier.
pub fn is_valid_nickel_ident(s: &str) -> (r: bool)
    ensures
        r == nickel_ident(s@),
{
    let x = text::chars_of(s);
    if x.len() == 0 {
        return false;
    }
    if !is_letter(x[0]) && x[0] != '_' {
        return false;
    }
    let mut i: usize = 1;
    while i < x.len()
        invariant
            x@ == s@,
            1 <= i <= x@.len(),
            forall|k: int| 1 <= k < i ==> ident_rest(#[trigger] s@[k]),
        decreases x@.len() - i,
    {
        let c = x[i];
        if !(is_letter(c) || ('0' <= c && c <= '9') || c == '_' || c == '-' || c == '\'') {
            assert(!ident_rest(s@[i as int]));
            return false;
        }
        i = i + 1;
    }
    true
}

/// A key as it stands in a Nickel record.
pub open spec fn nickel_key(key: Seq<char>) -> Seq<char> {
    if nickel_ident(key) {
        key
    } else {
        "\""@ + escaped(key) + "\""@
    }
}

/// Formats a key of a Nickel record, in quotation marks where it needs them.
pub fn format_nickel_key(key: &str) -> (r: String)
    ensures
        r@ == nickel_key(key@),
{
    if is_valid_nickel_ident(key) {
        text::owned(key)
    } else {
        text::concat3("\"", &escape_nickel_string(key), "\"")
    }
}

/// A word that Nickel reserves, so that it cannot stand for a field's name.
pub open spec fn reserved(word: Seq<char>) -> bool {
    word == "Dyn"@ || word == "Number"@ || word == "Bool"@
        || word == "String"@ || word == "Array"@ || word == "if"@
        || word == "then"@ || word == "else"@ || word == "forall"@
        || word == "in"@ || word == "let"@ || word == "rec"@
        || word == "match"@ || word == "null"@ || word == "true"@
        || word == "false"@ || word == "fun"@ || word == "import"@
}

/// Whether a word is reserved.
pub fn is_reserved(word: &str) -> (r: bool)
    ensures
        r == reserved(word@),
{
    text::str_eq(word, "Dyn") || text::str_eq(word, "Number")
        || text::str_eq(word, "Bool") || text::str_eq(word, "String")
        || text::str_eq(word, "Array") || text::str_eq(word, "if")
        || text::str_eq(word, "then") || text::str_eq(word, "else")
        || text::str_eq(word, "forall") || text::str_eq(word, "in")
        || text::str_eq(word, "let") || text::str_eq(word, "rec")
        || text::str_eq(word, "match") || text::str_eq(word, "null")
        || text::str_eq(word, "true") || text::str_eq(word, "false")
        || text::str_eq(word, "fun") || text::str_eq(word, "import")
}

/// Behind any underscores at its start, a text has a letter.
pub open spec fn lettered(s: Seq<char>) -> bool
    decreases s.len(),
{
    s.len() > 0 && if s[0] == '_' {
        lettered(s.skip(1))
    } else {
        ascii_letter(s[0])
    }
}

fn is_lettered(s: &str) -> (r: bool)
    ensures
        r == lettered(s@),
{
    let x = text::chars_of(s);
    let mut i: usize = 0;
    assert(x@.skip(0) =~= s@);
    while i < x.len()
        invariant
            x@ == s@,
            i <= x@.len(),
            lettered(s@) == lettered(x@.skip(i as int)),
        decreases x@.len() - i,
    {
        if x[i] != '_' {
            return is_letter(x[i]);
        }
        assert(x@.skip(i as int).skip(1) =~= x@.skip(i + 1));
        i = i + 1;
    }
    false
}

/// A text that Nickel reads as the name of a field where it stands without
/// quotation marks.
pub open spec fn bare_name(s: Seq<char>) -> bool {
    nickel_ident(s) && lettered(s) && !reserved(s)
}

/// The name of a field of a record: in quotation marks wherever Nickel would
/// not read it as a name without them.
pub open spec fn field_name(key: Seq<char>) -> Seq<char> {
    if bare_name(key) {
        key
    } else {
        "\""@ + escaped(key) + "\""@
    }
}

fn format_field_name(key: &str) -> (r: String)
    ensures
        r@ == field_name(key@),
{
    if is_valid_nickel_ident(key) && is_lettered(key) && !is_reserved(key) {
        text::owned(key)
    } else {
        text::concat3("\"", &escape_nickel_string(key), "\"")
    }
}

/// Different keys are written as different names of fields.
pub proof fn law_field_name_injective(a: Seq<char>, b: Seq<char>)
    requires
        field_name(a) == field_name(b),
    ensures
        a == b,
{
    reveal_strlit("\"");
    let x = field_name(a);
    let y = field_name(b);
    if !bare_name(a) {
        assert(x[0] == '"');
    }
    if !bare_name(b) {
        assert(y[0] == '"');
    }
    if !bare_name(a) && !bare_name(b) {
        assert(escaped(a) =~= x.subrange(1, x.len() - 1));
        assert(escaped(b) =~= y.subrange(1, y.len() - 1));
        law_escaped_injective(a, b);
    }
}

// ---------------------------------------------------------------------------
// Values
// ---------------------------------------------------------------------------

/// A value that is neither a list nor an object.
pub open spec fn simple_value(v: JsonModel) -> bool {
    !(v is Array) && !(v is Object)
}

/// Whether all of the values are simple.
pub open spec fn all_simple(entries: json::EntriesModel) -> bool {
    forall|i: int| 0 <= i < entries.len() ==> simple_value((#[trigger] entries[i]).1)
}

/// A value as a Nickel literal; lines behind the first are indented by `pad`.
pub open spec fn nickel_text(v: JsonModel, pad: Seq<char>) -> Seq<char>
    decreases v, 0nat,
{
    match v {
        JsonModel::Null => "null"@,
        JsonModel::Bool(b) => if b {
            "true"@
        } else {
            "false"@
        },
        JsonModel::Number(n) => n,
        JsonModel::Text(t) => "\""@ + escaped(t) + "\""@,
        JsonModel::Array(items) => if items.len() == 0 {
            "[]"@
        } else if items.len() == 1 && simple_value(items[0]) {
            "["@ + nickel_text(items[0], seq![]) + "]"@
        } else {
            "[\n"@ + nickel_items(items, pad + "  "@, items.len()) + pad + "]"@
        },
        JsonModel::Object(entries) => if entries.len() == 0 {
            "{}"@
        } else if entries.len() <= 2 && all_simple(entries) {
            "{ "@ + text::joined(nickel_pairs(entries), ", "@) + " }"@
        } else {
            "{\n"@ + nickel_fields(entries, pad + "  "@, entries.len()) + pad + "}"@
        },
    }
}

/// The lines of the first `n` items of a list.
pub open spec fn nickel_items(items: Seq<JsonModel>, pad: Seq<char>, n: nat) -> Seq<char>
    decreases items, n,
{
    if n == 0 || n > items.len() {
        seq![]
    } else {
        nickel_items(items, pad, (n - 1) as nat) + pad + nickel_text(items[n - 1], pad) + ",\n"@
    }
}

/// The lines of the first `n` entries of an object.
pub open spec fn nickel_fields(entries: json::EntriesModel, pad: Seq<char>, n: nat) -> Seq<char>
    decreases entries, n,
{
    if n == 0 || n > entries.len() {
        seq![]
    } else {
        nickel_fields(entries, pad, (n - 1) as nat) + pad + field_name(entries[n - 1].0) + " = "@
            + nickel_text(entries[n - 1].1, pad) + ",\n"@
    }
}

/// The entries of an object that is written on one line.
pub open spec fn nickel_pairs(entries: json::EntriesModel) -> Seq<Seq<char>>
    decreases entries, 0nat,
{
    Seq::new(
        entries.len(),
        |i: int|
            if 0 <= i < entries.len() {
                field_name(entries[i].0) + " = "@ + nickel_text(entries[i].1, seq![])
            } else {
                seq![]
            },
    )
}

fn is_simple_value(v: &Json) -> (r: bool)
    ensures
        r == simple_value(v@),
{
    match v {
        Json::Array(_) => false,
        Json::Object(_) => false,
        _ => true,
    }
}

fn are_simple(entries: &Vec<(String, Json)>) -> (r: bool)
    ensures
        r == all_simple(json::entries_model(entries@)),
{
    let ghost m = json::entries_model(entries@);
    let mut i: usize = 0;
    while i < entries.len()
        invariant
            i <= entries@.len(),
            m == json::entries_model(entries@),
            forall|k: int| 0 <= k < i ==> simple_value((#[trigger] m[k]).1),
        decreases entries@.len() - i,
    {
        assert(m[i as int].1 == entries@[i as int].1@);
        if !is_simple_value(&entries[i].1) {
            return false;
        }
        i = i + 1;
    }
    true
}

fn nickel_at(value: &Json, pad: &str) -> (r: String)
    ensures
        r@ == nickel_text(value@, pad@),
    decreases value,
{
    broadcast use {json::lemma_array_model, json::lemma_object_model};

    proof {
        reveal_strlit("");
        assert(""@ =~= Seq::<char>::empty());
    }
    match value {
        Json::Null => text::owned("null"),
        Json::Bool(b) => if *b {
            text::owned("true")
        } else {
            text::owned("false")
        },
        Json::Number(n) => text::owned(n),
        Json::Text(t) => text::concat3("\"", &escape_nickel_string(t), "\""),
        Json::Array(items) => {
            let ghost m = json::items_model(items@);
            if items.len() == 0 {
                return text::owned("[]");
            }
            assert(m[0] == items@[0]@);
            if items.len() == 1 && is_simple_value(&items[0]) {
                assert(decreases_to!(value => value->Array_0));
                assert(decreases_to!(items@ => items@[0]));
                return text::concat3("[", &nickel_at(&items[0], ""), "]");
            }
            let inner = text::concat2(pad, "  ");
            let mut out = text::owned("[\n");
            let mut i: usize = 0;
            assert(out@ =~= "[\n"@ + nickel_items(m, inner@, 0));
            while i < items.len()
                invariant
                    i <= items@.len(),
                    value == Json::Array(*items),
                    m == json::items_model(items@),
                    out@ == "[\n"@ + nickel_items(m, inner@, i as nat),
                decreases items@.len() - i,
            {
                assert(decreases_to!(value => value->Array_0));
                assert(decreases_to!(items@ => items@[i as int]));
                assert(m[i as int] == items@[i as int]@);
                out.append(&inner);
                out.append(&nickel_at(&items[i], &inner));
                out.append(",\n");
                i = i + 1;
                assert(out@ =~= "[\n"@ + nickel_items(m, inner@, i as nat));
            }
            out.append(pad);
            out.append("]");
            out
        },
        Json::Object(entries) => {
            let ghost m = json::entries_model(entries@);
            if entries.len() == 0 {
                return text::owned("{}");
            }
            if entries.len() <= 2 && are_simple(entries) {
                let mut pairs: Vec<String> = Vec::new();
                let mut i: usize = 0;
                while i < entries.len()
                    invariant
                        i <= entries@.len(),
                        value == Json::Object(*entries),
                        m == json::entries_model(entries@),
                        pairs@.len() == i,
                        ""@ == Seq::<char>::empty(),
                        forall|k: int|
                            0 <= k < i ==> (#[trigger] pairs@[k])@ == nickel_pairs(m)[k],
                    decreases entries@.len() - i,
                {
                    assert(decreases_to!(value => value->Object_0));
                    assert(decreases_to!(entries@ => entries@[i as int]));
                    assert(decreases_to!(entries@[i as int] => entries@[i as int].1));
                    assert(m[i as int] == (entries@[i as int].0@, entries@[i as int].1@));
                    let key = format_field_name(&entries[i].0);
                    let pair = text::concat3(&key, " = ", &nickel_at(&entries[i].1, ""));
                    assert(pair@ == nickel_pairs(m)[i as int]);
                    pairs.push(pair);
                    i = i + 1;
                }
                assert(text::texts(pairs@) =~= nickel_pairs(m));
                return text::concat3("{ ", &text::join(&pairs, ", "), " }");
            }
            let inner = text::concat2(pad, "  ");
            let mut out = text::owned("{\n");
            let mut i: usize = 0;
            assert(out@ =~= "{\n"@ + nickel_fields(m, inner@, 0));
            while i < entries.len()
                invariant
                    i <= entries@.len(),
                    value == Json::Object(*entries),
                    m == json::entries_model(entries@),
                    out@ == "{\n"@ + nickel_fields(m, inner@, i as nat),
                decreases entries@.len() - i,
            {
                assert(decreases_to!(value => value->Object_0));
                assert(decreases_to!(entries@ => entries@[i as int]));
                assert(decreases_to!(entries@[i as int] => entries@[i as int].1));
                assert(m[i as int] == (entries@[i as int].0@, entries@[i as int].1@));
                out.append(&inner);
                out.append(&format_field_name(&entries[i].0));
                out.append(" = ");
                out.append(&nickel_at(&entries[i].1, &inner));
                out.append(",\n");
                i = i + 1;
                assert(out@ =~= "{\n"@ + nickel_fields(m, inner@, i as nat));
            }
            out.append(pad);
            out.append("}");
            out
        },
    }
}

/// Writes a value as a Nickel literal at an indentation level of two spaces.
pub fn json_to_nickel(value: &Json, indent: usize) -> (r: String)
    ensures
        r@ == nickel_text(value@, text::repeated("  "@, indent as nat)),
{
    nickel_at(value, &text::repeat("  ", indent))
}

/// A key that is an identifier is written as it is, every other one in quotation
/// marks, and different keys are written differently.
pub proof fn law_key_injective(a: Seq<char>, b: Seq<char>)
    ensures
        nickel_ident(a) <==> nickel_key(a) == a,
        nickel_key(a) == nickel_key(b) ==> a == b,
{
    reveal_strlit("\"");
    let x = nickel_key(a);
    let y = nickel_key(b);
    if !nickel_ident(a) {
        assert(x[0] == '"');
        assert(x.len() == escaped(a).len() + 2);
        lemma_escaped_len(a);
    }
    if !nickel_ident(b) {
        assert(y[0] == '"');
    }
    if !nickel_ident(a) && !nickel_ident(b) && x == y {
        assert(escaped(a) =~= x.subrange(1, x.len() - 1));
        assert(escaped(b) =~= y.subrange(1, y.len() - 1));
        law_escaped_injective(a, b);
    }
}

proof fn lemma_escaped_len(s: Seq<char>)
    ensures
        escaped(s).len() >= s.len(),
    decreases s.len(),
{
    if s.len() > 0 {
        lemma_code_shape(s[0]);
        lemma_escaped_len(s.skip(1));
    }
}

} // verus!
