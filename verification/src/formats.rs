//! The file formats of configuration: how text is read into structured values
//! and how values are rendered.
use crate::diff;
use crate::json;
use crate::json::{Json, JsonModel};
use crate::pairs;
use crate::text;
use vstd::prelude::*;
use vstd::string::*;

verus! {

/// The format of a configuration file.
#[derive(Debug, Clone, Copy, PartialEq, Eq, Structural)]
pub enum Format {
    Toml,
    Json,
    Jsonc,
    Yaml,
    SpaceDelimitedPairs,
    SpaceDelimitedRecord,
    EqualDelimitedRecord,
    Plaintext,
}

/// The extension of a file name: what stands behind the last dot of the last
/// component, unless that dot begins the component.
pub open spec fn extension(path: Seq<char>) -> Seq<char> {
    let base = text::after_last(path, '/');
    let tail = text::after_last(base, '.');
    if tail.len() + 1 < base.len() {
        tail
    } else {
        seq![]
    }
}

/// The format that an extension stands for.
pub open spec fn format_of(extension: Seq<char>) -> Format {
    if extension == "toml"@ {
        Format::Toml
    } else if extension == "jsonc"@ {
        Format::Jsonc
    } else if extension == "json"@ {
        Format::Json
    } else if extension == "yaml"@ || extension == "yml"@ {
        Format::Yaml
    } else {
        Format::Plaintext
    }
}

/// The format that a name in an order stands for.
pub open spec fn named_format(name: Seq<char>) -> Option<Format> {
    if name == "toml"@ {
        Some(Format::Toml)
    } else if name == "json"@ {
        Some(Format::Json)
    } else if name == "jsonc"@ {
        Some(Format::Jsonc)
    } else if name == "yaml"@ {
        Some(Format::Yaml)
    } else if name == "space_delimited_pairs"@ {
        Some(Format::SpaceDelimitedPairs)
    } else if name == "space_delimited_record"@ {
        Some(Format::SpaceDelimitedRecord)
    } else if name == "equal_delimited_record"@ {
        Some(Format::EqualDelimitedRecord)
    } else if name == "plaintext"@ {
        Some(Format::Plaintext)
    } else {
        None
    }
}

impl Format {
    /// The format that the extension of a file name stands for.
    pub fn from_path(path: &str) -> (r: Format)
        ensures
            r == format_of(extension(path@)),
    {
        let x = text::chars_of(path);
        let from = text::find_after_last(&x, '/');
        let base = text::chars_of(&text::string_of(&x, from, x.len()));
        assert(base@ == text::after_last(path@, '/'));
        let at = text::find_after_last(&base, '.');
        let tail = if at >= 2 {
            text::string_of(&base, at, base.len())
        } else {
            String::new()
        };
        assert(base@.skip(at as int).len() == base@.len() - at);
        assert(tail@ =~= extension(path@));
        if text::str_eq(&tail, "toml") {
            Format::Toml
        } else if text::str_eq(&tail, "jsonc") {
            Format::Jsonc
        } else if text::str_eq(&tail, "json") {
            Format::Json
        } else if text::str_eq(&tail, "yaml") || text::str_eq(&tail, "yml") {
            Format::Yaml
        } else {
            Format::Plaintext
        }
    }

    /// The format that a name in an order stands for.
    pub fn from_name(name: &str) -> (r: Option<Format>)
        ensures
            r == named_format(name@),
    {
        if text::str_eq(name, "toml") {
            Some(Format::Toml)
        } else if text::str_eq(name, "json") {
            Some(Format::Json)
        } else if text::str_eq(name, "jsonc") {
            Some(Format::Jsonc)
        } else if text::str_eq(name, "yaml") {
            Some(Format::Yaml)
        } else if text::str_eq(name, "space_delimited_pairs") {
            Some(Format::SpaceDelimitedPairs)
        } else if text::str_eq(name, "space_delimited_record") {
            Some(Format::SpaceDelimitedRecord)
        } else if text::str_eq(name, "equal_delimited_record") {
            Some(Format::EqualDelimitedRecord)
        } else if text::str_eq(name, "plaintext") {
            Some(Format::Plaintext)
        } else {
            None
        }
    }
}

// ---------------------------------------------------------------------------
// JSON with comments
// ---------------------------------------------------------------------------

/// Where a block comment ends whose opening has been read: behind the first
/// `*/`, or at the end.
pub open spec fn block_end(s: Seq<char>) -> nat
    decreases s.len(),
{
    if s.len() < 2 {
        s.len()
    } else if s[0] == '*' && s[1] == '/' {
        2
    } else {
        1 + block_end(s.skip(1))
    }
}

pub proof fn lemma_block_end_range(s: Seq<char>)
    ensures
        block_end(s) <= s.len(),
    decreases s.len(),
{
    if s.len() >= 2 {
        lemma_block_end_range(s.skip(1));
    }
}

/// A text without its comments. A line comment leaves its line break behind;
/// inside quotation marks nothing is a comment.
pub open spec fn without_comments(s: Seq<char>, quoted: bool) -> Seq<char>
    decreases s.len(),
{
    if s.len() == 0 {
        seq![]
    } else if quoted {
        if s[0] == '\\' && s.len() >= 2 {
            seq![s[0], s[1]] + without_comments(s.skip(2), true)
        } else {
            seq![s[0]] + without_comments(s.skip(1), s[0] != '"')
        }
    } else if s.len() >= 2 && s[0] == '/' && s[1] == '/' {
        let rest = s.skip(2);
        proof {
            text::lemma_first_of_range(rest, '\n');
        }
        without_comments(rest.skip(text::first_of(rest, '\n') as int), false)
    } else if s.len() >= 2 && s[0] == '/' && s[1] == '*' {
        let rest = s.skip(2);
        proof {
            lemma_block_end_range(rest);
        }
        without_comments(rest.skip(block_end(rest) as int), false)
    } else {
        seq![s[0]] + without_comments(s.skip(1), s[0] == '"')
    }
}

/// Whether a closing bracket comes next, after white space.
pub open spec fn closes_next(s: Seq<char>) -> bool {
    let n = text::leading_space(s) as int;
    n < s.len() && (s[n] == '}' || s[n] == ']')
}

/// A text without the commas that stand before a closing bracket.
pub open spec fn without_trailing_commas(s: Seq<char>, quoted: bool) -> Seq<char>
    decreases s.len(),
{
    if s.len() == 0 {
        seq![]
    } else if quoted {
        if s[0] == '\\' && s.len() >= 2 {
            seq![s[0], s[1]] + without_trailing_commas(s.skip(2), true)
        } else {
            seq![s[0]] + without_trailing_commas(s.skip(1), s[0] != '"')
        }
    } else if s[0] == ',' && closes_next(s.skip(1)) {
        without_trailing_commas(s.skip(1), false)
    } else {
        seq![s[0]] + without_trailing_commas(s.skip(1), s[0] == '"')
    }
}

/// JSON with comments and trailing commas as plain JSON.
pub open spec fn plain_json(s: Seq<char>) -> Seq<char> {
    without_trailing_commas(without_comments(s, false), false)
}

/// A block comment is closed at a position.
pub open spec fn closes_block(s: Seq<char>, i: int) -> bool {
    0 <= i && i + 1 < s.len() && s[i] == '*' && s[i + 1] == '/'
}

proof fn lemma_block_end(s: Seq<char>, n: int)
    requires
        0 <= n <= s.len(),
        forall|i: int| 0 <= i < n ==> !#[trigger] closes_block(s, i),
    ensures
        n + 1 >= s.len() ==> block_end(s) == s.len(),
        closes_block(s, n) ==> block_end(s) == n + 2,
    decreases n,
{
    if n > 0 && s.len() >= 2 {
        let t = s.skip(1);
        assert(!closes_block(s, 0));
        assert forall|i: int| 0 <= i < n - 1 implies !#[trigger] closes_block(t, i) by {
            assert(!closes_block(s, i + 1));
        }
        lemma_block_end(t, n - 1);
    }
}

fn find_block_end(x: &Vec<char>, from: usize) -> (r: usize)
    requires
        from <= x@.len(),
    ensures
        from <= r <= x@.len(),
        r == from + block_end(x@.skip(from as int)),
{
    let ghost s = x@.skip(from as int);
    let mut i: usize = from;
    while i < x.len() && x.len() - i >= 2
        invariant
            from <= i <= x@.len(),
            s == x@.skip(from as int),
            forall|k: int| 0 <= k < i - from ==> !#[trigger] closes_block(s, k),
        decreases x@.len() - i,
    {
        if x[i] == '*' && x[i + 1] == '/' {
            proof {
                lemma_block_end(s, i - from);
            }
            return i + 2;
        }
        i = i + 1;
    }
    proof {
        lemma_block_end(s, i - from);
    }
    x.len()
}

fn strip_comments(s: &str) -> (r: String)
    ensures
        r@ == without_comments(s@, false),
{
    let x = text::chars_of(s);
    let mut r = String::new();
    let mut quoted = false;
    let mut i: usize = 0;
    assert(x@.skip(0) == x@);
    while i < x.len()
        invariant
            x@ == s@,
            i <= x@.len(),
            without_comments(s@, false) == r@ + without_comments(x@.skip(i as int), quoted),
        decreases x@.len() - i,
    {
        let ghost rest = x@.skip(i as int);
        let ghost before = r@;
        let left: usize = x.len() - i;
        if quoted {
            if x[i] == '\\' && left >= 2 {
                r.push(x[i]);
                r.push(x[i + 1]);
                i = i + 2;
                assert(rest.skip(2) == x@.skip(i as int));
                assert(r@ == before + seq![rest[0], rest[1]]);
            } else {
                r.push(x[i]);
                quoted = x[i] != '"';
                i = i + 1;
                assert(rest.skip(1) == x@.skip(i as int));
                assert(r@ == before + seq![rest[0]]);
            }
        } else if left >= 2 && x[i] == '/' && x[i + 1] == '/' {
            let from: usize = i + 2;
            i = text::find_char(&x, from, '\n');
            assert(rest.skip(2) == x@.skip(from as int));
            assert(rest.skip(2).skip(i - from) == x@.skip(i as int));
        } else if left >= 2 && x[i] == '/' && x[i + 1] == '*' {
            let from: usize = i + 2;
            i = find_block_end(&x, from);
            assert(rest.skip(2) == x@.skip(from as int));
            assert(rest.skip(2).skip(i - from) == x@.skip(i as int));
        } else {
            r.push(x[i]);
            quoted = x[i] == '"';
            i = i + 1;
            assert(rest.skip(1) == x@.skip(i as int));
            assert(r@ == before + seq![rest[0]]);
        }
        assert(without_comments(s@, false) == r@ + without_comments(x@.skip(i as int), quoted));
    }
    assert(r@ + without_comments(x@.skip(i as int), quoted) == r@);
    r
}

fn closes_at(x: &Vec<char>, from: usize) -> (r: bool)
    requires
        from <= x@.len(),
    ensures
        r == closes_next(x@.skip(from as int)),
{
    let ghost s = x@.skip(from as int);
    let mut i: usize = from;
    while i < x.len() && text::is_white_space(x[i])
        invariant
            from <= i <= x@.len(),
            s == x@.skip(from as int),
            forall|k: int| 0 <= k < i - from ==> text::white_space(s[k]),
        decreases x@.len() - i,
    {
        i = i + 1;
    }
    proof {
        text::lemma_leading_space(s, i - from);
    }
    i < x.len() && (x[i] == '}' || x[i] == ']')
}

fn strip_trailing_commas(s: &str) -> (r: String)
    ensures
        r@ == without_trailing_commas(s@, false),
{
    let x = text::chars_of(s);
    let mut r = String::new();
    let mut quoted = false;
    let mut i: usize = 0;
    assert(x@.skip(0) == x@);
    while i < x.len()
        invariant
            x@ == s@,
            i <= x@.len(),
            without_trailing_commas(s@, false) == r@ + without_trailing_commas(
                x@.skip(i as int),
                quoted,
            ),
        decreases x@.len() - i,
    {
        let ghost rest = x@.skip(i as int);
        let ghost before = r@;
        assert(rest.skip(1) == x@.skip(i + 1));
        if quoted {
            if x[i] == '\\' && x.len() - i >= 2 {
                r.push(x[i]);
                r.push(x[i + 1]);
                i = i + 2;
                assert(rest.skip(2) == x@.skip(i as int));
                assert(r@ == before + seq![rest[0], rest[1]]);
            } else {
                r.push(x[i]);
                quoted = x[i] != '"';
                i = i + 1;
                assert(r@ == before + seq![rest[0]]);
            }
        } else if x[i] == ',' && closes_at(&x, i + 1) {
            i = i + 1;
        } else {
            r.push(x[i]);
            quoted = x[i] == '"';
            i = i + 1;
            assert(r@ == before + seq![rest[0]]);
        }
        assert(without_trailing_commas(s@, false) == r@ + without_trailing_commas(
            x@.skip(i as int),
            quoted,
        ));
    }
    assert(r@ + without_trailing_commas(x@.skip(i as int), quoted) == r@);
    r
}

/// JSON with comments and trailing commas as plain JSON.
pub fn strip_jsonc(s: &str) -> (r: String)
    ensures
        r@ == plain_json(s@),
{
    strip_trailing_commas(&strip_comments(s))
}

// ---------------------------------------------------------------------------
// Delimited lines
// ---------------------------------------------------------------------------

/// The key and the value of a line: what stands before and behind the first
/// separator, without surrounding white space.
pub open spec fn line_parts(line: Seq<char>, sep: char) -> (Seq<char>, Seq<char>) {
    let body = text::trimmed(line);
    let n = text::first_of(body, sep) as int;
    (
        text::trimmed(body.take(n)),
        if n < body.len() {
            text::trimmed(body.skip(n + 1))
        } else {
            seq![]
        },
    )
}

/// The object that the first `n` lines make; blank lines count for nothing.
pub open spec fn record_of(lines: Seq<Seq<char>>, sep: char, n: nat) -> json::EntriesModel
    decreases n,
{
    if n == 0 || n > lines.len() {
        seq![]
    } else {
        let before = record_of(lines, sep, (n - 1) as nat);
        let line = lines[n - 1];
        if text::trimmed(line).len() == 0 {
            before
        } else {
            let parts = line_parts(line, sep);
            pairs::put(before, parts.0, JsonModel::Text(parts.1))
        }
    }
}

/// The pairs that the first `n` lines make; blank lines count for nothing.
pub open spec fn pairs_of(lines: Seq<Seq<char>>, sep: char, n: nat) -> Seq<JsonModel>
    decreases n,
{
    if n == 0 || n > lines.len() {
        seq![]
    } else {
        let before = pairs_of(lines, sep, (n - 1) as nat);
        let line = lines[n - 1];
        if text::trimmed(line).len() == 0 {
            before
        } else {
            let parts = line_parts(line, sep);
            before.push(
                JsonModel::Array(seq![JsonModel::Text(parts.0), JsonModel::Text(parts.1)]),
            )
        }
    }
}

fn split_line(line: &str, sep: char) -> (r: Option<(String, String)>)
    ensures
        match r {
            Some(parts) => text::trimmed(line@).len() > 0 && (parts.0@, parts.1@) == line_parts(
                line@,
                sep,
            ),
            None => text::trimmed(line@).len() == 0,
        },
{
    let body = text::chars_of(&text::trim(line));
    if body.len() == 0 {
        return None;
    }
    let n = text::find_char(&body, 0, sep);
    assert(body@.skip(0) == body@);
    let key = text::trim(&text::string_of(&body, 0, n));
    assert(body@.subrange(0, n as int) == body@.take(n as int));
    let value = if n < body.len() {
        assert(body@.subrange(n + 1, body@.len() as int) == body@.skip(n + 1));
        text::trim(&text::string_of(&body, n + 1, body.len()))
    } else {
        String::new()
    };
    assert(value@ =~= line_parts(line@, sep).1);
    Some((key, value))
}

fn read_record(s: &str, sep: char) -> (r: Json)
    ensures
        r@ == JsonModel::Object(record_of(text::lines(s@), sep, text::lines(s@).len())),
{
    broadcast use {json::lemma_array_model, json::lemma_object_model};

    let lines = text::lines_of(s);
    let ghost m = text::texts(lines@);
    let mut out: Vec<(String, Json)> = Vec::new();
    assert(json::entries_model(out@) =~= seq![]);
    let mut i: usize = 0;
    while i < lines.len()
        invariant
            i <= lines@.len(),
            m == text::texts(lines@),
            json::entries_model(out@) == record_of(m, sep, i as nat),
        decreases lines@.len() - i,
    {
        assert(m[i as int] == lines@[i as int]@);
        match split_line(&lines[i], sep) {
            Some(parts) => json::put_entry(&mut out, &parts.0, Json::Text(parts.1)),
            None => {},
        }
        i = i + 1;
    }
    Json::Object(out)
}

fn read_pairs(s: &str, sep: char) -> (r: Json)
    ensures
        r@ == JsonModel::Array(pairs_of(text::lines(s@), sep, text::lines(s@).len())),
{
    broadcast use {json::lemma_array_model, json::lemma_object_model};

    let lines = text::lines_of(s);
    let ghost m = text::texts(lines@);
    let mut out: Vec<Json> = Vec::new();
    assert(json::items_model(out@) =~= seq![]);
    let mut i: usize = 0;
    while i < lines.len()
        invariant
            i <= lines@.len(),
            m == text::texts(lines@),
            json::items_model(out@) == pairs_of(m, sep, i as nat),
        decreases lines@.len() - i,
    {
        assert(m[i as int] == lines@[i as int]@);
        match split_line(&lines[i], sep) {
            Some(parts) => {
                let ghost before = out@;
                let ghost texts = (parts.0@, parts.1@);
                let mut pair: Vec<Json> = Vec::new();
                pair.push(Json::Text(parts.0));
                pair.push(Json::Text(parts.1));
                proof {
                    json::lemma_array_model(pair);
                    assert(json::items_model(pair@) =~= seq![
                        JsonModel::Text(texts.0),
                        JsonModel::Text(texts.1),
                    ]);
                }
                let value = Json::Array(pair);
                out.push(value);
                assert(json::items_model(out@) =~= json::items_model(before).push(value@));
            },
            None => {},
        }
        i = i + 1;
    }
    Json::Array(out)
}

/// The text of a value on a line; lists and objects have none.
pub open spec fn line_text(v: JsonModel) -> Option<Seq<char>> {
    match v {
        JsonModel::Text(t) => Some(t),
        JsonModel::Array(_) => None,
        JsonModel::Object(_) => None,
        _ => Some(diff::semantic::shown(v)),
    }
}

/// The lines of the first `n` entries of an object.
pub open spec fn record_text(entries: json::EntriesModel, sep: Seq<char>, n: nat) -> Option<
    Seq<char>,
>
    decreases n,
{
    if n == 0 || n > entries.len() {
        Some(seq![])
    } else {
        match (
            record_text(entries, sep, (n - 1) as nat),
            line_text(entries[n - 1].1),
        ) {
            (Some(before), Some(value)) => Some(before + entries[n - 1].0 + sep + value + "\n"@),
            _ => None,
        }
    }
}

/// The line of a pair: a list of two values that have a text.
pub open spec fn pair_text(v: JsonModel, sep: Seq<char>) -> Option<Seq<char>> {
    match v {
        JsonModel::Array(pair) => if pair.len() == 2 {
            match (line_text(pair[0]), line_text(pair[1])) {
                (Some(key), Some(value)) => Some(key + sep + value + "\n"@),
                _ => None,
            }
        } else {
            None
        },
        _ => None,
    }
}

/// The lines of the first `n` pairs.
pub open spec fn pairs_text(items: Seq<JsonModel>, sep: Seq<char>, n: nat) -> Option<Seq<char>>
    decreases n,
{
    if n == 0 || n > items.len() {
        Some(seq![])
    } else {
        match (pairs_text(items, sep, (n - 1) as nat), pair_text(items[n - 1], sep)) {
            (Some(before), Some(line)) => Some(before + line),
            _ => None,
        }
    }
}

/// Whether an optional string holds an optional text.
pub open spec fn holds(r: Option<String>, t: Option<Seq<char>>) -> bool {
    match r {
        Some(s) => t == Some(s@),
        None => t is None,
    }
}

fn write_line_text(v: &Json) -> (r: Option<String>)
    ensures
        holds(r, line_text(v@)),
{
    match v {
        Json::Text(t) => Some(text::owned(t)),
        Json::Array(_) => None,
        Json::Object(_) => None,
        _ => Some(diff::semantic::format_value(v)),
    }
}

proof fn lemma_record_none(entries: json::EntriesModel, sep: Seq<char>, n: nat, m: nat)
    requires
        n <= m <= entries.len(),
        record_text(entries, sep, n) is None,
    ensures
        record_text(entries, sep, m) is None,
    decreases m,
{
    if n < m {
        lemma_record_none(entries, sep, n, (m - 1) as nat);
    }
}

fn write_record(value: &Json, sep: &str) -> (r: Option<String>)
    ensures
        holds(
            r,
            match value@ {
                JsonModel::Object(entries) => record_text(entries, sep@, entries.len()),
                _ => None,
            },
        ),
{
    broadcast use {json::lemma_array_model, json::lemma_object_model};

    match value {
        Json::Object(entries) => {
            let ghost m = json::entries_model(entries@);
            let mut out = String::new();
            let mut i: usize = 0;
            assert(out@ =~= seq![]);
            while i < entries.len()
                invariant
                    i <= entries@.len(),
                    m == json::entries_model(entries@),
                    value@ == JsonModel::Object(m),
                    record_text(m, sep@, i as nat) == Some(out@),
                decreases entries@.len() - i,
            {
                assert(m[i as int] == (entries@[i as int].0@, entries@[i as int].1@));
                match write_line_text(&entries[i].1) {
                    Some(t) => {
                        let head = text::concat3(&out, &entries[i].0, sep);
                        out = text::concat3(&head, &t, "\n");
                    },
                    None => {
                        proof {
                            lemma_record_none(m, sep@, (i + 1) as nat, m.len());
                        }
                        return None;
                    },
                }
                i = i + 1;
            }
            Some(out)
        },
        _ => None,
    }
}

proof fn lemma_pairs_none(items: Seq<JsonModel>, sep: Seq<char>, n: nat, m: nat)
    requires
        n <= m <= items.len(),
        pairs_text(items, sep, n) is None,
    ensures
        pairs_text(items, sep, m) is None,
    decreases m,
{
    if n < m {
        lemma_pairs_none(items, sep, n, (m - 1) as nat);
    }
}

fn write_pair(value: &Json, sep: &str) -> (r: Option<String>)
    ensures
        holds(r, pair_text(value@, sep@)),
{
    broadcast use {json::lemma_array_model, json::lemma_object_model};

    match value {
        Json::Array(pair) => {
            let ghost m = json::items_model(pair@);
            if pair.len() != 2 {
                return None;
            }
            assert(m[0] == pair@[0]@ && m[1] == pair@[1]@);
            match (write_line_text(&pair[0]), write_line_text(&pair[1])) {
                (Some(key), Some(v)) => Some(
                    text::concat2(&text::concat3(&key, sep, &v), "\n"),
                ),
                _ => None,
            }
        },
        _ => None,
    }
}

fn write_pairs(value: &Json, sep: &str) -> (r: Option<String>)
    ensures
        holds(
            r,
            match value@ {
                JsonModel::Array(items) => pairs_text(items, sep@, items.len()),
                _ => None,
            },
        ),
{
    broadcast use {json::lemma_array_model, json::lemma_object_model};

    match value {
        Json::Array(items) => {
            let ghost m = json::items_model(items@);
            let mut out = String::new();
            let mut i: usize = 0;
            assert(out@ =~= seq![]);
            while i < items.len()
                invariant
                    i <= items@.len(),
                    m == json::items_model(items@),
                    value@ == JsonModel::Array(m),
                    pairs_text(m, sep@, i as nat) == Some(out@),
                decreases items@.len() - i,
            {
                assert(m[i as int] == items@[i as int]@);
                match write_pair(&items[i], sep) {
                    Some(line) => {
                        out = text::concat2(&out, &line);
                    },
                    None => {
                        proof {
                            lemma_pairs_none(m, sep@, (i + 1) as nat, m.len());
                        }
                        return None;
                    },
                }
                i = i + 1;
            }
            Some(out)
        },
        _ => None,
    }
}

// ---------------------------------------------------------------------------
// Outside formats
// ---------------------------------------------------------------------------

/// What `toml::from_str` reads a text as; `None` where it reports an error.
pub uninterp spec fn parsed_toml(text: Seq<char>) -> Option<JsonModel>;

/// What `toml::to_string` prints for a value, or the message of the error that it
/// reports; an error as well where a number is not in JSON notation.
pub uninterp spec fn rendered_toml(value: JsonModel) -> Result<Seq<char>, Seq<char>>;

/// What `serde_json::to_string_pretty` prints for a value, or the message of the
/// error that it reports; an error as well where a number is not in JSON notation.
pub uninterp spec fn rendered_json(value: JsonModel) -> Result<Seq<char>, Seq<char>>;

/// `toml::from_str` reads a text as a TOML document. The objects that it
/// builds are maps, so no key occurs twice in one.
#[verifier::external_body]
fn parse_toml(text: &str) -> (r: Option<Json>)
    ensures
        match r {
            Some(v) => parsed_toml(text@) == Some(v@) && json::well_formed(v@),
            None => parsed_toml(text@) is None,
        },
{
    toml::from_str::<serde_json::Value>(text).ok().map(json::json_of)
}

/// Whether an outcome holds a text, or the message of a failure.
pub open spec fn yields(r: Result<String, String>, t: Result<Seq<char>, Seq<char>>) -> bool {
    match r {
        Ok(s) => t == Ok::<Seq<char>, Seq<char>>(s@),
        Err(m) => t == Err::<Seq<char>, Seq<char>>(m@),
    }
}

/// `toml::to_string` prints a value as a TOML document, or reports why it cannot;
/// the text and the message are determined by the value.
#[verifier::external_body]
fn render_toml(value: &Json) -> (r: Result<String, String>)
    ensures
        yields(r, rendered_toml(value@)),
{
    match json::value_of(value) {
        Some(v) => toml::to_string(&v).map_err(|e| e.to_string()),
        None => Err("a number is not in JSON notation".to_string()),
    }
}

/// `serde_json::to_string_pretty` prints a value as indented JSON, or reports why
/// it cannot; the text and the message are determined by the value.
#[verifier::external_body]
fn render_json(value: &Json) -> (r: Result<String, String>)
    ensures
        yields(r, rendered_json(value@)),
{
    match json::value_of(value) {
        Some(v) => serde_json::to_string_pretty(&v).map_err(|e| e.to_string()),
        None => Err("a number is not in JSON notation".to_string()),
    }
}

// ---------------------------------------------------------------------------
// Renderers
// ---------------------------------------------------------------------------

/// What a text holds in a format; `None` where it cannot be read.
pub open spec fn parsed(format: Format, s: Seq<char>) -> Option<JsonModel> {
    match format {
        Format::Toml => parsed_toml(s),
        Format::Json | Format::Yaml => match json::parsed_json(s) {
            Some(v) => Some(v),
            None => json::parsed_json(plain_json(s)),
        },
        Format::Jsonc => json::parsed_json(plain_json(s)),
        Format::SpaceDelimitedPairs => Some(
            JsonModel::Array(pairs_of(text::lines(s), ' ', text::lines(s).len())),
        ),
        Format::SpaceDelimitedRecord => Some(
            JsonModel::Object(record_of(text::lines(s), ' ', text::lines(s).len())),
        ),
        Format::EqualDelimitedRecord => Some(
            JsonModel::Object(record_of(text::lines(s), '=', text::lines(s).len())),
        ),
        Format::Plaintext => Some(JsonModel::Text(s)),
    }
}

/// A text that is there, or a message in its place.
pub open spec fn or_message(t: Option<Seq<char>>, message: Seq<char>) -> Result<
    Seq<char>,
    Seq<char>,
> {
    match t {
        Some(s) => Ok(s),
        None => Err(message),
    }
}

/// The text of a value in a format, or why it has none.
pub open spec fn rendered(format: Format, v: JsonModel) -> Result<Seq<char>, Seq<char>> {
    match format {
        Format::Toml => rendered_toml(v),
        Format::Json | Format::Yaml | Format::Jsonc => rendered_json(v),
        Format::SpaceDelimitedPairs => or_message(
            match v {
                JsonModel::Array(items) => pairs_text(items, " "@, items.len()),
                _ => None,
            },
            "expected an array of pairs of scalars"@,
        ),
        Format::SpaceDelimitedRecord => or_message(
            match v {
                JsonModel::Object(entries) => record_text(entries, " "@, entries.len()),
                _ => None,
            },
            "expected a record of scalars"@,
        ),
        Format::EqualDelimitedRecord => or_message(
            match v {
                JsonModel::Object(entries) => record_text(entries, "="@, entries.len()),
                _ => None,
            },
            "expected a record of scalars"@,
        ),
        Format::Plaintext => or_message(
            match v {
                JsonModel::Text(t) => Some(t),
                _ => None,
            },
            "expected a string"@,
        ),
    }
}

/// Reads and renders one format.
#[derive(Debug, Clone, Copy)]
pub struct Renderer {
    pub format: Format,
}

/// The renderer of a format.
pub fn get_renderer(format: Format) -> (r: Renderer)
    ensures
        r.format == format,
{
    Renderer { format }
}

impl Renderer {
    /// Reads a text; `None` where it is not in the format.
    pub fn parse(&self, s: &str) -> (r: Option<Json>)
        ensures
            match r {
                Some(v) => parsed(self.format, s@) == Some(v@) && json::well_formed(v@),
                None => parsed(self.format, s@) is None,
            },
    {
        match self.format {
            Format::Toml => parse_toml(s),
            Format::Json | Format::Yaml => match json::parse_json(s) {
                Some(v) => Some(v),
                None => json::parse_json(&strip_jsonc(s)),
            },
            Format::Jsonc => json::parse_json(&strip_jsonc(s)),
            Format::SpaceDelimitedPairs => {
                proof {
                    lemma_pairs_well_formed(text::lines(s@), ' ', text::lines(s@).len());
                }
                Some(read_pairs(s, ' '))
            },
            Format::SpaceDelimitedRecord => {
                proof {
                    lemma_record_well_formed(text::lines(s@), ' ', text::lines(s@).len());
                }
                Some(read_record(s, ' '))
            },
            Format::EqualDelimitedRecord => {
                proof {
                    lemma_record_well_formed(text::lines(s@), '=', text::lines(s@).len());
                }
                Some(read_record(s, '='))
            },
            Format::Plaintext => Some(Json::Text(text::owned(s))),
        }
    }

    /// Renders a value, or reports why the format cannot hold it.
    pub fn render(&self, value: &Json) -> (r: Result<String, String>)
        ensures
            yields(r, rendered(self.format, value@)),
    {
        match self.format {
            Format::Toml => render_toml(value),
            Format::Json | Format::Yaml | Format::Jsonc => render_json(value),
            Format::SpaceDelimitedPairs => match write_pairs(value, " ") {
                Some(s) => Ok(s),
                None => Err(text::owned("expected an array of pairs of scalars")),
            },
            Format::SpaceDelimitedRecord => match write_record(value, " ") {
                Some(s) => Ok(s),
                None => Err(text::owned("expected a record of scalars")),
            },
            Format::EqualDelimitedRecord => match write_record(value, "=") {
                Some(s) => Ok(s),
                None => Err(text::owned("expected a record of scalars")),
            },
            Format::Plaintext => match value {
                Json::Text(t) => Ok(text::owned(t)),
                _ => Err(text::owned("expected a string")),
            },
        }
    }
}

proof fn lemma_record_well_formed(lines: Seq<Seq<char>>, sep: char, n: nat)
    requires
        n <= lines.len(),
    ensures
        json::well_formed(JsonModel::Object(record_of(lines, sep, n))),
    decreases n,
{
    if n > 0 {
        lemma_record_well_formed(lines, sep, (n - 1) as nat);
        let parts = line_parts(lines[n - 1], sep);
        json::lemma_put_well_formed(
            record_of(lines, sep, (n - 1) as nat),
            parts.0,
            JsonModel::Text(parts.1),
        );
    }
}

proof fn lemma_pairs_well_formed(lines: Seq<Seq<char>>, sep: char, n: nat)
    requires
        n <= lines.len(),
    ensures
        json::well_formed(JsonModel::Array(pairs_of(lines, sep, n))),
    decreases n,
{
    if n > 0 {
        lemma_pairs_well_formed(lines, sep, (n - 1) as nat);
        let before = pairs_of(lines, sep, (n - 1) as nat);
        let all = pairs_of(lines, sep, n);
        let parts = line_parts(lines[n - 1], sep);
        let pair = seq![JsonModel::Text(parts.0), JsonModel::Text(parts.1)];
        assert(json::well_formed(JsonModel::Array(pair))) by {
            assert forall|i: int| 0 <= i < pair.len() implies json::well_formed(
                #[trigger] pair[i],
            ) by {}
        }
        assert(JsonModel::Array(before)->Array_0 == before);
        assert forall|i: int| 0 <= i < all.len() implies json::well_formed(#[trigger] all[i]) by {
            if i < before.len() {
                assert(json::well_formed(before[i]));
            }
        }
    }
}

// ---------------------------------------------------------------------------
// Laws of the formats
// ---------------------------------------------------------------------------

/// A text on one line with no white space at its ends.
pub open spec fn tight(t: Seq<char>) -> bool {
    &&& t.len() > 0
    &&& !text::white_space(t[0])
    &&& !text::white_space(t.last())
    &&& !t.contains('\n')
}

/// A key and a value that a line with a separator can hold: the key is tight and
/// free of the separator, and the value is tight or empty.
pub open spec fn fits_line(key: Seq<char>, value: Seq<char>, sep: char) -> bool {
    &&& tight(key)
    &&& !key.contains(sep)
    &&& value.len() == 0 || tight(value)
}

proof fn lemma_trimmed_tight(t: Seq<char>)
    requires
        t.len() == 0 || tight(t),
    ensures
        text::trimmed(t) == t,
{
    text::lemma_leading_space(t, 0);
    assert(t.skip(0) =~= t);
    text::lemma_trailing_space(t, 0);
    assert(t.take(t.len() as int) =~= t);
}

proof fn lemma_line(key: Seq<char>, value: Seq<char>, sep: char)
    requires
        fits_line(key, value, sep),
        sep == ' ' || sep == '=',
    ensures
        ({
            let line = key + seq![sep] + value;
            &&& line_parts(line, sep) == (key, value)
            &&& text::trimmed(line).len() > 0
            &&& forall|i: int| 0 <= i < line.len() ==> line[i] != '\n'
            &&& line.last() != '\r'
        }),
{
    let line = key + seq![sep] + value;
    assert forall|i: int| 0 <= i < line.len() implies line[i] != '\n' by {
        if i < key.len() {
            assert(line[i] == key[i]);
        } else if i > key.len() {
            assert(line[i] == value[i - key.len() - 1]);
        }
    }
    text::lemma_leading_space(line, 0);
    assert(line.skip(0) =~= line);
    if value.len() == 0 && sep == ' ' {
        assert(text::white_space(' '));
        assert(line[line.len() - 2] == key.last());
        text::lemma_trailing_space(line, 1);
        assert(text::trimmed(line) =~= key);
    } else {
        assert(!text::white_space('='));
        assert(value.len() > 0 ==> line.last() == value.last());
        text::lemma_trailing_space(line, 0);
        assert(text::trimmed(line) =~= line);
    }
    let body = text::trimmed(line);
    assert forall|i: int| 0 <= i < key.len() implies body[i] != sep by {
        assert(body[i] == key[i]);
        assert(key.contains(key[i]));
    }
    text::lemma_first_of(body, sep, key.len() as int);
    assert(body.take(key.len() as int) =~= key);
    lemma_trimmed_tight(key);
    lemma_trimmed_tight(value);
    if body.len() > key.len() {
        assert(body.skip(key.len() as int + 1) =~= value);
    } else {
        assert(value =~= Seq::<char>::empty());
    }
}

/// The key and the value of an entry whose value is text.
pub open spec fn text_entry(e: (Seq<char>, JsonModel)) -> (Seq<char>, Seq<char>) {
    (
        e.0,
        match e.1 {
            JsonModel::Text(v) => v,
            _ => seq![],
        },
    )
}

/// Every entry is text that a line can hold.
pub open spec fn entries_fit(entries: json::EntriesModel, sep: char) -> bool {
    forall|i: int|
        0 <= i < entries.len() ==> (#[trigger] entries[i]).1 is Text && fits_line(
            entries[i].0,
            text_entry(entries[i]).1,
            sep,
        )
}

/// The line of an entry.
pub open spec fn entry_line(e: (Seq<char>, JsonModel), sep: char) -> Seq<char> {
    e.0 + seq![sep] + text_entry(e).1
}

proof fn lemma_record_lines(entries: json::EntriesModel, sep: char, n: nat)
    requires
        n <= entries.len(),
        entries_fit(entries, sep),
        sep == ' ' || sep == '=',
    ensures
        ({
            let t = record_text(entries, seq![sep], n);
            &&& t is Some
            &&& t->0.len() == 0 || t->0.last() == '\n'
            &&& text::lines(t->0) == Seq::new(n, |i: int| entry_line(entries[i], sep))
        }),
    decreases n,
{
    reveal_strlit("\n");
    assert("\n"@ =~= seq!['\n']);
    if n == 0 {
        assert(text::lines(Seq::<char>::empty()) =~= Seq::new(
            0,
            |i: int| entry_line(entries[i], sep),
        ));
    } else {
        let m = (n - 1) as nat;
        lemma_record_lines(entries, sep, m);
        let before = record_text(entries, seq![sep], m)->0;
        let e = entries[n - 1];
        let line = entry_line(e, sep);
        lemma_line(e.0, text_entry(e).1, sep);
        text::lemma_lines_append(before, line);
        assert(record_text(entries, seq![sep], n)->0 =~= before + line + seq!['\n']);
        assert(text::lines(before).push(line) =~= Seq::new(
            n,
            |i: int| entry_line(entries[i], sep),
        ));
    }
}

proof fn lemma_record_entries(
    entries: json::EntriesModel,
    sep: char,
    lines: Seq<Seq<char>>,
    n: nat,
)
    requires
        n <= entries.len(),
        n <= lines.len(),
        entries_fit(entries, sep),
        pairs::distinct_keys(entries),
        sep == ' ' || sep == '=',
        forall|i: int| 0 <= i < lines.len() ==> #[trigger] lines[i] == entry_line(entries[i], sep),
    ensures
        record_of(lines, sep, n) == entries.take(n as int),
    decreases n,
{
    if n == 0 {
        assert(entries.take(0) =~= seq![]);
    } else {
        let m = (n - 1) as nat;
        lemma_record_entries(entries, sep, lines, m);
        let e = entries[n - 1];
        assert(lines[n - 1] == entry_line(e, sep));
        lemma_line(e.0, text_entry(e).1, sep);
        let before = entries.take(m as int);
        let at = pairs::lemma_lookup(before, e.0);
        assert(pairs::lookup(before, e.0) is None) by {
            if pairs::lookup(before, e.0) is Some {
                assert(before[at] == entries[at]);
                assert(entries[at].0 == e.0);
            }
        }
        pairs::lemma_put_new(before, e.0, e.1);
        assert(before.push(e) =~= entries.take(n as int));
    }
}

/// A record of texts that lines can hold is read back as it was written, in
/// either of the formats with a separator.
pub proof fn law_record_read_back(format: Format, entries: json::EntriesModel)
    requires
        format == Format::SpaceDelimitedRecord || format == Format::EqualDelimitedRecord,
        pairs::distinct_keys(entries),
        entries_fit(
            entries,
            if format == Format::SpaceDelimitedRecord {
                ' '
            } else {
                '='
            },
        ),
    ensures
        rendered(format, JsonModel::Object(entries)) is Ok,
        parsed(format, rendered(format, JsonModel::Object(entries))->Ok_0) == Some(
            JsonModel::Object(entries),
        ),
{
    reveal_strlit(" ");
    reveal_strlit("=");
    assert(" "@ =~= seq![' ']);
    assert("="@ =~= seq!['=']);
    let sep = if format == Format::SpaceDelimitedRecord {
        ' '
    } else {
        '='
    };
    lemma_record_lines(entries, sep, entries.len());
    let t = record_text(entries, seq![sep], entries.len())->0;
    lemma_record_entries(entries, sep, text::lines(t), entries.len());
    assert(entries.take(entries.len() as int) =~= entries);
}

/// The pair of a key and a value.
pub open spec fn pair_of(e: (Seq<char>, JsonModel)) -> JsonModel {
    JsonModel::Array(seq![JsonModel::Text(e.0), e.1])
}

proof fn lemma_pairs_text(entries: json::EntriesModel, sep: Seq<char>, n: nat)
    requires
        n <= entries.len(),
        forall|i: int| 0 <= i < entries.len() ==> (#[trigger] entries[i]).1 is Text,
    ensures
        pairs_text(entries.map_values(|e: (Seq<char>, JsonModel)| pair_of(e)), sep, n)
            == record_text(entries, sep, n),
    decreases n,
{
    let items = entries.map_values(|e: (Seq<char>, JsonModel)| pair_of(e));
    if n > 0 {
        lemma_pairs_text(entries, sep, (n - 1) as nat);
        let e = entries[n - 1];
        assert(items[n - 1] == pair_of(e));
        assert(pair_of(e)->Array_0 == seq![JsonModel::Text(e.0), e.1]);
        let line = e.0 + sep + e.1->Text_0 + "\n"@;
        assert(pair_text(items[n - 1], sep) == Some(line));
        if let Some(before) = record_text(entries, sep, (n - 1) as nat) {
            assert(before + line =~= before + e.0 + sep + e.1->Text_0 + "\n"@);
        }
    }
}

proof fn lemma_pairs_entries(
    entries: json::EntriesModel,
    sep: char,
    lines: Seq<Seq<char>>,
    n: nat,
)
    requires
        n <= entries.len(),
        n <= lines.len(),
        entries_fit(entries, sep),
        sep == ' ' || sep == '=',
        forall|i: int| 0 <= i < lines.len() ==> #[trigger] lines[i] == entry_line(entries[i], sep),
    ensures
        pairs_of(lines, sep, n) == entries.take(n as int).map_values(
            |e: (Seq<char>, JsonModel)| pair_of(e),
        ),
    decreases n,
{
    let shown = entries.take(n as int).map_values(|e: (Seq<char>, JsonModel)| pair_of(e));
    if n == 0 {
        assert(shown =~= seq![]);
    } else {
        lemma_pairs_entries(entries, sep, lines, (n - 1) as nat);
        let e = entries[n - 1];
        assert(lines[n - 1] == entry_line(e, sep));
        lemma_line(e.0, text_entry(e).1, sep);
        assert(shown =~= entries.take(n - 1).map_values(
            |e: (Seq<char>, JsonModel)| pair_of(e),
        ).push(pair_of(e)));
    }
}

/// Pairs of texts that lines can hold are read back as they were written.
pub proof fn law_pairs_read_back(entries: json::EntriesModel)
    requires
        entries_fit(entries, ' '),
    ensures
        ({
            let value = JsonModel::Array(
                entries.map_values(|e: (Seq<char>, JsonModel)| pair_of(e)),
            );
            let format = Format::SpaceDelimitedPairs;
            &&& rendered(format, value) is Ok
            &&& parsed(format, rendered(format, value)->Ok_0) == Some(value)
        }),
{
    reveal_strlit(" ");
    assert(" "@ =~= seq![' ']);
    lemma_pairs_text(entries, seq![' '], entries.len());
    lemma_record_lines(entries, ' ', entries.len());
    let t = record_text(entries, seq![' '], entries.len())->0;
    lemma_pairs_entries(entries, ' ', text::lines(t), entries.len());
    assert(entries.take(entries.len() as int) =~= entries);
}

/// Nothing outside quotation marks begins a comment.
pub open spec fn free_of_comments(s: Seq<char>, quoted: bool) -> bool
    decreases s.len(),
{
    if s.len() == 0 {
        true
    } else if quoted {
        if s[0] == '\\' && s.len() >= 2 {
            free_of_comments(s.skip(2), true)
        } else {
            free_of_comments(s.skip(1), s[0] != '"')
        }
    } else {
        &&& !(s.len() >= 2 && s[0] == '/' && (s[1] == '/' || s[1] == '*'))
        &&& free_of_comments(s.skip(1), s[0] == '"')
    }
}

/// No comma outside quotation marks stands before a closing bracket.
pub open spec fn free_of_trailing_commas(s: Seq<char>, quoted: bool) -> bool
    decreases s.len(),
{
    if s.len() == 0 {
        true
    } else if quoted {
        if s[0] == '\\' && s.len() >= 2 {
            free_of_trailing_commas(s.skip(2), true)
        } else {
            free_of_trailing_commas(s.skip(1), s[0] != '"')
        }
    } else {
        &&& !(s[0] == ',' && closes_next(s.skip(1)))
        &&& free_of_trailing_commas(s.skip(1), s[0] == '"')
    }
}

proof fn lemma_no_comments(s: Seq<char>, quoted: bool)
    requires
        free_of_comments(s, quoted),
    ensures
        without_comments(s, quoted) == s,
    decreases s.len(),
{
    if s.len() == 0 {
        assert(without_comments(s, quoted) =~= s);
    } else if quoted && s[0] == '\\' && s.len() >= 2 {
        lemma_no_comments(s.skip(2), true);
        assert(seq![s[0], s[1]] + s.skip(2) =~= s);
    } else {
        lemma_no_comments(
            s.skip(1),
            if quoted {
                s[0] != '"'
            } else {
                s[0] == '"'
            },
        );
        assert(seq![s[0]] + s.skip(1) =~= s);
    }
}

proof fn lemma_no_trailing_commas(s: Seq<char>, quoted: bool)
    requires
        free_of_trailing_commas(s, quoted),
    ensures
        without_trailing_commas(s, quoted) == s,
    decreases s.len(),
{
    if s.len() == 0 {
        assert(without_trailing_commas(s, quoted) =~= s);
    } else if quoted && s[0] == '\\' && s.len() >= 2 {
        lemma_no_trailing_commas(s.skip(2), true);
        assert(seq![s[0], s[1]] + s.skip(2) =~= s);
    } else {
        lemma_no_trailing_commas(
            s.skip(1),
            if quoted {
                s[0] != '"'
            } else {
                s[0] == '"'
            },
        );
        assert(seq![s[0]] + s.skip(1) =~= s);
    }
}

/// JSON without comments and trailing commas is the same in both JSON formats.
pub proof fn law_plain_json(s: Seq<char>)
    requires
        free_of_comments(s, false),
        free_of_trailing_commas(s, false),
    ensures
        plain_json(s) == s,
        parsed(Format::Jsonc, s) == parsed(Format::Json, s),
{
    lemma_no_comments(s, false);
    lemma_no_trailing_commas(s, false);
}

// ---------------------------------------------------------------------------
// Laws of names
// ---------------------------------------------------------------------------

/// A character does not occur in a text.
pub open spec fn lacks(s: Seq<char>, c: char) -> bool {
    forall|i: int| 0 <= i < s.len() ==> s[i] != c
}

/// The extension of a file is what follows the last dot of its name, whatever the
/// directory and whatever stands before the dot. A name without a dot and one with
/// its only dot in front have none.
pub proof fn law_extension(dir: Seq<char>, stem: Seq<char>, ext: Seq<char>)
    requires
        dir.len() == 0 || dir.last() == '/',
        lacks(stem, '/'),
        lacks(ext, '/'),
        lacks(ext, '.'),
    ensures
        stem.len() > 0 ==> extension(dir + stem + seq!['.'] + ext) == ext,
        extension(dir + seq!['.'] + ext) == Seq::<char>::empty(),
        extension(dir + ext) == Seq::<char>::empty(),
{
    let full = dir + stem + seq!['.'] + ext;
    let base = stem + seq!['.'] + ext;
    text::lemma_after_last(full, '/', dir.len() as int);
    assert(full.skip(dir.len() as int) =~= base);
    text::lemma_after_last(base, '.', stem.len() as int + 1);
    assert(base.skip(stem.len() as int + 1) =~= ext);
    let hidden = dir + seq!['.'] + ext;
    let name = seq!['.'] + ext;
    text::lemma_after_last(hidden, '/', dir.len() as int);
    assert(hidden.skip(dir.len() as int) =~= name);
    text::lemma_after_last(name, '.', 1);
    assert(name.skip(1) =~= ext);
    let plain = dir + ext;
    text::lemma_after_last(plain, '/', dir.len() as int);
    assert(plain.skip(dir.len() as int) =~= ext);
    text::lemma_after_last(ext, '.', 0);
    assert(ext.skip(0) =~= ext);
}

proof fn lemma_names_apart()
    ensures
        "toml"@ != "json"@ && "toml"@ != "jsonc"@ && "toml"@ != "yaml"@ && "toml"@ != "yml"@,
        "json"@ != "jsonc"@ && "json"@ != "yaml"@ && "json"@ != "yml"@,
        "jsonc"@ != "yaml"@ && "jsonc"@ != "yml"@,
        "plaintext"@ != "toml"@ && "plaintext"@ != "json"@ && "plaintext"@ != "jsonc"@,
        "plaintext"@ != "yaml"@,
        "space_delimited_pairs"@ != "space_delimited_record"@,
        "space_delimited_pairs"@ != "equal_delimited_record"@,
        "space_delimited_record"@ != "equal_delimited_record"@,
        "toml"@.len() == 4 && "json"@.len() == 4 && "jsonc"@.len() == 5 && "yaml"@.len() == 4,
        "space_delimited_pairs"@.len() == 21 && "space_delimited_record"@.len() == 22,
        "equal_delimited_record"@.len() == 22 && "plaintext"@.len() == 9,
{
    reveal_strlit("toml");
    reveal_strlit("json");
    reveal_strlit("jsonc");
    reveal_strlit("yaml");
    reveal_strlit("yml");
    reveal_strlit("plaintext");
    reveal_strlit("space_delimited_pairs");
    reveal_strlit("space_delimited_record");
    reveal_strlit("equal_delimited_record");
    assert("toml"@.len() == 4 && "json"@.len() == 4 && "jsonc"@.len() == 5 && "yaml"@.len() == 4);
    assert("plaintext"@.len() == 9 && "space_delimited_pairs"@.len() == 21);
    assert("toml"@[0] == 't' && "json"@[0] == 'j' && "yaml"@[0] == 'y' && "yml"@.len() == 3);
    assert("space_delimited_record"@[0] == 's' && "equal_delimited_record"@[0] == 'e');
}

/// An extension stands for a format exactly where it is one of that format, and
/// for plain text where it is none of them; an order names each format by its own
/// name.
pub proof fn law_format(name: Seq<char>)
    ensures
        format_of(name) == Format::Toml <==> name == "toml"@,
        format_of(name) == Format::Json <==> name == "json"@,
        format_of(name) == Format::Jsonc <==> name == "jsonc"@,
        format_of(name) == Format::Yaml <==> name == "yaml"@ || name == "yml"@,
        named_format(name) == Some(Format::Toml) <==> name == "toml"@,
        named_format(name) == Some(Format::Json) <==> name == "json"@,
        named_format(name) == Some(Format::Jsonc) <==> name == "jsonc"@,
        named_format(name) == Some(Format::Yaml) <==> name == "yaml"@,
        named_format(name) == Some(Format::SpaceDelimitedPairs) <==> name
            == "space_delimited_pairs"@,
        named_format(name) == Some(Format::SpaceDelimitedRecord) <==> name
            == "space_delimited_record"@,
        named_format(name) == Some(Format::EqualDelimitedRecord) <==> name
            == "equal_delimited_record"@,
        named_format(name) == Some(Format::Plaintext) <==> name == "plaintext"@,
{
    lemma_names_apart();
}

// ---------------------------------------------------------------------------
// Laws of JSON with comments
// ---------------------------------------------------------------------------

/// A text between quotation marks: no mark stands in it but behind a backslash,
/// and every backslash has a character behind it.
pub open spec fn string_body(s: Seq<char>) -> bool
    decreases s.len(),
{
    if s.len() == 0 {
        true
    } else if s[0] == '\\' {
        s.len() >= 2 && string_body(s.skip(2))
    } else {
        s[0] != '"' && string_body(s.skip(1))
    }
}

proof fn lemma_body_kept(s: Seq<char>, tail: Seq<char>)
    requires
        string_body(s),
    ensures
        without_comments(s + seq!['"'] + tail, true) == s + seq!['"'] + without_comments(
            tail,
            false,
        ),
        without_trailing_commas(s + seq!['"'] + tail, true) == s + seq!['"']
            + without_trailing_commas(tail, false),
    decreases s.len(),
{
    let t = s + seq!['"'] + tail;
    if s.len() == 0 {
        assert(t.skip(1) =~= tail);
        assert(t[0] == '"');
        assert(without_comments(t, true) =~= s + seq!['"'] + without_comments(tail, false));
        assert(without_trailing_commas(t, true) =~= s + seq!['"'] + without_trailing_commas(
            tail,
            false,
        ));
    } else {
        let n = if s[0] == '\\' {
            2int
        } else {
            1
        };
        let rest = s.skip(n);
        lemma_body_kept(rest, tail);
        assert(t.skip(n) =~= rest + seq!['"'] + tail);
        assert(t[0] == s[0]);
        if n == 2 {
            assert(t[1] == s[1]);
        }
        assert(without_comments(t, true) =~= s + seq!['"'] + without_comments(tail, false));
        assert(without_trailing_commas(t, true) =~= s + seq!['"'] + without_trailing_commas(
            tail,
            false,
        ));
    }
}

/// What stands between quotation marks stays, whatever looks like a comment or a
/// comma too many in it.
pub proof fn law_string_kept(s: Seq<char>, tail: Seq<char>)
    requires
        string_body(s),
    ensures
        without_comments(seq!['"'] + s + seq!['"'] + tail, false) == seq!['"'] + s + seq!['"']
            + without_comments(tail, false),
        without_trailing_commas(seq!['"'] + s + seq!['"'] + tail, false) == seq!['"'] + s + seq![
            '"',
        ] + without_trailing_commas(tail, false),
{
    let t = seq!['"'] + s + seq!['"'] + tail;
    lemma_body_kept(s, tail);
    assert(t.skip(1) =~= s + seq!['"'] + tail);
    assert(t[0] == '"');
    assert(without_comments(t, false) =~= seq!['"'] + s + seq!['"'] + without_comments(
        tail,
        false,
    ));
    assert(without_trailing_commas(t, false) =~= seq!['"'] + s + seq!['"']
        + without_trailing_commas(tail, false));
}

/// Text without quotation marks and slashes stays before whatever follows it.
pub proof fn law_plain_kept(s: Seq<char>, tail: Seq<char>)
    requires
        lacks(s, '"'),
        lacks(s, '/'),
    ensures
        without_comments(s + tail, false) == s + without_comments(tail, false),
    decreases s.len(),
{
    let t = s + tail;
    if s.len() == 0 {
        assert(t =~= tail);
        assert(s + without_comments(tail, false) =~= without_comments(tail, false));
    } else {
        let rest = s.skip(1);
        law_plain_kept(rest, tail);
        assert(t.skip(1) =~= rest + tail);
        assert(t[0] == s[0]);
        assert(without_comments(t, false) =~= s + without_comments(tail, false));
    }
}

/// A line comment is left out up to the end of its line, and the line break stays.
pub proof fn law_line_comment(comment: Seq<char>, tail: Seq<char>)
    requires
        lacks(comment, '\n'),
    ensures
        without_comments(seq!['/', '/'] + comment + seq!['\n'] + tail, false) == seq!['\n']
            + without_comments(tail, false),
        without_comments(seq!['/', '/'] + comment, false) == Seq::<char>::empty(),
{
    let t = seq!['/', '/'] + comment + seq!['\n'] + tail;
    let rest = t.skip(2);
    assert(rest =~= comment + seq!['\n'] + tail);
    text::lemma_first_of(rest, '\n', comment.len() as int);
    let after = rest.skip(comment.len() as int);
    assert(after =~= seq!['\n'] + tail);
    assert(after.skip(1) =~= tail);
    assert(without_comments(after, false) == seq!['\n'] + without_comments(tail, false));
    let last = seq!['/', '/'] + comment;
    assert(last.skip(2) =~= comment);
    text::lemma_first_of(comment, '\n', comment.len() as int);
    let none = Seq::<char>::empty();
    assert(comment.skip(comment.len() as int) =~= none);
    assert(without_comments(none, false) =~= none);
}

/// A block comment is not closed before a position.
pub open spec fn open_before(s: Seq<char>, n: int) -> bool {
    forall|i: int| 0 <= i < n ==> !#[trigger] closes_block(s, i)
}

/// A block comment is left out up to where it is closed, whatever it spans.
pub proof fn law_block_comment(comment: Seq<char>, tail: Seq<char>)
    requires
        open_before(comment + seq!['*', '/'] + tail, comment.len() as int),
    ensures
        without_comments(seq!['/', '*'] + comment + seq!['*', '/'] + tail, false)
            == without_comments(tail, false),
{
    let t = seq!['/', '*'] + comment + seq!['*', '/'] + tail;
    let rest = t.skip(2);
    assert(rest =~= comment + seq!['*', '/'] + tail);
    let n = comment.len() as int;
    assert(closes_block(rest, n));
    lemma_block_end(rest, n);
    assert(rest.skip(n + 2) =~= tail);
}

proof fn lemma_space_kept(s: Seq<char>, tail: Seq<char>)
    requires
        text::all_space(s),
    ensures
        without_trailing_commas(s + tail, false) == s + without_trailing_commas(tail, false),
    decreases s.len(),
{
    let t = s + tail;
    if s.len() == 0 {
        assert(t =~= tail);
        assert(s + without_trailing_commas(tail, false) =~= without_trailing_commas(tail, false));
    } else {
        let rest = s.skip(1);
        assert forall|i: int| 0 <= i < rest.len() implies text::white_space(#[trigger] rest[i]) by {
            assert(rest[i] == s[i + 1]);
        }
        lemma_space_kept(rest, tail);
        assert(text::white_space(s[0]));
        assert(t.skip(1) =~= rest + tail);
        assert(t[0] == s[0] && s[0] != ',' && s[0] != '"');
        assert(without_trailing_commas(t, false) =~= s + without_trailing_commas(tail, false));
    }
}

/// A comma is left out exactly where a closing bracket follows it, with nothing
/// but white space between them.
pub proof fn law_comma(space: Seq<char>, next: char, tail: Seq<char>)
    requires
        text::all_space(space),
        !text::white_space(next),
    ensures
        without_trailing_commas(seq![','] + space + seq![next] + tail, false) == (if next == '}'
            || next == ']' {
            Seq::empty()
        } else {
            seq![',']
        }) + space + without_trailing_commas(seq![next] + tail, false),
{
    let t = seq![','] + space + seq![next] + tail;
    let rest = t.skip(1);
    assert(rest =~= space + (seq![next] + tail));
    let n = space.len() as int;
    assert forall|i: int| 0 <= i < n implies text::white_space(rest[i]) by {
        assert(rest[i] == space[i]);
    }
    assert(rest[n] == next);
    text::lemma_leading_space(rest, n);
    lemma_space_kept(space, seq![next] + tail);
    assert(t[0] == ',');
    assert(without_trailing_commas(t, false) =~= (if next == '}' || next == ']' {
        Seq::empty()
    } else {
        seq![',']
    }) + space + without_trailing_commas(seq![next] + tail, false));
}

// ---------------------------------------------------------------------------
// Laws of delimited lines
// ---------------------------------------------------------------------------

/// A record of texts is written one entry to a line, in its order: key, separator
/// and value.
pub proof fn law_record_lines(entries: json::EntriesModel)
    ensures
        entries_fit(entries, ' ') ==> text::lines(
            rendered(Format::SpaceDelimitedRecord, JsonModel::Object(entries))->Ok_0,
        ) == Seq::new(entries.len(), |i: int| entry_line(entries[i], ' ')),
        entries_fit(entries, '=') ==> text::lines(
            rendered(Format::EqualDelimitedRecord, JsonModel::Object(entries))->Ok_0,
        ) == Seq::new(entries.len(), |i: int| entry_line(entries[i], '=')),
{
    reveal_strlit(" ");
    reveal_strlit("=");
    assert(" "@ =~= seq![' ']);
    assert("="@ =~= seq!['=']);
    if entries_fit(entries, ' ') {
        lemma_record_lines(entries, ' ', entries.len());
    }
    if entries_fit(entries, '=') {
        lemma_record_lines(entries, '=', entries.len());
    }
}

/// No value of entries is a list or an object.
pub open spec fn flat(entries: json::EntriesModel) -> bool {
    forall|i: int|
        0 <= i < entries.len() ==> !((#[trigger] entries[i]).1 is Array) && !(
        entries[i].1 is Object)
}

proof fn lemma_flat(entries: json::EntriesModel, sep: Seq<char>, n: nat)
    requires
        n <= entries.len(),
    ensures
        record_text(entries, sep, n) is Some <==> flat(entries.take(n as int)),
    decreases n,
{
    let now = entries.take(n as int);
    if n > 0 {
        lemma_flat(entries, sep, (n - 1) as nat);
        let before = entries.take(n - 1);
        assert(now[n - 1] == entries[n - 1]);
        if flat(now) {
            assert forall|i: int| 0 <= i < before.len() implies !((
            #[trigger] before[i]).1 is Array) && !(before[i].1 is Object) by {
                assert(before[i] == now[i]);
            }
        }
        if flat(before) && line_text(entries[n - 1].1) is Some {
            assert forall|i: int| 0 <= i < now.len() implies !((
            #[trigger] now[i]).1 is Array) && !(now[i].1 is Object) by {
                if i < n - 1 {
                    assert(now[i] == before[i]);
                }
            }
        }
    }
}

/// A format of lines takes a record exactly where none of its values is a list or
/// a record, and nothing but a record; plain text takes a text and gives it back.
pub proof fn law_record_taken(v: JsonModel, entries: json::EntriesModel, t: Seq<char>)
    ensures
        rendered(Format::SpaceDelimitedRecord, JsonModel::Object(entries)) is Ok <==> flat(entries),
        rendered(Format::EqualDelimitedRecord, JsonModel::Object(entries)) is Ok <==> flat(entries),
        !(v is Object) ==> rendered(Format::SpaceDelimitedRecord, v) is Err && rendered(
            Format::EqualDelimitedRecord,
            v,
        ) is Err,
        !(v is Array) ==> rendered(Format::SpaceDelimitedPairs, v) is Err,
        rendered(Format::Plaintext, v) is Ok <==> v is Text,
        parsed(Format::Plaintext, t) == Some(JsonModel::Text(t)),
        rendered(Format::Plaintext, JsonModel::Text(t)) == Ok::<Seq<char>, Seq<char>>(t),
{
    lemma_flat(entries, " "@, entries.len());
    lemma_flat(entries, "="@, entries.len());
    assert(entries.take(entries.len() as int) =~= entries);
}

/// White space around a key and around a value does not count.
pub proof fn law_spaced_line(
    head: Seq<char>,
    key: Seq<char>,
    before: Seq<char>,
    after: Seq<char>,
    value: Seq<char>,
    tail: Seq<char>,
)
    requires
        text::all_space(head),
        text::all_space(before),
        text::all_space(after),
        text::all_space(tail),
        tight(key),
        !key.contains('='),
        tight(value),
    ensures
        line_parts(head + key + before + seq!['='] + after + value + tail, '=') == (key, value),
{
    let line = head + key + before + seq!['='] + after + value + tail;
    let body = key + before + seq!['='] + after + value;
    assert(body[0] == key[0]);
    assert(body.last() == value.last());
    let n = (key + before).len() as int;
    lemma_trimmed_core(head, body, tail);
    assert(line =~= head + body + tail);
    assert forall|i: int| 0 <= i < n implies body[i] != '=' by {
        if i < key.len() {
            assert(body[i] == key[i]);
            assert(key.contains(key[i]));
        } else {
            assert(body[i] == before[i - key.len()]);
            assert(text::white_space(before[i - key.len()]));
        }
    }
    assert(body[n] == '=');
    text::lemma_first_of(body, '=', n);
    let none = Seq::<char>::empty();
    assert(body.take(n) =~= none + key + before);
    lemma_trimmed_core(none, key, before);
    assert(body.skip(n + 1) =~= after + value + none);
    lemma_trimmed_core(after, value, none);
}

proof fn lemma_trimmed_core(head: Seq<char>, t: Seq<char>, tail: Seq<char>)
    requires
        text::all_space(head),
        t.len() > 0,
        !text::white_space(t[0]),
        !text::white_space(t.last()),
        text::all_space(tail),
    ensures
        text::trimmed(head + t + tail) == t,
{
    let s = head + t + tail;
    let n = head.len() as int;
    assert forall|i: int| 0 <= i < n implies text::white_space(s[i]) by {
        assert(s[i] == head[i]);
    }
    assert(s[n] == t[0]);
    text::lemma_leading_space(s, n);
    let body = s.skip(n);
    assert(body =~= t + tail);
    let m = tail.len() as int;
    assert forall|i: int| body.len() - m <= i < body.len() implies text::white_space(body[i]) by {
        assert(body[i] == tail[i - t.len()]);
    }
    assert(body[body.len() - m - 1] == t.last());
    text::lemma_trailing_space(body, m);
    assert(body.take(body.len() - m) =~= t);
}

} // verus!
