//! Strings as sequences of characters: the small verified operations that the
//! rest of the library builds its text with.
use vstd::arithmetic::div_mod::lemma_div_decreases;
use vstd::prelude::*;
use vstd::string::*;
use vstd::utf8::*;

verus! {

/// `String::push` appends one character to the end of the string.
pub assume_specification[ String::push ](s: &mut String, c: char)
    ensures
        final(s)@ == old(s)@.push(c),
;

/// The contents of a list of strings.
pub open spec fn texts(list: Seq<String>) -> Seq<Seq<char>> {
    list.map_values(|t: String| t@)
}

pub proof fn lemma_texts_push(list: Seq<String>, t: String)
    ensures
        texts(list.push(t)) == texts(list).push(t@),
{
    assert(texts(list.push(t)) =~= texts(list).push(t@));
}

/// `s` begins with `prefix`.
pub open spec fn begins(s: Seq<char>, prefix: Seq<char>) -> bool {
    prefix.len() <= s.len() && s.take(prefix.len() as int) == prefix
}

/// `s` ends with `tail`.
pub open spec fn ends(s: Seq<char>, tail: Seq<char>) -> bool {
    tail.len() <= s.len() && s.skip(s.len() - tail.len()) == tail
}

/// The parts in order, with `sep` between neighbours.
pub open spec fn joined(parts: Seq<Seq<char>>, sep: Seq<char>) -> Seq<char>
    decreases parts.len(),
{
    if parts.len() == 0 {
        seq![]
    } else if parts.len() == 1 {
        parts[0]
    } else {
        joined(parts.drop_last(), sep) + sep + parts.last()
    }
}

/// `unit` written `n` times.
pub open spec fn repeated(unit: Seq<char>, n: nat) -> Seq<char>
    decreases n,
{
    if n == 0 {
        seq![]
    } else {
        repeated(unit, (n - 1) as nat) + unit
    }
}

/// The character that stands for a digit below sixteen.
pub open spec fn digit_char(d: nat) -> char {
    if d < 10 {
        (('0' as nat) + d) as char
    } else {
        (('a' as nat) + (d - 10)) as char
    }
}

/// A number written in the given base, without leading zeros.
pub open spec fn digits(n: nat, base: nat) -> Seq<char>
    decreases n,
{
    if base < 2 || n < base {
        seq![digit_char(n)]
    } else {
        proof {
            lemma_div_decreases(n as int, base as int);
        }
        digits(n / base, base).push(digit_char(n % base))
    }
}

/// Every occurrence of `pattern`, taken from the left without overlap, is
/// replaced by `with`.
pub open spec fn replaced(s: Seq<char>, pattern: Seq<char>, with: Seq<char>) -> Seq<char>
    decreases s.len(),
{
    if s.len() == 0 || pattern.len() == 0 {
        s
    } else if begins(s, pattern) {
        with + replaced(s.skip(pattern.len() as int), pattern, with)
    } else {
        seq![s[0]] + replaced(s.skip(1), pattern, with)
    }
}

/// The characters with the Unicode property `White_Space`.
pub open spec fn white_space(c: char) -> bool {
    let n = c as u32;
    ||| 0x9 <= n <= 0xd
    ||| n == 0x20
    ||| n == 0x85
    ||| n == 0xa0
    ||| n == 0x1680
    ||| 0x2000 <= n <= 0x200a
    ||| n == 0x2028
    ||| n == 0x2029
    ||| n == 0x202f
    ||| n == 0x205f
    ||| n == 0x3000
}

/// How many characters at the start of `s` are white space.
pub open spec fn leading_space(s: Seq<char>) -> nat
    decreases s.len(),
{
    if s.len() == 0 || !white_space(s[0]) {
        0
    } else {
        1 + leading_space(s.skip(1))
    }
}

/// How many characters at the end of `s` are white space.
pub open spec fn trailing_space(s: Seq<char>) -> nat
    decreases s.len(),
{
    if s.len() == 0 || !white_space(s.last()) {
        0
    } else {
        1 + trailing_space(s.drop_last())
    }
}

/// `s` without the white space at its start and at its end.
pub open spec fn trimmed(s: Seq<char>) -> Seq<char> {
    let body = s.skip(leading_space(s) as int);
    body.take(body.len() - trailing_space(body))
}

/// A line without the carriage return that may end it.
pub open spec fn without_return(line: Seq<char>) -> Seq<char> {
    if line.len() > 0 && line.last() == '\r' {
        line.drop_last()
    } else {
        line
    }
}

/// Where the first line of `s` ends: at its first line break, or at its end.
pub open spec fn first_break(s: Seq<char>) -> nat
    decreases s.len(),
{
    if s.len() == 0 || s[0] == '\n' {
        0
    } else {
        1 + first_break(s.skip(1))
    }
}

pub proof fn lemma_first_break(s: Seq<char>)
    ensures
        first_break(s) <= s.len(),
        first_break(s) < s.len() ==> s[first_break(s) as int] == '\n',
        forall|i: int| 0 <= i < first_break(s) ==> s[i] != '\n',
    decreases s.len(),
{
    if s.len() == 0 || s[0] == '\n' {
    } else {
        lemma_first_break(s.skip(1));
        assert forall|i: int| 0 <= i < first_break(s) implies s[i] != '\n' by {
            if i > 0 {
                assert(s[i] == s.skip(1)[i - 1]);
            }
        }
    }
}

/// The lines of a text. A line ends with a line break, and a carriage return
/// before the break belongs to it; the last line may lack its break.
pub open spec fn lines(s: Seq<char>) -> Seq<Seq<char>>
    decreases s.len(),
{
    if s.len() == 0 {
        seq![]
    } else {
        let n = first_break(s) as int;
        if n < s.len() {
            seq![without_return(s.take(n))] + lines(s.skip(n + 1))
        } else {
            seq![s]
        }
    }
}

proof fn lemma_break_at(s: Seq<char>, n: int)
    requires
        0 <= n < s.len(),
        s[n] == '\n',
        forall|i: int| 0 <= i < n ==> s[i] != '\n',
    ensures
        first_break(s) == n,
    decreases n,
{
    if n > 0 {
        assert(s[0] != '\n');
        assert forall|i: int| 0 <= i < n - 1 implies s.skip(1)[i] != '\n' by {
            assert(s.skip(1)[i] == s[i + 1]);
        }
        lemma_break_at(s.skip(1), n - 1);
    }
}

/// A line that is appended to whole lines is one line more.
pub proof fn lemma_lines_append(s: Seq<char>, line: Seq<char>)
    requires
        s.len() == 0 || s.last() == '\n',
        forall|i: int| 0 <= i < line.len() ==> line[i] != '\n',
        line.len() > 0 && line.last() != '\r',
    ensures
        lines(s + line + seq!['\n']) == lines(s).push(line),
    decreases s.len(),
{
    let t = s + line + seq!['\n'];
    if s.len() == 0 {
        assert(t =~= line + seq!['\n']);
        lemma_break_at(t, line.len() as int);
        assert(t.take(line.len() as int) =~= line);
        assert(t.skip(line.len() as int + 1) =~= Seq::<char>::empty());
        assert(without_return(line) == line);
        assert(lines(Seq::<char>::empty()) =~= seq![]);
        assert(lines(t) =~= seq![line]);
        assert(lines(s).push(line) =~= seq![line]);
    } else {
        let n = first_break(s) as int;
        lemma_first_break(s);
        assert(n < s.len()) by {
            if n == s.len() {
                assert(s[s.len() - 1] != '\n');
            }
        }
        lemma_break_at(t, n);
        let rest = s.skip(n + 1);
        assert(t.take(n) =~= s.take(n));
        assert(t.skip(n + 1) =~= rest + line + seq!['\n']);
        assert(rest.len() > 0 ==> rest.last() == s.last());
        lemma_lines_append(rest, line);
        assert(lines(t) =~= lines(s).push(line));
    }
}

/// Where `c` first stands in `s`; the length of `s` where it does not.
pub open spec fn first_of(s: Seq<char>, c: char) -> nat
    decreases s.len(),
{
    if s.len() == 0 || s[0] == c {
        0
    } else {
        1 + first_of(s.skip(1), c)
    }
}

pub proof fn lemma_first_of_range(s: Seq<char>, c: char)
    ensures
        first_of(s, c) <= s.len(),
    decreases s.len(),
{
    if s.len() > 0 && s[0] != c {
        lemma_first_of_range(s.skip(1), c);
    }
}

pub proof fn lemma_first_of(s: Seq<char>, c: char, n: int)
    requires
        0 <= n <= s.len(),
        forall|i: int| 0 <= i < n ==> s[i] != c,
        n < s.len() ==> s[n] == c,
    ensures
        first_of(s, c) == n,
    decreases n,
{
    if n > 0 {
        assert(s[0] != c);
        assert forall|i: int| 0 <= i < n - 1 implies s.skip(1)[i] != c by {
            assert(s.skip(1)[i] == s[i + 1]);
        }
        lemma_first_of(s.skip(1), c, n - 1);
    }
}

/// The characters behind the last `c`; all of them where there is none.
pub open spec fn after_last(s: Seq<char>, c: char) -> Seq<char>
    decreases s.len(),
{
    if s.len() == 0 || s.last() == c {
        seq![]
    } else {
        after_last(s.drop_last(), c).push(s.last())
    }
}

pub proof fn lemma_after_last(s: Seq<char>, c: char, n: int)
    requires
        0 <= n <= s.len(),
        forall|i: int| n <= i < s.len() ==> s[i] != c,
        n > 0 ==> s[n - 1] == c,
    ensures
        after_last(s, c) == s.skip(n),
    decreases s.len(),
{
    if n < s.len() {
        lemma_after_last(s.drop_last(), c, n);
        assert(s.drop_last().skip(n).push(s.last()) =~= s.skip(n));
    } else {
        assert(s.skip(n) =~= seq![]);
    }
}

/// `s` followed by spaces up to `width` characters.
pub open spec fn padded(s: Seq<char>, width: nat) -> Seq<char> {
    s + Seq::new(
        if s.len() < width {
            (width - s.len()) as nat
        } else {
            0
        },
        |i: int| ' ',
    )
}

// ---------------------------------------------------------------------------
// UTF-8
// ---------------------------------------------------------------------------

/// The encoding of a text is the encodings of its parts, one after the other.
pub proof fn lemma_encode_concat(a: Seq<char>, b: Seq<char>)
    ensures
        encode_utf8(a + b) == encode_utf8(a) + encode_utf8(b),
    decreases a.len(),
{
    if a.len() == 0 {
        assert(a + b == b);
    } else {
        assert((a + b).drop_first() == a.drop_first() + b);
        lemma_encode_concat(a.drop_first(), b);
    }
}

/// Texts with the same encoding are equal.
pub proof fn lemma_encode_injective(a: Seq<char>, b: Seq<char>)
    requires
        encode_utf8(a) == encode_utf8(b),
    ensures
        a == b,
{
    encode_utf8_decode_utf8(a);
    encode_utf8_decode_utf8(b);
}

/// Between two valid encodings, one after the other, is a boundary of characters.
pub proof fn lemma_join_boundary(a: Seq<u8>, b: Seq<u8>)
    requires
        valid_utf8(a),
        valid_utf8(b),
    ensures
        valid_utf8(a + b),
        is_char_boundary(a + b, a.len() as int),
{
    valid_utf8_concat(a, b);
    if b.len() == 0 {
        assert(a + b =~= a);
        is_char_boundary_start_end_of_seq(a);
    } else {
        is_char_boundary_start_end_of_seq(b);
        is_char_boundary_iff_not_is_continuation_byte(b, 0);
        assert((a + b)[a.len() as int] == b[0]);
        is_char_boundary_iff_not_is_continuation_byte(a + b, a.len() as int);
    }
}

/// A boundary of characters stays one where bytes behind it are cut off at
/// another boundary.
pub proof fn lemma_take_boundary(bytes: Seq<u8>, at: int, end: int)
    requires
        valid_utf8(bytes),
        0 <= at <= end <= bytes.len(),
        is_char_boundary(bytes, at),
        is_char_boundary(bytes, end),
    ensures
        valid_utf8(bytes.take(end)),
        is_char_boundary(bytes.take(end), at),
{
    let head = bytes.take(end);
    assert(bytes.subrange(0, end) =~= head);
    valid_utf8_split(bytes, end);
    if at == end {
        is_char_boundary_start_end_of_seq(head);
    } else {
        is_char_boundary_iff_not_is_continuation_byte(bytes, at);
        assert(head[at] == bytes[at]);
        is_char_boundary_iff_not_is_continuation_byte(head, at);
    }
}

/// A boundary of characters stays one where a valid encoding is appended.
pub proof fn lemma_append_boundary(a: Seq<u8>, b: Seq<u8>, at: int)
    requires
        valid_utf8(a),
        valid_utf8(b),
        0 <= at <= a.len(),
        is_char_boundary(a, at),
    ensures
        valid_utf8(a + b),
        is_char_boundary(a + b, at),
{
    lemma_join_boundary(a, b);
    if at < a.len() {
        is_char_boundary_iff_not_is_continuation_byte(a, at);
        assert((a + b)[at] == a[at]);
        is_char_boundary_iff_not_is_continuation_byte(a + b, at);
    }
}

/// What stands between two boundaries of characters is a valid encoding.
pub proof fn lemma_between_valid(bytes: Seq<u8>, from: int, to: int)
    requires
        valid_utf8(bytes),
        0 <= from <= to <= bytes.len(),
        is_char_boundary(bytes, from),
        is_char_boundary(bytes, to),
    ensures
        valid_utf8(bytes.subrange(from, to)),
{
    lemma_take_boundary(bytes, from, to);
    let head = bytes.take(to);
    valid_utf8_split(head, from);
    assert(head.subrange(from, head.len() as int) =~= bytes.subrange(from, to));
}

// ---------------------------------------------------------------------------
// Operations
// ---------------------------------------------------------------------------

/// Whether two strings hold the same text.
pub fn str_eq(a: &str, b: &str) -> (r: bool)
    ensures
        r == (a@ == b@),
{
    let x = a.as_bytes();
    let y = b.as_bytes();
    if x.len() != y.len() {
        return false;
    }
    let mut i: usize = 0;
    while i < x.len()
        invariant
            x@.len() == y@.len(),
            x@ == encode_utf8(a@),
            y@ == encode_utf8(b@),
            i <= x@.len(),
            forall|k: int| 0 <= k < i ==> x@[k] == y@[k],
        decreases x@.len() - i,
    {
        if x[i] != y[i] {
            assert(a@ != b@);
            return false;
        }
        i = i + 1;
    }
    proof {
        assert(x@ == y@);
        lemma_encode_injective(a@, b@);
    }
    true
}

/// The characters of a string, in order.
pub fn chars_of(s: &str) -> (r: Vec<char>)
    ensures
        r@ == s@,
{
    let mut r: Vec<char> = Vec::new();
    for c in it: s.chars()
        invariant
            r@ == s@.take(it.index()),
            it.seq() == s@,
    {
        r.push(c);
    }
    assert(s@.take(s@.len() as int) == s@);
    r
}

/// The string made of the characters from `from` up to `to`.
pub fn string_of(chars: &Vec<char>, from: usize, to: usize) -> (r: String)
    requires
        from <= to <= chars@.len(),
    ensures
        r@ == chars@.subrange(from as int, to as int),
{
    let mut r = String::new();
    let mut i: usize = from;
    while i < to
        invariant
            from <= i <= to <= chars@.len(),
            r@ == chars@.subrange(from as int, i as int),
        decreases to - i,
    {
        r.push(chars[i]);
        i = i + 1;
        assert(chars@.subrange(from as int, i as int) == chars@.subrange(
            from as int,
            i - 1,
        ).push(chars@[i - 1]));
    }
    r
}

/// A copy of a string slice.
pub fn owned(s: &str) -> (r: String)
    ensures
        r@ == s@,
{
    let mut r = String::new();
    r.append(s);
    assert(r@ == s@);
    r
}

/// `a` followed by `b`.
pub fn concat2(a: &str, b: &str) -> (r: String)
    ensures
        r@ == a@ + b@,
{
    let mut r = owned(a);
    r.append(b);
    r
}

/// `a`, `b` and `c`, one after the other.
pub fn concat3(a: &str, b: &str, c: &str) -> (r: String)
    ensures
        r@ == a@ + b@ + c@,
{
    let mut r = concat2(a, b);
    r.append(c);
    r
}

/// Whether a list of strings holds a text.
pub fn has_text(list: &[String], s: &str) -> (r: bool)
    ensures
        r == texts(list@).contains(s@),
{
    let mut i: usize = 0;
    while i < list.len()
        invariant
            i <= list@.len(),
            forall|k: int| 0 <= k < i ==> texts(list@)[k] != s@,
        decreases list@.len() - i,
    {
        if str_eq(&list[i], s) {
            assert(texts(list@)[i as int] == s@);
            return true;
        }
        i = i + 1;
    }
    false
}

/// A copy of a list of strings.
pub fn copy_texts(list: &[String]) -> (r: Vec<String>)
    ensures
        texts(r@) == texts(list@),
{
    let mut r: Vec<String> = Vec::new();
    let mut i: usize = 0;
    while i < list.len()
        invariant
            i <= list@.len(),
            texts(r@) == texts(list@).take(i as int),
        decreases list@.len() - i,
    {
        let ghost before = r@;
        r.push(owned(&list[i]));
        i = i + 1;
        proof {
            lemma_texts_push(before, r@.last());
            assert(texts(r@) == texts(list@).take(i - 1).push(list@[i - 1]@));
        }
    }
    assert(texts(list@).take(i as int) == texts(list@));
    r
}

/// Whether `s` begins with `prefix`.
pub fn starts_with(s: &str, prefix: &str) -> (r: bool)
    ensures
        r == begins(s@, prefix@),
{
    let x = chars_of(s);
    let p = chars_of(prefix);
    assert(x@.skip(0) == x@);
    matches_at(&x, 0, &p)
}

/// Whether `pattern` stands in `chars` at position `at`.
pub fn matches_at(chars: &Vec<char>, at: usize, pattern: &Vec<char>) -> (r: bool)
    requires
        at <= chars@.len(),
    ensures
        r == begins(chars@.skip(at as int), pattern@),
{
    if pattern.len() > chars.len() - at {
        return false;
    }
    let mut i: usize = 0;
    while i < pattern.len()
        invariant
            at + pattern@.len() <= chars@.len() <= usize::MAX,
            i <= pattern@.len(),
            forall|k: int| 0 <= k < i ==> chars@[at + k] == pattern@[k],
        decreases pattern@.len() - i,
    {
        if chars[at + i] != pattern[i] {
            assert(chars@.skip(at as int).take(pattern@.len() as int)[i as int] != pattern@[
                i as int]);
            return false;
        }
        i = i + 1;
    }
    assert(chars@.skip(at as int).take(pattern@.len() as int) == pattern@);
    true
}

/// Joins the parts with `sep` between neighbours.
pub fn join(parts: &[String], sep: &str) -> (r: String)
    ensures
        r@ == joined(texts(parts@), sep@),
{
    let mut r = String::new();
    let mut i: usize = 0;
    assert(texts(parts@).take(0) =~= seq![]);
    while i < parts.len()
        invariant
            i <= parts@.len(),
            r@ == joined(texts(parts@).take(i as int), sep@),
        decreases parts@.len() - i,
    {
        if i > 0 {
            r.append(sep);
        }
        r.append(&parts[i]);
        i = i + 1;
        proof {
            let t = texts(parts@).take(i as int);
            assert(t.drop_last() == texts(parts@).take(i - 1));
            assert(t.last() == parts@[i - 1]@);
            if i == 1 {
                assert(r@ == t[0]);
            }
        }
    }
    assert(texts(parts@).take(i as int) == texts(parts@));
    r
}

/// `unit` written `n` times.
pub fn repeat(unit: &str, n: usize) -> (r: String)
    ensures
        r@ == repeated(unit@, n as nat),
{
    let mut r = String::new();
    let mut i: usize = 0;
    while i < n
        invariant
            i <= n,
            r@ == repeated(unit@, i as nat),
        decreases n - i,
    {
        r.append(unit);
        i = i + 1;
    }
    r
}

fn digit(d: u32) -> (r: char)
    requires
        d < 16,
    ensures
        r == digit_char(d as nat),
{
    let b: u8 = if d < 10 {
        48 + d as u8
    } else {
        87 + d as u8
    };
    b as char
}

fn push_digits(out: &mut String, n: u64, base: u32)
    requires
        2 <= base <= 16,
    ensures
        final(out)@ == old(out)@ + digits(n as nat, base as nat),
    decreases n,
{
    let wide: u64 = base as u64;
    if n < wide {
        out.push(digit(n as u32));
        assert(out@ == old(out)@ + digits(n as nat, base as nat));
    } else {
        proof {
            lemma_div_decreases(n as int, wide as int);
        }
        push_digits(out, n / wide, base);
        out.push(digit((n % wide) as u32));
        assert(out@ == old(out)@ + digits(n as nat, base as nat));
    }
}

/// A count written in decimal.
pub fn decimal(n: usize) -> (r: String)
    ensures
        r@ == digits(n as nat, 10),
{
    let mut r = String::new();
    push_digits(&mut r, n as u64, 10);
    assert(r@ == digits(n as nat, 10));
    r
}

/// A number written in lower-case hexadecimal.
pub fn hexadecimal(n: u32) -> (r: String)
    ensures
        r@ == digits(n as nat, 16),
{
    let mut r = String::new();
    push_digits(&mut r, n as u64, 16);
    assert(r@ == digits(n as nat, 16));
    r
}

/// Replaces every occurrence of `pattern` in `s` by `with`.
pub fn replace(s: &str, pattern: &str, with: &str) -> (r: String)
    requires
        pattern@.len() > 0,
    ensures
        r@ == replaced(s@, pattern@, with@),
{
    let x = chars_of(s);
    let p = chars_of(pattern);
    let mut r = String::new();
    let mut i: usize = 0;
    assert(x@.skip(0) == x@);
    while i < x.len()
        invariant
            x@ == s@,
            p@ == pattern@,
            p@.len() > 0,
            i <= x@.len(),
            replaced(s@, pattern@, with@) == r@ + replaced(x@.skip(i as int), pattern@, with@),
        decreases x@.len() - i,
    {
        let ghost rest = x@.skip(i as int);
        if matches_at(&x, i, &p) {
            r.append(with);
            i = i + p.len();
            assert(rest.skip(pattern@.len() as int) == x@.skip(i as int));
        } else {
            r.push(x[i]);
            i = i + 1;
            assert(rest.skip(1) == x@.skip(i as int));
        }
        assert(replaced(s@, pattern@, with@) == r@ + replaced(x@.skip(i as int), pattern@, with@));
    }
    r
}

/// A text in which a pattern does not occur stays as it is.
pub proof fn law_replaced_absent(s: Seq<char>, pattern: Seq<char>, with: Seq<char>)
    requires
        forall|i: int| 0 <= i <= s.len() ==> !begins(#[trigger] s.skip(i), pattern),
    ensures
        replaced(s, pattern, with) == s,
    decreases s.len(),
{
    if s.len() > 0 && pattern.len() > 0 {
        assert(s.skip(0) =~= s);
        let rest = s.skip(1);
        assert forall|i: int| 0 <= i <= rest.len() implies !begins(
            #[trigger] rest.skip(i),
            pattern,
        ) by {
            assert(rest.skip(i) =~= s.skip(i + 1));
        }
        law_replaced_absent(rest, pattern, with);
        assert(seq![s[0]] + rest =~= s);
    }
}

/// Whether a character is white space.
pub fn is_white_space(c: char) -> (r: bool)
    ensures
        r == white_space(c),
{
    let n: u32 = c as u32;
    (0x9 <= n && n <= 0xd) || n == 0x20 || n == 0x85 || n == 0xa0 || n == 0x1680 || (0x2000 <= n
        && n <= 0x200a) || n == 0x2028 || n == 0x2029 || n == 0x202f || n == 0x205f || n == 0x3000
}

pub proof fn lemma_leading_space(s: Seq<char>, n: int)
    requires
        0 <= n <= s.len(),
        forall|i: int| 0 <= i < n ==> white_space(s[i]),
        n < s.len() ==> !white_space(s[n]),
    ensures
        leading_space(s) == n,
    decreases n,
{
    if n > 0 {
        assert forall|i: int| 0 <= i < n - 1 implies white_space(s.skip(1)[i]) by {
            assert(s.skip(1)[i] == s[i + 1]);
        }
        lemma_leading_space(s.skip(1), n - 1);
    }
}

pub proof fn lemma_trailing_space(s: Seq<char>, n: int)
    requires
        0 <= n <= s.len(),
        forall|i: int| s.len() - n <= i < s.len() ==> white_space(s[i]),
        n < s.len() ==> !white_space(s[s.len() - n - 1]),
    ensures
        trailing_space(s) == n,
    decreases n,
{
    if n > 0 {
        lemma_trailing_space(s.drop_last(), n - 1);
    }
}

/// `s` without the white space at its start and at its end.
pub fn trim(s: &str) -> (r: String)
    ensures
        r@ == trimmed(s@),
{
    let x = chars_of(s);
    let mut from: usize = 0;
    while from < x.len() && is_white_space(x[from])
        invariant
            from <= x@.len(),
            forall|i: int| 0 <= i < from ==> white_space(x@[i]),
        decreases x@.len() - from,
    {
        from = from + 1;
    }
    proof {
        lemma_leading_space(x@, from as int);
    }
    let ghost body = x@.skip(from as int);
    let mut to: usize = x.len();
    while to > from && is_white_space(x[to - 1])
        invariant
            from <= to <= x@.len(),
            forall|i: int| to <= i < x@.len() ==> white_space(x@[i]),
        decreases to,
    {
        to = to - 1;
    }
    proof {
        lemma_trailing_space(body, x@.len() - to);
        assert(body.take(to - from) == x@.subrange(from as int, to as int));
    }
    string_of(&x, from, to)
}

/// The lines of a text.
pub fn lines_of(s: &str) -> (r: Vec<String>)
    ensures
        texts(r@) == lines(s@),
{
    let x = chars_of(s);
    let mut r: Vec<String> = Vec::new();
    let mut from: usize = 0;
    assert(x@.skip(0) == x@);
    while from < x.len()
        invariant
            x@ == s@,
            from <= x@.len(),
            lines(s@) == texts(r@) + lines(x@.skip(from as int)),
        decreases x@.len() - from,
    {
        let ghost rest = x@.skip(from as int);
        let ghost before = texts(r@);
        let mut to: usize = from;
        while to < x.len() && x[to] != '\n'
            invariant
                from <= to <= x@.len(),
                forall|i: int| from <= i < to ==> x@[i] != '\n',
            decreases x@.len() - to,
        {
            to = to + 1;
        }
        proof {
            lemma_first_break(rest);
            let n = first_break(rest) as int;
            if n < to - from {
                assert(rest[n] == x@[from + n]);
            }
            if n > to - from {
                assert(rest[to - from] == x@[to as int]);
            }
            assert(n == to - from);
            assert(rest.take(n) == x@.subrange(from as int, to as int));
        }
        if to < x.len() {
            if to > from && x[to - 1] == '\r' {
                r.push(string_of(&x, from, to - 1));
                assert(rest.take(to - from).drop_last() == x@.subrange(from as int, to - 1));
            } else {
                r.push(string_of(&x, from, to));
            }
            assert(rest.skip(to - from + 1) == x@.skip(to + 1));
            from = to + 1;
        } else {
            r.push(string_of(&x, from, to));
            assert(rest.take(to - from) == rest);
            from = to;
        }
        assert(texts(r@) == before.push(r@.last()@));
        assert(lines(s@) == texts(r@) + lines(x@.skip(from as int)));
    }
    assert(texts(r@) + lines(x@.skip(from as int)) == texts(r@));
    r
}

/// Where `c` first stands at or behind `from`; the end where it does not.
pub fn find_char(chars: &Vec<char>, from: usize, c: char) -> (r: usize)
    requires
        from <= chars@.len(),
    ensures
        from <= r <= chars@.len(),
        r == from + first_of(chars@.skip(from as int), c),
{
    let mut i: usize = from;
    while i < chars.len() && chars[i] != c
        invariant
            from <= i <= chars@.len(),
            forall|k: int| from <= k < i ==> chars@[k] != c,
        decreases chars@.len() - i,
    {
        i = i + 1;
    }
    proof {
        lemma_first_of(chars@.skip(from as int), c, i - from);
    }
    i
}

/// Where what stands behind the last `c` begins.
pub fn find_after_last(chars: &Vec<char>, c: char) -> (r: usize)
    ensures
        r <= chars@.len(),
        chars@.skip(r as int) == after_last(chars@, c),
        r > 0 ==> chars@[r - 1] == c,
{
    let mut n: usize = chars.len();
    while n > 0 && chars[n - 1] != c
        invariant
            n <= chars@.len(),
            forall|i: int| n <= i < chars@.len() ==> chars@[i] != c,
        decreases n,
    {
        n = n - 1;
    }
    proof {
        lemma_after_last(chars@, c, n as int);
    }
    n
}

/// `s` followed by spaces up to `width` characters.
pub fn pad(s: &str, width: usize) -> (r: String)
    ensures
        r@ == padded(s@, width as nat),
{
    let mut r = owned(s);
    let mut n: usize = chars_of(s).len();
    let ghost start = n;
    while n < width
        invariant
            start == s@.len(),
            start <= n,
            n <= width || n == start,
            r@ == s@ + Seq::new((n - start) as nat, |i: int| ' '),
        decreases width - n,
    {
        r.push(' ');
        n = n + 1;
        assert(r@ == s@ + Seq::new((n - start) as nat, |i: int| ' '));
    }
    r
}

// ---------------------------------------------------------------------------
// Order
// ---------------------------------------------------------------------------

/// A text comes before another: by the first character in which they differ, and
/// a text before those that continue it.
pub open spec fn before(a: Seq<char>, b: Seq<char>) -> bool
    decreases a.len(),
{
    if b.len() == 0 {
        false
    } else if a.len() == 0 {
        true
    } else if a[0] == b[0] {
        before(a.skip(1), b.skip(1))
    } else {
        a[0] < b[0]
    }
}

/// Of two different texts one comes before the other, and no text comes before
/// itself.
pub proof fn law_order_total(a: Seq<char>, b: Seq<char>)
    ensures
        a == b ==> !before(a, b),
        a != b ==> (before(a, b) <==> !before(b, a)),
    decreases a.len(),
{
    if a.len() > 0 && b.len() > 0 && a[0] == b[0] {
        law_order_total(a.skip(1), b.skip(1));
        assert(a.skip(1) == b.skip(1) ==> a =~= b) by {
            assert(a =~= seq![a[0]] + a.skip(1));
            assert(b =~= seq![b[0]] + b.skip(1));
        }
    } else if a.len() == 0 && b.len() == 0 {
        assert(a =~= b);
    }
}

/// The order of texts is transitive.
pub proof fn law_order_transitive(a: Seq<char>, b: Seq<char>, c: Seq<char>)
    requires
        before(a, b),
        before(b, c),
    ensures
        before(a, c),
    decreases a.len(),
{
    if a.len() > 0 && b.len() > 0 && c.len() > 0 && a[0] == b[0] && b[0] == c[0] {
        law_order_transitive(a.skip(1), b.skip(1), c.skip(1));
    }
}

/// Whether a text comes before another.
pub fn comes_before(a: &str, b: &str) -> (r: bool)
    ensures
        r == before(a@, b@),
{
    let x = chars_of(a);
    let y = chars_of(b);
    let mut i: usize = 0;
    assert(x@.skip(0) =~= x@);
    assert(y@.skip(0) =~= y@);
    while i < x.len() && i < y.len() && x[i] == y[i]
        invariant
            x@ == a@,
            y@ == b@,
            i <= x@.len(),
            i <= y@.len(),
            before(a@, b@) == before(x@.skip(i as int), y@.skip(i as int)),
        decreases x@.len() - i,
    {
        assert(x@.skip(i as int).skip(1) =~= x@.skip(i + 1));
        assert(y@.skip(i as int).skip(1) =~= y@.skip(i + 1));
        i = i + 1;
    }
    i < y.len() && (i == x.len() || x[i] < y[i])
}

/// No text of a list comes before one that stands ahead of it.
pub open spec fn in_order(list: Seq<Seq<char>>) -> bool {
    forall|i: int, j: int|
        0 <= i < j < list.len() ==> !before(#[trigger] list[j], #[trigger] list[i])
}

/// Sorts texts.
pub fn sort_texts(list: &[String]) -> (r: Vec<String>)
    ensures
        in_order(texts(r@)),
        texts(r@).to_multiset() == texts(list@).to_multiset(),
{
    let ghost m = texts(list@);
    let mut r: Vec<String> = Vec::new();
    let mut i: usize = 0;
    proof {
        assert(texts(r@) =~= m.take(0));
    }
    while i < list.len()
        invariant
            i <= list@.len(),
            m == texts(list@),
            in_order(texts(r@)),
            texts(r@).to_multiset() == m.take(i as int).to_multiset(),
        decreases list@.len() - i,
    {
        let ghost s = texts(r@);
        let ghost x = list@[i as int]@;
        let mut at: usize = 0;
        while at < r.len() && !comes_before(&list[i], &r[at])
            invariant
                i < list@.len(),
                x == list@[i as int]@,
                at <= r@.len(),
                s == texts(r@),
                forall|k: int| 0 <= k < at ==> !before(x, #[trigger] s[k]),
            decreases r@.len() - at,
        {
            assert(s[at as int] == r@[at as int]@);
            at = at + 1;
        }
        proof {
            assert forall|k: int| at <= k < s.len() implies !before(#[trigger] s[k], x) by {
                assert(s[at as int] == r@[at as int]@);
                law_order_total(x, s[at as int]);
                law_order_total(s[k], s[at as int]);
                law_order_total(x, s[k]);
                if k > at && s[k] != s[at as int] {
                    law_order_transitive(x, s[at as int], s[k]);
                }
            }
        }
        r.insert(at, owned(&list[i]));
        proof {
            let now = texts(r@);
            assert(now =~= s.insert(at as int, x));
            vstd::seq_lib::to_multiset_insert(s, at as int, x);
            vstd::seq_lib::to_multiset_build(m.take(i as int), x);
            assert(m.take(i + 1) =~= m.take(i as int).push(x));
            assert forall|a: int, b: int| 0 <= a < b < now.len() implies !before(
                #[trigger] now[b],
                #[trigger] now[a],
            ) by {
                if b < at {
                    assert(now[a] == s[a] && now[b] == s[b]);
                } else if b == at {
                    assert(now[a] == s[a]);
                } else {
                    assert(now[b] == s[b - 1]);
                    if a < at {
                        assert(now[a] == s[a]);
                    } else if a > at {
                        assert(now[a] == s[a - 1]);
                    }
                }
            }
        }
        i = i + 1;
    }
    assert(m.take(i as int) =~= m);
    r
}

// ---------------------------------------------------------------------------
// Laws of text
// ---------------------------------------------------------------------------

/// All of a text is white space.
pub open spec fn all_space(s: Seq<char>) -> bool {
    forall|i: int| 0 <= i < s.len() ==> white_space(#[trigger] s[i])
}

/// A text is a body between two others.
pub open spec fn set_between(s: Seq<char>, head: Seq<char>, body: Seq<char>, tail: Seq<char>) -> bool {
    s == head + body + tail
}

proof fn lemma_leading_range(s: Seq<char>)
    ensures
        leading_space(s) <= s.len(),
        all_space(s.take(leading_space(s) as int)),
        leading_space(s) < s.len() ==> !white_space(s[leading_space(s) as int]),
    decreases s.len(),
{
    if s.len() > 0 && white_space(s[0]) {
        let rest = s.skip(1);
        lemma_leading_range(rest);
        let n = leading_space(s) as int;
        let head = s.take(n);
        let inner = rest.take(n - 1);
        assert forall|i: int| 0 <= i < head.len() implies white_space(#[trigger] head[i]) by {
            if i > 0 {
                assert(head[i] == inner[i - 1]);
            }
        }
    }
}

proof fn lemma_trailing_range(s: Seq<char>)
    ensures
        trailing_space(s) <= s.len(),
        all_space(s.skip(s.len() - trailing_space(s))),
        trailing_space(s) < s.len() ==> !white_space(s[s.len() - trailing_space(s) - 1]),
    decreases s.len(),
{
    if s.len() > 0 && white_space(s.last()) {
        let rest = s.drop_last();
        lemma_trailing_range(rest);
        let n = trailing_space(s) as int;
        let tail = s.skip(s.len() - n);
        let inner = rest.skip(rest.len() - (n - 1));
        assert forall|i: int| 0 <= i < tail.len() implies white_space(#[trigger] tail[i]) by {
            if i < tail.len() - 1 {
                assert(tail[i] == inner[i]);
            }
        }
    }
}

/// A trimmed text has white space neither at its start nor at its end, and what
/// was left out is white space at the two ends.
pub proof fn law_trimmed(s: Seq<char>)
    ensures
        trimmed(s).len() > 0 ==> !white_space(trimmed(s)[0]) && !white_space(trimmed(s).last()),
        exists|head: Seq<char>, tail: Seq<char>| #[trigger]
            set_between(s, head, trimmed(s), tail) && all_space(head) && all_space(tail),
{
    lemma_leading_range(s);
    let n = leading_space(s) as int;
    let body = s.skip(n);
    lemma_trailing_range(body);
    let m = body.len() - trailing_space(body);
    assert(trimmed(s) == body.take(m));
    assert(s =~= s.take(n) + trimmed(s) + body.skip(m));
    assert(set_between(s, s.take(n), trimmed(s), body.skip(m)));
    if trimmed(s).len() > 0 {
        assert(trimmed(s)[0] == s[n]);
        assert(trimmed(s).last() == body[m - 1]);
    }
}

/// A line can stand in a text: it holds no line break and does not end with a
/// carriage return.
pub open spec fn one_line(line: Seq<char>) -> bool {
    &&& forall|i: int| 0 <= i < line.len() ==> line[i] != '\n'
    &&& line.len() == 0 || line.last() != '\r'
}

/// Lines, each with a line break behind it.
pub open spec fn lines_closed(list: Seq<Seq<char>>) -> Seq<char>
    decreases list.len(),
{
    if list.len() == 0 {
        seq![]
    } else {
        list[0] + seq!['\n'] + lines_closed(list.skip(1))
    }
}

/// Lines that are written one after the other, with a line break behind each or
/// behind each but the last, are read as these lines.
pub proof fn law_lines(list: Seq<Seq<char>>, last: Seq<char>)
    requires
        forall|i: int| 0 <= i < list.len() ==> one_line(#[trigger] list[i]),
        one_line(last),
        last.len() > 0,
    ensures
        lines(lines_closed(list)) == list,
        lines(lines_closed(list) + last) == list.push(last),
    decreases list.len(),
{
    if list.len() == 0 {
        assert(lines_closed(list) + last =~= last);
        lemma_first_break(last);
        assert(lines(last) =~= list.push(last));
        assert(lines(lines_closed(list)) =~= list);
    } else {
        let rest = list.skip(1);
        let line = list[0];
        assert forall|i: int| 0 <= i < rest.len() implies one_line(#[trigger] rest[i]) by {
            assert(rest[i] == list[i + 1]);
        }
        law_lines(rest, last);
        assert(one_line(line));
        let n = line.len() as int;
        let s = lines_closed(list);
        lemma_break_at(s, n);
        assert(s.take(n) =~= line);
        assert(s.skip(n + 1) =~= lines_closed(rest));
        assert(without_return(line) == line);
        assert(lines(s) =~= seq![line] + lines(lines_closed(rest)));
        assert(lines(s) =~= list);
        let t = s + last;
        lemma_break_at(t, n);
        assert(t.take(n) =~= line);
        assert(t.skip(n + 1) =~= lines_closed(rest) + last);
        assert(lines(t) =~= seq![line] + lines(lines_closed(rest) + last));
        assert(lines(t) =~= list.push(last));
    }
}

/// The first occurrence of a pattern is replaced, and so is every one in the text
/// behind it; what stands before it stays.
pub proof fn law_replaced_first(
    head: Seq<char>,
    pattern: Seq<char>,
    tail: Seq<char>,
    with: Seq<char>,
)
    requires
        pattern.len() > 0,
        forall|i: int|
            0 <= i < head.len() ==> !begins(
                #[trigger] (head + pattern + tail).skip(i),
                pattern,
            ),
    ensures
        replaced(head + pattern + tail, pattern, with) == head + with + replaced(
            tail,
            pattern,
            with,
        ),
    decreases head.len(),
{
    let s = head + pattern + tail;
    if head.len() == 0 {
        assert(s.take(pattern.len() as int) =~= pattern);
        assert(s.skip(pattern.len() as int) =~= tail);
        assert(head + with + replaced(tail, pattern, with) =~= with + replaced(
            tail,
            pattern,
            with,
        ));
    } else {
        let rest = head.skip(1);
        assert(s.skip(0) =~= s);
        assert(!begins(s, pattern));
        assert(s.skip(1) =~= rest + pattern + tail);
        assert forall|i: int| 0 <= i < rest.len() implies !begins(
            #[trigger] (rest + pattern + tail).skip(i),
            pattern,
        ) by {
            assert((rest + pattern + tail).skip(i) =~= s.skip(i + 1));
        }
        law_replaced_first(rest, pattern, tail, with);
        assert(seq![s[0]] + (rest + with + replaced(tail, pattern, with)) =~= head + with
            + replaced(tail, pattern, with));
    }
}

/// A text that is written some times and then some more is written that often, and
/// one that is written once is itself.
pub proof fn law_repeated(unit: Seq<char>, n: nat, m: nat)
    ensures
        repeated(unit, n + m) == repeated(unit, n) + repeated(unit, m),
        repeated(unit, 1) == unit,
        repeated(unit, 0).len() == 0,
    decreases m,
{
    assert(repeated(unit, 0) =~= Seq::<char>::empty());
    assert(repeated(unit, 1) =~= repeated(unit, 0) + unit);
    assert(repeated(unit, 1) =~= unit);
    if m == 0 {
        assert(repeated(unit, n) + repeated(unit, 0) =~= repeated(unit, n));
    } else {
        law_repeated(unit, n, (m - 1) as nat);
        assert((n + m - 1) as nat == n + (m - 1) as nat);
        assert(repeated(unit, n + m) =~= repeated(unit, n) + repeated(unit, m));
    }
}

/// A padded text begins with the text, is as wide as asked for where the text is
/// not wider, and holds nothing but spaces behind the text.
pub proof fn law_padded(s: Seq<char>, width: nat)
    ensures
        begins(padded(s, width), s),
        padded(s, width).len() == if s.len() < width {
            width
        } else {
            s.len()
        },
        forall|i: int| s.len() <= i < padded(s, width).len() ==> padded(s, width)[i] == ' ',
{
    assert(padded(s, width).take(s.len() as int) =~= s);
}

/// The number that a digit stands for.
pub open spec fn digit_value(c: char) -> nat {
    if '0' <= c <= '9' {
        (c as nat - '0' as nat) as nat
    } else {
        (c as nat - 'a' as nat + 10) as nat
    }
}

/// The number that digits stand for.
pub open spec fn number_of(s: Seq<char>, base: nat) -> nat
    decreases s.len(),
{
    if s.len() == 0 {
        0
    } else {
        number_of(s.drop_last(), base) * base + digit_value(s.last())
    }
}

/// The digits of a number stand for that number, and only zero begins with a zero.
pub proof fn law_digits(n: nat, base: nat)
    requires
        2 <= base <= 16,
    ensures
        digits(n, base).len() > 0,
        number_of(digits(n, base), base) == n,
        n > 0 ==> digits(n, base)[0] != '0',
    decreases n,
{
    let s = digits(n, base);
    if n < base {
        assert(digit_value(digit_char(n)) == n);
        assert(s == seq![digit_char(n)]);
        assert(s.drop_last() =~= Seq::<char>::empty());
        assert(number_of(Seq::<char>::empty(), base) == 0);
        assert(0nat * base == 0) by (nonlinear_arith);
    } else {
        let q = n / base;
        let d = n % base;
        lemma_div_decreases(n as int, base as int);
        assert(q > 0 && d < base && q * base + d == n) by (nonlinear_arith)
            requires
                n >= base,
                base >= 2,
                q == n / base,
                d == n % base,
        ;
        law_digits(q, base);
        assert(digit_value(digit_char(d)) == d);
        assert(s.drop_last() =~= digits(q, base));
        assert(s.last() == digit_char(d));
        assert(s[0] == digits(q, base)[0]);
    }
}

/// Texts are ordered by the first character in which they differ, and a text comes
/// before every longer one that begins with it.
pub proof fn law_order_first(same: Seq<char>, x: char, y: char, a: Seq<char>, b: Seq<char>)
    requires
        x != y,
    ensures
        before(same + seq![x] + a, same + seq![y] + b) <==> x < y,
        before(same, same + seq![x] + a),
    decreases same.len(),
{
    let p = same + seq![x] + a;
    let q = same + seq![y] + b;
    if same.len() > 0 {
        let rest = same.skip(1);
        law_order_first(rest, x, y, a, b);
        assert(p.skip(1) =~= rest + seq![x] + a);
        assert(q.skip(1) =~= rest + seq![y] + b);
    } else {
        assert(p[0] == x && q[0] == y);
    }
}

/// There is one way to sort texts: two sorted lists of the same texts are the same.
pub proof fn law_sorted_unique(a: Seq<Seq<char>>, b: Seq<Seq<char>>)
    requires
        in_order(a),
        in_order(b),
        a.to_multiset() == b.to_multiset(),
    ensures
        a == b,
{
    let leq = |x: Seq<char>, y: Seq<char>| !before(y, x);
    assert forall|x: Seq<char>, y: Seq<char>, z: Seq<char>| #[trigger]
        leq(x, y) && #[trigger] leq(y, z) implies leq(x, z) by {
        law_order_total(x, y);
        law_order_total(y, z);
        law_order_total(x, z);
        if before(z, x) {
            if x != y && y != z {
                law_order_transitive(x, y, z);
            }
        }
    }
    assert forall|x: Seq<char>, y: Seq<char>| #[trigger] leq(x, y) && #[trigger] leq(
        y,
        x,
    ) implies x == y by {
        law_order_total(x, y);
    }
    assert forall|x: Seq<char>| #[trigger] leq(x, x) by {
        law_order_total(x, x);
    }
    assert forall|x: Seq<char>, y: Seq<char>| #[trigger] leq(x, y) || #[trigger] leq(y, x) by {
        law_order_total(x, y);
    }
    assert(vstd::relations::sorted_by(a, leq));
    assert(vstd::relations::sorted_by(b, leq));
    vstd::seq_lib::lemma_sorted_unique(a, b, leq);
}

} // verus!
