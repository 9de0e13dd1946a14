//! Line-by-line comparison.
use crate::diff;
use crate::diff::DiffResult;
use crate::output;
use crate::output::Tone;
use crate::text;
use vstd::prelude::*;
use vstd::string::*;

verus! {

/// How many lines two texts share at their start.
pub open spec fn shared_head(a: Seq<Seq<char>>, b: Seq<Seq<char>>) -> nat
    decreases a.len(),
{
    if a.len() == 0 || b.len() == 0 || a[0] != b[0] {
        0
    } else {
        1 + shared_head(a.skip(1), b.skip(1))
    }
}

/// How many lines two texts share at their end.
pub open spec fn shared_tail(a: Seq<Seq<char>>, b: Seq<Seq<char>>) -> nat
    decreases a.len(),
{
    if a.len() == 0 || b.len() == 0 || a.last() != b.last() {
        0
    } else {
        1 + shared_tail(a.drop_last(), b.drop_last())
    }
}

/// The line that shows a line of the deployed side.
pub open spec fn minus(line: Seq<char>, styled: bool) -> Seq<char> {
    output::painted("-"@ + line, Tone::Red, styled)
}

/// The line that shows a line of the generated side.
pub open spec fn plus(line: Seq<char>, styled: bool) -> Seq<char> {
    output::painted("+"@ + line, Tone::Green, styled)
}

/// How many lines the longest list of lines has that stands, in its order, in
/// both of two lists.
pub open spec fn common_len(a: Seq<Seq<char>>, b: Seq<Seq<char>>) -> nat
    decreases a.len() + b.len(),
{
    if a.len() == 0 || b.len() == 0 {
        0
    } else if a[0] == b[0] {
        1 + common_len(a.skip(1), b.skip(1))
    } else if common_len(a, b.skip(1)) >= common_len(a.skip(1), b) {
        common_len(a, b.skip(1))
    } else {
        common_len(a.skip(1), b)
    }
}

/// Whether the lines of a list stand in another, in their order.
pub open spec fn stands_within(c: Seq<Seq<char>>, a: Seq<Seq<char>>) -> bool
    decreases a.len(),
{
    c.len() == 0 || a.len() > 0 && (stands_within(c, a.skip(1)) || c[0] == a[0]
        && stands_within(c.skip(1), a.skip(1)))
}

/// A step from the deployed lines to the generated ones.
pub enum LineStep {
    /// A line of both.
    Keep(Seq<char>),
    /// A line of the deployed side alone.
    Remove(Seq<char>),
    /// A line of the generated side alone.
    Add(Seq<char>),
}

/// What can be read off a list of steps.
pub enum Reading {
    /// The generated lines.
    Generated,
    /// The deployed lines.
    Deployed,
    /// The lines that both sides keep.
    Kept,
    /// The lines that show the changes, with the styling given.
    Shown(bool),
}

/// The lines that a step gives to a reading.
pub open spec fn step_lines(step: LineStep, reading: Reading) -> Seq<Seq<char>> {
    match (step, reading) {
        (LineStep::Keep(_), Reading::Shown(_)) => seq![],
        (LineStep::Keep(line), _) => seq![line],
        (LineStep::Remove(line), Reading::Deployed) => seq![line],
        (LineStep::Remove(line), Reading::Shown(styled)) => seq![minus(line, styled)],
        (LineStep::Remove(_), _) => seq![],
        (LineStep::Add(line), Reading::Generated) => seq![line],
        (LineStep::Add(line), Reading::Shown(styled)) => seq![plus(line, styled)],
        (LineStep::Add(_), _) => seq![],
    }
}

/// The lines that a list of steps gives to a reading.
pub open spec fn read_steps(steps: Seq<LineStep>, reading: Reading) -> Seq<Seq<char>>
    decreases steps.len(),
{
    if steps.len() == 0 {
        seq![]
    } else {
        step_lines(steps[0], reading) + read_steps(steps.skip(1), reading)
    }
}

/// Whether leaving out the first deployed line loses none of the lines that can
/// be kept; where it does, the first generated line is the one to add.
pub open spec fn removes_first(g: Seq<Seq<char>>, d: Seq<Seq<char>>) -> bool {
    common_len(g, d.skip(1)) >= common_len(g.skip(1), d)
}

/// The steps from the deployed lines to the generated ones that keep as many
/// lines as can be kept.
pub open spec fn script(g: Seq<Seq<char>>, d: Seq<Seq<char>>) -> Seq<LineStep>
    decreases g.len() + d.len(),
{
    if g.len() == 0 && d.len() == 0 {
        seq![]
    } else if g.len() > 0 && d.len() > 0 && g[0] == d[0] {
        seq![LineStep::Keep(g[0])] + script(g.skip(1), d.skip(1))
    } else if g.len() == 0 || d.len() > 0 && removes_first(g, d) {
        seq![LineStep::Remove(d[0])] + script(g, d.skip(1))
    } else {
        seq![LineStep::Add(g[0])] + script(g.skip(1), d)
    }
}

/// The steps that keep each of some lines.
pub open spec fn kept_steps(lines: Seq<Seq<char>>) -> Seq<LineStep> {
    lines.map_values(|line: Seq<char>| LineStep::Keep(line))
}

/// The steps from the deployed lines to the generated ones: what both share at
/// the start and at the end is kept.
pub open spec fn line_steps(generated: Seq<Seq<char>>, deployed: Seq<Seq<char>>) -> Seq<LineStep> {
    let head = shared_head(generated, deployed) as int;
    let g = generated.skip(head);
    let d = deployed.skip(head);
    let tail = shared_tail(g, d);
    kept_steps(generated.take(head)) + script(g.take(g.len() - tail), d.take(d.len() - tail))
        + kept_steps(g.skip(g.len() - tail))
}

/// The lines that show how two lists of lines differ: in their order, the
/// deployed lines that go and the generated lines that come.
pub open spec fn line_changes(
    generated: Seq<Seq<char>>,
    deployed: Seq<Seq<char>>,
    styled: bool,
) -> Seq<Seq<char>> {
    read_steps(line_steps(generated, deployed), Reading::Shown(styled))
}

proof fn lemma_shared_head(a: Seq<Seq<char>>, b: Seq<Seq<char>>, n: int)
    requires
        0 <= n <= a.len(),
        n <= b.len(),
        forall|i: int| 0 <= i < n ==> a[i] == b[i],
        n < a.len() && n < b.len() ==> a[n] != b[n],
    ensures
        shared_head(a, b) == n,
    decreases n,
{
    if n > 0 {
        assert(a[0] == b[0]);
        assert forall|i: int| 0 <= i < n - 1 implies a.skip(1)[i] == b.skip(1)[i] by {
            assert(a[i + 1] == b[i + 1]);
        }
        lemma_shared_head(a.skip(1), b.skip(1), n - 1);
    }
}

proof fn lemma_shared_tail(a: Seq<Seq<char>>, b: Seq<Seq<char>>, n: int)
    requires
        0 <= n <= a.len(),
        n <= b.len(),
        forall|i: int| 0 <= i < n ==> #[trigger] from_end(a, i) == from_end(b, i),
        n < a.len() && n < b.len() ==> from_end(a, n) != from_end(b, n),
    ensures
        shared_tail(a, b) == n,
    decreases n,
{
    if n > 0 {
        assert(from_end(a, 0) == from_end(b, 0));
        let x = a.drop_last();
        let y = b.drop_last();
        assert forall|i: int| 0 <= i < n - 1 implies #[trigger] from_end(x, i) == from_end(y, i) by {
            assert(from_end(a, i + 1) == from_end(b, i + 1));
        }
        if n < a.len() && n < b.len() {
            assert(from_end(x, n - 1) == from_end(a, n));
            assert(from_end(y, n - 1) == from_end(b, n));
        }
        lemma_shared_tail(x, y, n - 1);
    }
}

/// The line at a distance from the end.
spec fn from_end(a: Seq<Seq<char>>, i: int) -> Seq<char> {
    a[a.len() - 1 - i]
}

proof fn lemma_tail_range(a: Seq<Seq<char>>, b: Seq<Seq<char>>)
    ensures
        shared_tail(a, b) <= a.len(),
        shared_tail(a, b) <= b.len(),
    decreases a.len(),
{
    if a.len() > 0 && b.len() > 0 && a.last() == b.last() {
        lemma_tail_range(a.drop_last(), b.drop_last());
    }
}

proof fn lemma_read_first(step: LineStep, rest: Seq<LineStep>, reading: Reading)
    ensures
        read_steps(seq![step] + rest, reading) == step_lines(step, reading) + read_steps(
            rest,
            reading,
        ),
{
    assert((seq![step] + rest).skip(1) =~= rest);
}

proof fn lemma_read_concat(s: Seq<LineStep>, t: Seq<LineStep>, reading: Reading)
    ensures
        read_steps(s + t, reading) == read_steps(s, reading) + read_steps(t, reading),
    decreases s.len(),
{
    if s.len() == 0 {
        assert(s + t =~= t);
        assert(read_steps(s, reading) + read_steps(t, reading) =~= read_steps(t, reading));
    } else {
        lemma_read_concat(s.skip(1), t, reading);
        assert((s + t).skip(1) =~= s.skip(1) + t);
        assert(read_steps(s + t, reading) =~= read_steps(s, reading) + read_steps(t, reading));
    }
}

proof fn lemma_read_kept(lines: Seq<Seq<char>>, reading: Reading)
    ensures
        read_steps(kept_steps(lines), reading) == (if reading is Shown {
            seq![]
        } else {
            lines
        }),
    decreases lines.len(),
{
    if lines.len() > 0 {
        lemma_read_kept(lines.skip(1), reading);
        assert(kept_steps(lines).skip(1) =~= kept_steps(lines.skip(1)));
        assert(seq![lines[0]] + lines.skip(1) =~= lines);
        assert(seq![] + read_steps(kept_steps(lines.skip(1)), reading) =~= read_steps(
            kept_steps(lines.skip(1)),
            reading,
        ));
    } else {
        assert(lines =~= seq![]);
    }
}

proof fn lemma_script(g: Seq<Seq<char>>, d: Seq<Seq<char>>)
    ensures
        read_steps(script(g, d), Reading::Generated) == g,
        read_steps(script(g, d), Reading::Deployed) == d,
        read_steps(script(g, d), Reading::Kept).len() == common_len(g, d),
    decreases g.len() + d.len(),
{
    if g.len() > 0 {
        assert(seq![g[0]] + g.skip(1) =~= g);
    }
    if d.len() > 0 {
        assert(seq![d[0]] + d.skip(1) =~= d);
    }
    if g.len() == 0 && d.len() == 0 {
        assert(g =~= seq![]);
        assert(d =~= seq![]);
    } else if g.len() > 0 && d.len() > 0 && g[0] == d[0] {
        lemma_script(g.skip(1), d.skip(1));
        lemma_read_all(LineStep::Keep(g[0]), script(g.skip(1), d.skip(1)));
    } else if g.len() == 0 || d.len() > 0 && removes_first(g, d) {
        lemma_script(g, d.skip(1));
        lemma_read_all(LineStep::Remove(d[0]), script(g, d.skip(1)));
        assert(Seq::<Seq<char>>::empty() + g =~= g);
    } else {
        lemma_script(g.skip(1), d);
        lemma_read_all(LineStep::Add(g[0]), script(g.skip(1), d));
        assert(Seq::<Seq<char>>::empty() + d =~= d);
    }
}

proof fn lemma_read_all(step: LineStep, rest: Seq<LineStep>)
    ensures
        forall|reading: Reading| #[trigger]
            read_steps(seq![step] + rest, reading) == step_lines(step, reading) + read_steps(
                rest,
                reading,
            ),
{
    assert forall|reading: Reading| #[trigger]
        read_steps(seq![step] + rest, reading) == step_lines(step, reading) + read_steps(
            rest,
            reading,
        ) by {
        lemma_read_first(step, rest, reading);
    }
}

proof fn lemma_common_tail(a: Seq<Seq<char>>, b: Seq<Seq<char>>, t: Seq<char>)
    ensures
        common_len(a.push(t), b.push(t)) == common_len(a, b) + 1,
    decreases a.len() + b.len(),
{
    reveal_with_fuel(common_len, 2);
    let x = a.push(t);
    let y = b.push(t);
    if a.len() > 0 {
        assert(x.skip(1) =~= a.skip(1).push(t));
    }
    if b.len() > 0 {
        assert(y.skip(1) =~= b.skip(1).push(t));
    }
    if a.len() > 0 && b.len() > 0 && a[0] == b[0] {
        lemma_common_tail(a.skip(1), b.skip(1), t);
    } else {
        if b.len() > 0 {
            lemma_common_tail(a, b.skip(1), t);
        }
        if a.len() > 0 {
            lemma_common_tail(a.skip(1), b, t);
        }
    }
}

proof fn lemma_common_trimmed(a: Seq<Seq<char>>, b: Seq<Seq<char>>)
    ensures
        common_len(a, b) == shared_tail(a, b) + common_len(
            a.take(a.len() - shared_tail(a, b)),
            b.take(b.len() - shared_tail(a, b)),
        ),
        a.skip(a.len() - shared_tail(a, b)) == b.skip(b.len() - shared_tail(a, b)),
    decreases a.len(),
{
    lemma_tail_range(a, b);
    let n = shared_tail(a, b);
    if a.len() == 0 || b.len() == 0 || a.last() != b.last() {
        assert(a.take(a.len() as int) =~= a);
        assert(b.take(b.len() as int) =~= b);
        assert(a.skip(a.len() as int) =~= b.skip(b.len() as int));
    } else {
        let x = a.drop_last();
        let y = b.drop_last();
        lemma_tail_range(x, y);
        lemma_common_trimmed(x, y);
        lemma_common_tail(x, y, a.last());
        assert(x.push(a.last()) =~= a);
        assert(y.push(a.last()) =~= b);
        assert(a.take(a.len() - n) =~= x.take(x.len() - (n - 1)));
        assert(b.take(b.len() - n) =~= y.take(y.len() - (n - 1)));
        assert(a.skip(a.len() - n) =~= x.skip(x.len() - (n - 1)).push(a.last()));
        assert(b.skip(b.len() - n) =~= y.skip(y.len() - (n - 1)).push(a.last()));
    }
}

proof fn lemma_common_head(a: Seq<Seq<char>>, b: Seq<Seq<char>>)
    ensures
        shared_head(a, b) <= a.len(),
        shared_head(a, b) <= b.len(),
        common_len(a, b) == shared_head(a, b) + common_len(
            a.skip(shared_head(a, b) as int),
            b.skip(shared_head(a, b) as int),
        ),
        a.take(shared_head(a, b) as int) == b.take(shared_head(a, b) as int),
    decreases a.len(),
{
    let n = shared_head(a, b);
    if n == 0 {
        assert(a.skip(0) =~= a);
        assert(b.skip(0) =~= b);
        assert(a.take(0) =~= b.take(0));
    } else {
        lemma_common_head(a.skip(1), b.skip(1));
        assert(a.skip(n as int) =~= a.skip(1).skip(n - 1));
        assert(b.skip(n as int) =~= b.skip(1).skip(n - 1));
        assert(a.take(n as int) =~= seq![a[0]] + a.skip(1).take(n - 1));
        assert(b.take(n as int) =~= seq![b[0]] + b.skip(1).take(n - 1));
    }
}

proof fn lemma_within_rest(c: Seq<Seq<char>>, a: Seq<Seq<char>>)
    requires
        c.len() > 0,
        stands_within(c, a),
    ensures
        a.len() > 0,
        stands_within(c.skip(1), a.skip(1)),
    decreases a.len(),
{
    if stands_within(c, a.skip(1)) {
        lemma_within_rest(c, a.skip(1));
    }
}

proof fn lemma_kept_within(steps: Seq<LineStep>)
    ensures
        stands_within(
            read_steps(steps, Reading::Kept),
            read_steps(steps, Reading::Generated),
        ),
        stands_within(
            read_steps(steps, Reading::Kept),
            read_steps(steps, Reading::Deployed),
        ),
    decreases steps.len(),
{
    if steps.len() > 0 {
        let rest = steps.skip(1);
        lemma_kept_within(rest);
        let kept = read_steps(rest, Reading::Kept);
        let generated = read_steps(rest, Reading::Generated);
        let deployed = read_steps(rest, Reading::Deployed);
        let empty = Seq::<Seq<char>>::empty();
        assert(empty + kept =~= kept);
        assert(empty + generated =~= generated);
        assert(empty + deployed =~= deployed);
        match steps[0] {
            LineStep::Keep(line) => {
                assert((seq![line] + kept).skip(1) =~= kept);
                assert((seq![line] + generated).skip(1) =~= generated);
                assert((seq![line] + deployed).skip(1) =~= deployed);
            },
            LineStep::Remove(line) => {
                assert((seq![line] + deployed).skip(1) =~= deployed);
            },
            LineStep::Add(line) => {
                assert((seq![line] + generated).skip(1) =~= generated);
            },
        }
    }
}

proof fn lemma_shown_count(steps: Seq<LineStep>, styled: bool)
    ensures
        read_steps(steps, Reading::Shown(styled)).len() + 2 * read_steps(
            steps,
            Reading::Kept,
        ).len() == read_steps(steps, Reading::Generated).len() + read_steps(
            steps,
            Reading::Deployed,
        ).len(),
        read_steps(steps, Reading::Shown(styled)).len() == 0 ==> read_steps(
            steps,
            Reading::Generated,
        ) == read_steps(steps, Reading::Deployed),
    decreases steps.len(),
{
    if steps.len() > 0 {
        lemma_shown_count(steps.skip(1), styled);
    }
}

/// No list of lines that stands, in its order, in both of two lists has more
/// lines than `common_len` counts.
pub proof fn law_common_len(a: Seq<Seq<char>>, b: Seq<Seq<char>>, c: Seq<Seq<char>>)
    requires
        stands_within(c, a),
        stands_within(c, b),
    ensures
        c.len() <= common_len(a, b),
    decreases a.len() + b.len(),
{
    if c.len() > 0 {
        lemma_within_rest(c, a);
        lemma_within_rest(c, b);
        if a[0] == b[0] {
            law_common_len(a.skip(1), b.skip(1), c.skip(1));
        } else if c[0] != a[0] {
            law_common_len(a.skip(1), b, c);
        } else {
            law_common_len(a, b.skip(1), c);
        }
    }
}

/// The steps lead from the deployed lines to the generated ones, and the lines
/// that they keep, which are never shown, are a longest list of lines that
/// stands in both: no step shows a line that could have been kept.
pub proof fn law_line_steps(generated: Seq<Seq<char>>, deployed: Seq<Seq<char>>, styled: bool)
    ensures
        ({
            let steps = line_steps(generated, deployed);
            let kept = read_steps(steps, Reading::Kept);
            &&& read_steps(steps, Reading::Generated) == generated
            &&& read_steps(steps, Reading::Deployed) == deployed
            &&& stands_within(kept, generated)
            &&& stands_within(kept, deployed)
            &&& kept.len() == common_len(generated, deployed)
            &&& line_changes(generated, deployed, styled).len() == generated.len()
                + deployed.len() - 2 * kept.len()
        }),
{
    let head = shared_head(generated, deployed) as int;
    lemma_common_head(generated, deployed);
    let g = generated.skip(head);
    let d = deployed.skip(head);
    let tail = shared_tail(g, d);
    lemma_tail_range(g, d);
    lemma_common_trimmed(g, d);
    let first = kept_steps(generated.take(head));
    let middle = script(g.take(g.len() - tail), d.take(d.len() - tail));
    let last = kept_steps(g.skip(g.len() - tail));
    lemma_script(g.take(g.len() - tail), d.take(d.len() - tail));
    let steps = line_steps(generated, deployed);
    assert forall|reading: Reading| #[trigger] read_steps(steps, reading) == read_steps(
        first,
        reading,
    ) + read_steps(middle, reading) + read_steps(last, reading) by {
        lemma_read_concat(first, middle, reading);
        lemma_read_concat(first + middle, last, reading);
    }
    lemma_read_kept(generated.take(head), Reading::Generated);
    lemma_read_kept(generated.take(head), Reading::Deployed);
    lemma_read_kept(generated.take(head), Reading::Kept);
    lemma_read_kept(g.skip(g.len() - tail), Reading::Generated);
    lemma_read_kept(g.skip(g.len() - tail), Reading::Deployed);
    lemma_read_kept(g.skip(g.len() - tail), Reading::Kept);
    assert(read_steps(steps, Reading::Generated) =~= generated);
    assert(read_steps(steps, Reading::Deployed) =~= deployed);
    lemma_kept_within(steps);
    lemma_shown_count(steps, styled);
}

/// Two lists of lines differ exactly where lines are shown.
pub proof fn law_line_changes(generated: Seq<Seq<char>>, deployed: Seq<Seq<char>>, styled: bool)
    ensures
        generated == deployed <==> line_changes(generated, deployed, styled).len() == 0,
{
    law_line_steps(generated, deployed, styled);
    lemma_shown_count(line_steps(generated, deployed), styled);
    if generated == deployed {
        let n = generated.len() as int;
        lemma_shared_head(generated, deployed, n);
        lemma_common_head(generated, deployed);
    }
}

proof fn lemma_common_bound(a: Seq<Seq<char>>, b: Seq<Seq<char>>)
    ensures
        common_len(a, b) <= a.len(),
    decreases a.len() + b.len(),
{
    if a.len() > 0 && b.len() > 0 {
        if a[0] == b[0] {
            lemma_common_bound(a.skip(1), b.skip(1));
        } else {
            lemma_common_bound(a, b.skip(1));
            lemma_common_bound(a.skip(1), b);
        }
    }
}

/// Whether a row holds `common_len` of some lines with what follows each place
/// of others, from the last place to the first.
spec fn counted(row: Seq<usize>, g: Seq<Seq<char>>, d: Seq<Seq<char>>) -> bool {
    &&& row.len() == d.len() + 1
    &&& forall|l: int| 0 <= l <= d.len() ==> #[trigger] row[l] == common_len(g, d.skip(d.len() - l))
}

/// Whether a row holds `removes_first` of some lines with what follows each
/// place of others, from the last place to the first.
spec fn row_chosen(row: Seq<bool>, g: Seq<Seq<char>>, d: Seq<Seq<char>>) -> bool {
    &&& row.len() == d.len()
    &&& forall|l: int|
        0 <= l < d.len() ==> #[trigger] row[l] == removes_first(g, d.skip(d.len() - 1 - l))
}

/// Whether a table holds `removes_first` of each two places, from the last ones
/// to the first.
spec fn chosen(table: Seq<Vec<bool>>, g: Seq<Seq<char>>, d: Seq<Seq<char>>) -> bool {
    &&& table.len() == g.len()
    &&& forall|k: int|
        0 <= k < g.len() ==> row_chosen((#[trigger] table[k])@, g.skip(g.len() - 1 - k), d)
}

/// The row of the table for a generated line, and the counts from which the row
/// for the line before it follows.
fn removal_row(
    generated: &Vec<String>,
    i: usize,
    g_end: usize,
    deployed: &Vec<String>,
    head: usize,
    d_end: usize,
    below: &Vec<usize>,
) -> (r: (Vec<usize>, Vec<bool>))
    requires
        i < g_end <= generated@.len(),
        head <= d_end <= deployed@.len(),
        counted(
            below@,
            text::texts(generated@).subrange(i + 1, g_end as int),
            text::texts(deployed@).subrange(head as int, d_end as int),
        ),
    ensures
        ({
            let g = text::texts(generated@).subrange(i as int, g_end as int);
            let d = text::texts(deployed@).subrange(head as int, d_end as int);
            counted(r.0@, g, d) && row_chosen(r.1@, g, d)
        }),
{
    let ghost g = text::texts(generated@).subrange(i as int, g_end as int);
    let ghost d = text::texts(deployed@).subrange(head as int, d_end as int);
    proof {
        assert(g.skip(1) =~= text::texts(generated@).subrange(i + 1, g_end as int));
        assert(g[0] == generated@[i as int]@);
        assert(d.skip(d.len() as int) =~= seq![]);
    }
    let mut counts: Vec<usize> = vec![0];
    let mut row: Vec<bool> = Vec::new();
    let mut j: usize = d_end;
    while j > head
        invariant
            i < g_end <= generated@.len(),
            head <= j <= d_end <= deployed@.len(),
            d == text::texts(deployed@).subrange(head as int, d_end as int),
            g.len() == g_end - i,
            g[0] == generated@[i as int]@,
            counted(below@, g.skip(1), d),
            counts@.len() == d_end - j + 1,
            row@.len() == d_end - j,
            forall|l: int|
                0 <= l <= d_end - j ==> #[trigger] counts@[l] == common_len(
                    g,
                    d.skip(d.len() - l),
                ),
            forall|l: int|
                0 <= l < d_end - j ==> #[trigger] row@[l] == removes_first(
                    g,
                    d.skip(d.len() - 1 - l),
                ),
        decreases j,
    {
        let l: usize = d_end - j;
        let ghost rest = d.skip(d.len() - 1 - l);
        proof {
            assert(rest[0] == deployed@[j - 1]@);
            assert(rest.skip(1) =~= d.skip(d.len() - l));
            assert(counts@[l as int] == common_len(g, rest.skip(1)));
            assert(below@[l as int] == common_len(g.skip(1), rest.skip(1)));
            assert(below@[l + 1] == common_len(g.skip(1), rest));
            lemma_common_bound(g.skip(1), rest.skip(1));
        }
        let removes = counts[l] >= below[l + 1];
        let count: usize = if text::str_eq(&generated[i], &deployed[j - 1]) {
            below[l] + 1
        } else if removes {
            counts[l]
        } else {
            below[l + 1]
        };
        assert(count == common_len(g, rest));
        assert(removes == removes_first(g, rest));
        counts.push(count);
        row.push(removes);
        j = j - 1;
    }
    (counts, row)
}

/// For each two places of the lines from `head` on, whether the deployed line is
/// to be removed before the generated one is added.
fn removals(
    generated: &Vec<String>,
    deployed: &Vec<String>,
    head: usize,
    g_end: usize,
    d_end: usize,
) -> (r: Vec<Vec<bool>>)
    requires
        head <= g_end <= generated@.len(),
        head <= d_end <= deployed@.len(),
    ensures
        chosen(
            r@,
            text::texts(generated@).subrange(head as int, g_end as int),
            text::texts(deployed@).subrange(head as int, d_end as int),
        ),
{
    let ghost a = text::texts(generated@);
    let ghost g = a.subrange(head as int, g_end as int);
    let ghost d = text::texts(deployed@).subrange(head as int, d_end as int);
    let mut below: Vec<usize> = vec![0];
    let mut l: usize = head;
    while l < d_end
        invariant
            head <= l <= d_end,
            below@.len() == l - head + 1,
            forall|k: int| 0 <= k < below@.len() ==> below@[k] == 0,
        decreases d_end - l,
    {
        below.push(0);
        l = l + 1;
    }
    assert(counted(below@, a.subrange(g_end as int, g_end as int), d));
    let mut r: Vec<Vec<bool>> = Vec::new();
    let mut i: usize = g_end;
    while i > head
        invariant
            head <= i <= g_end <= generated@.len(),
            head <= d_end <= deployed@.len(),
            a == text::texts(generated@),
            g == a.subrange(head as int, g_end as int),
            d == text::texts(deployed@).subrange(head as int, d_end as int),
            counted(below@, a.subrange(i as int, g_end as int), d),
            r@.len() == g_end - i,
            forall|k: int|
                0 <= k < g_end - i ==> row_chosen(
                    (#[trigger] r@[k])@,
                    g.skip(g.len() - 1 - k),
                    d,
                ),
        decreases i,
    {
        let (counts, row) = removal_row(generated, i - 1, g_end, deployed, head, d_end, &below);
        assert(g.skip(g.len() - 1 - (g_end - i)) =~= a.subrange(i - 1, g_end as int));
        below = counts;
        r.push(row);
        i = i - 1;
    }
    r
}

/// The lines that show how two lists of lines differ.
pub fn diff_lines(generated: &Vec<String>, deployed: &Vec<String>, styled: bool) -> (r: Vec<String>)
    ensures
        text::texts(r@) == line_changes(
            text::texts(generated@),
            text::texts(deployed@),
            styled,
        ),
{
    let ghost a = text::texts(generated@);
    let ghost b = text::texts(deployed@);
    let mut head: usize = 0;
    while head < generated.len() && head < deployed.len() && text::str_eq(
        &generated[head],
        &deployed[head],
    )
        invariant
            a == text::texts(generated@),
            b == text::texts(deployed@),
            head <= a.len(),
            head <= b.len(),
            forall|i: int| 0 <= i < head ==> a[i] == b[i],
        decreases a.len() - head,
    {
        head = head + 1;
    }
    let ghost g = a.skip(head as int);
    let ghost d = b.skip(head as int);
    proof {
        lemma_shared_head(a, b, head as int);
    }
    let mut g_end: usize = generated.len();
    let mut d_end: usize = deployed.len();
    while g_end > head && d_end > head && text::str_eq(&generated[g_end - 1], &deployed[d_end - 1])
        invariant
            a == text::texts(generated@),
            b == text::texts(deployed@),
            g == a.skip(head as int),
            d == b.skip(head as int),
            head <= g_end <= a.len(),
            head <= d_end <= b.len(),
            a.len() - g_end == b.len() - d_end,
            forall|i: int|
                0 <= i < a.len() - g_end ==> #[trigger] from_end(g, i) == from_end(d, i),
        decreases g_end,
    {
        assert(from_end(g, a.len() - g_end) == a[g_end - 1]);
        assert(from_end(d, b.len() - d_end) == b[d_end - 1]);
        g_end = g_end - 1;
        d_end = d_end - 1;
    }
    let ghost tail = a.len() - g_end;
    proof {
        if g_end > head && d_end > head {
            assert(from_end(g, tail) == a[g_end - 1]);
            assert(from_end(d, tail) == b[d_end - 1]);
        }
        lemma_shared_tail(g, d, tail);
    }
    let ghost gm = g.take(g.len() - tail);
    let ghost dm = d.take(d.len() - tail);
    let choices = removals(generated, deployed, head, g_end, d_end);
    assert(gm =~= a.subrange(head as int, g_end as int));
    assert(dm =~= b.subrange(head as int, d_end as int));
    let mut r: Vec<String> = Vec::new();
    let mut i: usize = head;
    let mut j: usize = head;
    let ghost shown = Reading::Shown(styled);
    assert(gm.skip(0) =~= gm);
    assert(dm.skip(0) =~= dm);
    assert(text::texts(r@) + read_steps(script(gm, dm), shown) =~= read_steps(
        script(gm, dm),
        shown,
    ));
    while i < g_end || j < d_end
        invariant
            a == text::texts(generated@),
            b == text::texts(deployed@),
            gm == a.subrange(head as int, g_end as int),
            dm == b.subrange(head as int, d_end as int),
            head <= i <= g_end <= a.len(),
            head <= j <= d_end <= b.len(),
            shown == Reading::Shown(styled),
            chosen(choices@, gm, dm),
            text::texts(r@) + read_steps(script(gm.skip(i - head), dm.skip(j - head)), shown)
                == read_steps(script(gm, dm), shown),
        decreases g_end - i + (d_end - j),
    {
        let ghost g_rest = gm.skip(i - head);
        let ghost d_rest = dm.skip(j - head);
        proof {
            if i < g_end {
                assert(g_rest[0] == a[i as int]);
                assert(g_rest.skip(1) =~= gm.skip(i + 1 - head));
            }
            if j < d_end {
                assert(d_rest[0] == b[j as int]);
                assert(d_rest.skip(1) =~= dm.skip(j + 1 - head));
            }
        }
        if i < g_end && j < d_end && text::str_eq(&generated[i], &deployed[j]) {
            proof {
                let rest = script(g_rest.skip(1), d_rest.skip(1));
                lemma_read_first(LineStep::Keep(g_rest[0]), rest, shown);
                assert(seq![] + read_steps(rest, shown) =~= read_steps(rest, shown));
            }
            i = i + 1;
            j = j + 1;
        } else if i == g_end || (j < d_end && choices[g_end - 1 - i][d_end - 1 - j]) {
            let line = output::paint(&text::concat2("-", &deployed[j]), Tone::Red, styled);
            proof {
                if i < g_end {
                    assert(row_chosen(choices@[g_end - 1 - i]@, g_rest, dm));
                    assert(choices@[g_end - 1 - i]@[d_end - 1 - j] == removes_first(
                        g_rest,
                        d_rest,
                    ));
                }
                let rest = script(g_rest, d_rest.skip(1));
                lemma_read_first(LineStep::Remove(d_rest[0]), rest, shown);
                text::lemma_texts_push(r@, line);
                assert(text::texts(r@).push(line@) + read_steps(rest, shown) =~= text::texts(r@)
                    + (seq![minus(d_rest[0], styled)] + read_steps(rest, shown)));
            }
            r.push(line);
            j = j + 1;
        } else {
            let line = output::paint(&text::concat2("+", &generated[i]), Tone::Green, styled);
            proof {
                if j < d_end {
                    assert(row_chosen(choices@[g_end - 1 - i]@, g_rest, dm));
                    assert(choices@[g_end - 1 - i]@[d_end - 1 - j] == removes_first(
                        g_rest,
                        d_rest,
                    ));
                }
                let rest = script(g_rest.skip(1), d_rest);
                lemma_read_first(LineStep::Add(g_rest[0]), rest, shown);
                text::lemma_texts_push(r@, line);
                assert(text::texts(r@).push(line@) + read_steps(rest, shown) =~= text::texts(r@)
                    + (seq![plus(g_rest[0], styled)] + read_steps(rest, shown)));
            }
            r.push(line);
            i = i + 1;
        }
    }
    proof {
        let first = kept_steps(a.take(head as int));
        let last = kept_steps(g.skip(g.len() - tail));
        lemma_read_concat(first, script(gm, dm), shown);
        lemma_read_concat(first + script(gm, dm), last, shown);
        lemma_read_kept(a.take(head as int), shown);
        lemma_read_kept(g.skip(g.len() - tail), shown);
        assert(gm.skip(i - head).len() == 0);
        assert(dm.skip(j - head).len() == 0);
        assert(text::texts(r@) =~= read_steps(script(gm, dm), shown));
        assert(text::texts(r@) =~= line_changes(a, b, styled));
    }
    r
}

// ---------------------------------------------------------------------------
// Ignored lines
// ---------------------------------------------------------------------------

/// Whether `regex::Regex` finds a pattern in a line; `None` where the pattern
/// is not a regular expression.
pub uninterp spec fn pattern_found(pattern: Seq<char>, line: Seq<char>) -> Option<bool>;

/// `regex::Regex::is_match`, on a pattern that `regex::Regex::new` compiles.
#[verifier::external_body]
fn find_pattern(pattern: &str, line: &str) -> (r: Option<bool>)
    ensures
        r == pattern_found(pattern@, line@),
{
    regex::Regex::new(pattern).ok().map(|re| re.is_match(line))
}

/// Whether one of the patterns is found in a line.
pub open spec fn ignored_line(line: Seq<char>, patterns: Seq<Seq<char>>) -> bool {
    exists|i: int| 0 <= i < patterns.len() && pattern_found(#[trigger] patterns[i], line) == Some(true)
}

/// The lines, among the first `n`, in which no pattern is found.
pub open spec fn kept_lines(lines: Seq<Seq<char>>, patterns: Seq<Seq<char>>, n: nat) -> Seq<
    Seq<char>,
>
    decreases n,
{
    if n == 0 || n > lines.len() {
        seq![]
    } else {
        let before = kept_lines(lines, patterns, (n - 1) as nat);
        if ignored_line(lines[n - 1], patterns) {
            before
        } else {
            before.push(lines[n - 1])
        }
    }
}

fn is_ignored_line(line: &str, patterns: &[String]) -> (r: bool)
    ensures
        r == ignored_line(line@, text::texts(patterns@)),
{
    let ghost p = text::texts(patterns@);
    let mut i: usize = 0;
    while i < patterns.len()
        invariant
            i <= patterns@.len(),
            p == text::texts(patterns@),
            forall|k: int| 0 <= k < i ==> pattern_found(#[trigger] p[k], line@) != Some(true),
        decreases patterns@.len() - i,
    {
        assert(p[i as int] == patterns@[i as int]@);
        match find_pattern(&patterns[i], line) {
            Some(true) => {
                return true;
            },
            _ => {},
        }
        i = i + 1;
    }
    false
}

/// The lines of a text in which no pattern is found.
pub fn keep_lines(s: &str, patterns: &[String]) -> (r: Vec<String>)
    ensures
        text::texts(r@) == kept_lines(
            text::lines(s@),
            text::texts(patterns@),
            text::lines(s@).len(),
        ),
{
    let lines = text::lines_of(s);
    let ghost m = text::texts(lines@);
    let ghost p = text::texts(patterns@);
    let mut r: Vec<String> = Vec::new();
    let mut i: usize = 0;
    assert(text::texts(r@) =~= seq![]);
    while i < lines.len()
        invariant
            i <= lines@.len(),
            m == text::texts(lines@),
            p == text::texts(patterns@),
            text::texts(r@) == kept_lines(m, p, i as nat),
        decreases lines@.len() - i,
    {
        assert(m[i as int] == lines@[i as int]@);
        if !is_ignored_line(&lines[i], patterns) {
            let line = text::owned(&lines[i]);
            proof {
                text::lemma_texts_push(r@, line);
            }
            r.push(line);
        }
        i = i + 1;
    }
    r
}

/// The lines that show how two texts differ, ignored lines left out.
pub open spec fn text_changes(
    generated: Seq<char>,
    deployed: Seq<char>,
    patterns: Seq<Seq<char>>,
    styled: bool,
) -> Seq<Seq<char>> {
    let g = text::lines(generated);
    let d = text::lines(deployed);
    line_changes(kept_lines(g, patterns, g.len()), kept_lines(d, patterns, d.len()), styled)
}

/// Two texts are shown with as many lines in colour as without.
pub proof fn law_text_changes_styling(
    generated: Seq<char>,
    deployed: Seq<char>,
    patterns: Seq<Seq<char>>,
)
    ensures
        text_changes(generated, deployed, patterns, true).len() == text_changes(
            generated,
            deployed,
            patterns,
            false,
        ).len(),
{
    let g = text::lines(generated);
    let d = text::lines(deployed);
    let kept = kept_lines(g, patterns, g.len());
    let other = kept_lines(d, patterns, d.len());
    law_line_steps(kept, other, true);
    law_line_steps(kept, other, false);
}

/// Compares two texts line by line.
pub fn text_diff_styled(
    generated: &str,
    deployed: &str,
    ignore_patterns: &[String],
    styled: bool,
) -> (r: DiffResult)
    ensures
        r@ == diff::outcome(
            text_changes(generated@, deployed@, text::texts(ignore_patterns@), styled),
        ),
{
    let g = keep_lines(generated, ignore_patterns);
    let d = keep_lines(deployed, ignore_patterns);
    let lines = diff_lines(&g, &d, styled);
    if lines.len() == 0 {
        DiffResult::no_changes()
    } else {
        DiffResult::with_changes(text::join(&lines, "\n"))
    }
}

/// Compares two texts line by line, in colour where the terminal has it.
pub fn text_diff(generated: &str, deployed: &str, ignore_patterns: &[String]) -> (r: DiffResult)
    ensures
        exists|styled: bool|
            r@ == diff::outcome(
                #[trigger] text_changes(
                    generated@,
                    deployed@,
                    text::texts(ignore_patterns@),
                    styled,
                ),
            ),
{
    text_diff_styled(generated, deployed, ignore_patterns, output::colors_enabled())
}

/// How many lines begin with a sign.
pub open spec fn sign_count(lines: Seq<Seq<char>>, sign: char) -> nat
    decreases lines.len(),
{
    if lines.len() == 0 {
        0
    } else {
        (if lines[0].len() > 0 && lines[0][0] == sign {
            1nat
        } else {
            0
        }) + sign_count(lines.skip(1), sign)
    }
}

/// A line that is shown is one of a side, behind the sign of that side.
pub open spec fn shown_from(
    line: Seq<char>,
    generated: Seq<Seq<char>>,
    deployed: Seq<Seq<char>>,
) -> bool {
    &&& line.len() > 0
    &&& line[0] == '+' ==> generated.contains(line.skip(1))
    &&& line[0] == '-' ==> deployed.contains(line.skip(1))
    &&& line[0] == '+' || line[0] == '-'
}

proof fn lemma_signs(steps: Seq<LineStep>)
    ensures
        ({
            let shown = read_steps(steps, Reading::Shown(false));
            let generated = read_steps(steps, Reading::Generated);
            let deployed = read_steps(steps, Reading::Deployed);
            let kept = read_steps(steps, Reading::Kept);
            &&& sign_count(shown, '+') + kept.len() == generated.len()
            &&& sign_count(shown, '-') + kept.len() == deployed.len()
            &&& forall|i: int|
                0 <= i < shown.len() ==> shown_from(#[trigger] shown[i], generated, deployed)
        }),
    decreases steps.len(),
{
    if steps.len() > 0 {
        let rest = steps.skip(1);
        lemma_signs(rest);
        reveal_strlit("+");
        reveal_strlit("-");
        let shown = read_steps(steps, Reading::Shown(false));
        let generated = read_steps(steps, Reading::Generated);
        let deployed = read_steps(steps, Reading::Deployed);
        let later = read_steps(rest, Reading::Shown(false));
        let g = read_steps(rest, Reading::Generated);
        let d = read_steps(rest, Reading::Deployed);
        let own_g = step_lines(steps[0], Reading::Generated);
        let own_d = step_lines(steps[0], Reading::Deployed);
        assert(generated == own_g + g);
        assert(deployed == own_d + d);
        assert forall|i: int| 0 <= i < later.len() implies shown_from(
            #[trigger] later[i],
            generated,
            deployed,
        ) by {
            let bare = later[i].skip(1);
            if g.contains(bare) {
                assert(generated[own_g.len() + g.index_of(bare)] == bare);
            }
            if d.contains(bare) {
                assert(deployed[own_d.len() + d.index_of(bare)] == bare);
            }
        }
        match steps[0] {
            LineStep::Keep(line) => {
                assert(shown =~= later);
            },
            LineStep::Remove(line) => {
                assert(shown =~= seq![minus(line, false)] + later);
                assert(shown.skip(1) =~= later);
                assert(minus(line, false).skip(1) =~= line);
                assert(deployed[0] == line);
                assert forall|i: int| 0 <= i < shown.len() implies shown_from(
                    #[trigger] shown[i],
                    generated,
                    deployed,
                ) by {
                    if i > 0 {
                        assert(shown[i] == later[i - 1]);
                    }
                }
            },
            LineStep::Add(line) => {
                assert(shown =~= seq![plus(line, false)] + later);
                assert(shown.skip(1) =~= later);
                assert(plus(line, false).skip(1) =~= line);
                assert(generated[0] == line);
                assert forall|i: int| 0 <= i < shown.len() implies shown_from(
                    #[trigger] shown[i],
                    generated,
                    deployed,
                ) by {
                    if i > 0 {
                        assert(shown[i] == later[i - 1]);
                    }
                }
            },
        }
    }
}

/// Every line that is shown is a generated one behind a plus or a deployed one
/// behind a minus, and all lines but those of a longest common list are shown, each
/// behind the sign of its side.
pub proof fn law_line_signs(generated: Seq<Seq<char>>, deployed: Seq<Seq<char>>)
    ensures
        ({
            let shown = line_changes(generated, deployed, false);
            let common = common_len(generated, deployed);
            &&& sign_count(shown, '+') == generated.len() - common
            &&& sign_count(shown, '-') == deployed.len() - common
            &&& forall|i: int|
                0 <= i < shown.len() ==> shown_from(#[trigger] shown[i], generated, deployed)
        }),
{
    law_line_steps(generated, deployed, false);
    lemma_signs(line_steps(generated, deployed));
}

} // verus!
