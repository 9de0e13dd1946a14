//! The table of packages.
use crate::nickel::schema;
use crate::nickel::schema::OrderPackage;
use crate::text;
use vstd::prelude::*;
use vstd::string::*;

verus! {

/// A platform of the table: operating system, architecture and label.
pub open spec fn profile(i: int) -> (Seq<char>, Seq<char>, Seq<char>) {
    if i == 0 {
        ("linux"@, "x86_64"@, "linux-x86_64"@)
    } else if i == 1 {
        ("darwin"@, "x86_64"@, "macos-x86_64"@)
    } else {
        ("darwin"@, "aarch64"@, "macos-aarch64"@)
    }
}

/// How many platforms the table has.
pub const PROFILES: usize = 3;

fn profile_at(i: usize) -> (r: (&'static str, &'static str, &'static str))
    ensures
        (r.0@, r.1@, r.2@) == profile(i as int),
{
    if i == 0 {
        ("linux", "x86_64", "linux-x86_64")
    } else if i == 1 {
        ("darwin", "x86_64", "macos-x86_64")
    } else {
        ("darwin", "aarch64", "macos-aarch64")
    }
}

/// A package and the platforms of the table on which it applies.
#[derive(Debug)]
pub struct TableRow {
    pub name: String,
    pub matches: Vec<bool>,
}

/// A row of the table as mathematics sees it.
pub struct RowModel {
    pub name: Seq<char>,
    pub matches: Seq<bool>,
}

impl View for TableRow {
    type V = RowModel;

    open spec fn view(&self) -> RowModel {
        RowModel { name: self.name@, matches: self.matches@ }
    }
}

/// What a list of rows holds.
pub open spec fn rows_model(rows: Seq<TableRow>) -> Seq<RowModel> {
    rows.map_values(|r: TableRow| r@)
}

/// The row of a package.
pub open spec fn package_row(name: Seq<char>, order: OrderPackage) -> RowModel {
    RowModel {
        name,
        matches: Seq::new(
            PROFILES as nat,
            |i: int| schema::holds_on_platform(order.blend.when, profile(i).0, profile(i).1),
        ),
    }
}

/// Finds the platforms on which a package applies.
pub fn table_row(name: &str, order: &OrderPackage) -> (r: TableRow)
    ensures
        r@ == package_row(name@, *order),
{
    let mut matches: Vec<bool> = Vec::new();
    let mut i: usize = 0;
    while i < PROFILES
        invariant
            i <= PROFILES,
            matches@.len() == i,
            forall|k: int|
                0 <= k < i ==> #[trigger] matches@[k] == schema::holds_on_platform(
                    order.blend.when,
                    profile(k).0,
                    profile(k).1,
                ),
        decreases PROFILES - i,
    {
        let p = profile_at(i);
        matches.push(order.applies_on_platform(p.0, p.1));
        i = i + 1;
    }
    let r = TableRow { name: text::owned(name), matches };
    assert(r@.matches =~= package_row(name@, *order).matches);
    r
}

/// How many of the platforms match.
pub open spec fn match_count(matches: Seq<bool>) -> nat
    decreases matches.len(),
{
    if matches.len() == 0 {
        0
    } else {
        match_count(matches.drop_last()) + if matches.last() {
            1nat
        } else {
            0
        }
    }
}

fn count_matches(matches: &Vec<bool>) -> (r: usize)
    ensures
        r == match_count(matches@),
{
    let mut n: usize = 0;
    let mut i: usize = 0;
    assert(matches@.take(0) =~= Seq::<bool>::empty());
    while i < matches.len()
        invariant
            i <= matches@.len(),
            n <= i,
            n == match_count(matches@.take(i as int)),
        decreases matches@.len() - i,
    {
        assert(matches@.take(i + 1).drop_last() =~= matches@.take(i as int));
        if matches[i] {
            n = n + 1;
        }
        i = i + 1;
    }
    assert(matches@.take(i as int) =~= matches@);
    n
}

/// A row comes before another: the one with more platforms first, and by name
/// among those with as many.
pub open spec fn row_before(a: RowModel, b: RowModel) -> bool {
    let x = match_count(a.matches);
    let y = match_count(b.matches);
    x > y || (x == y && text::before(a.name, b.name))
}

/// Rows are in order.
pub open spec fn rows_in_order(rows: Seq<RowModel>) -> bool {
    forall|i: int, j: int|
        0 <= i < j < rows.len() ==> !row_before(#[trigger] rows[j], #[trigger] rows[i])
}

/// Of two rows with different names one comes before the other, and no row comes
/// before itself: in a table in which each package stands once, the order of the
/// rows is determined.
pub proof fn law_row_order(a: RowModel, b: RowModel)
    ensures
        !(row_before(a, b) && row_before(b, a)),
        a.name != b.name ==> row_before(a, b) || row_before(b, a),
        a == b ==> !row_before(a, b),
{
    text::law_order_total(a.name, b.name);
}

/// The order of rows is transitive.
pub proof fn law_row_transitive(a: RowModel, b: RowModel, c: RowModel)
    requires
        row_before(a, b),
        row_before(b, c),
    ensures
        row_before(a, c),
{
    if match_count(a.matches) == match_count(b.matches) && match_count(b.matches) == match_count(
        c.matches,
    ) {
        text::law_order_transitive(a.name, b.name, c.name);
    }
}

fn goes_before(a: &TableRow, b: &TableRow) -> (r: bool)
    ensures
        r == row_before(a@, b@),
{
    let x = count_matches(&a.matches);
    let y = count_matches(&b.matches);
    x > y || (x == y && text::comes_before(&a.name, &b.name))
}

proof fn lemma_insert_row(s: Seq<RowModel>, at: int, x: RowModel)
    requires
        0 <= at <= s.len(),
        rows_in_order(s),
        forall|k: int| 0 <= k < at ==> !row_before(x, #[trigger] s[k]),
        at < s.len() ==> row_before(x, s[at]),
    ensures
        rows_in_order(s.insert(at, x)),
{
    let now = s.insert(at, x);
    assert forall|k: int| at <= k < s.len() implies !row_before(#[trigger] s[k], x) by {
        law_row_order(x, s[k]);
        if k > at && row_before(s[k], x) {
            law_row_transitive(s[k], x, s[at]);
        }
    }
    assert forall|a: int, b: int| 0 <= a < b < now.len() implies !row_before(
        #[trigger] now[b],
        #[trigger] now[a],
    ) by {
        if b < at {
            assert(now[a] == s[a] && now[b] == s[b]);
        } else if b == at {
            assert(now[a] == s[a]);
        } else {
            assert(now[b] == s[b - 1]);
            if a < at {
                assert(now[a] == s[a]);
            } else if a > at {
                assert(now[a] == s[a - 1]);
            }
        }
    }
}

/// Puts the rows of the table in order.
pub fn sort_rows(rows: Vec<TableRow>) -> (r: Vec<TableRow>)
    ensures
        rows_in_order(rows_model(r@)),
        rows_model(r@).to_multiset() == rows_model(rows@).to_multiset(),
{
    let ghost m = rows_model(rows@);
    let mut left = rows;
    let mut r: Vec<TableRow> = Vec::new();
    let ghost mut n: int = 0;
    assert(rows_model(r@) =~= m.take(0));
    assert(rows_model(left@) =~= m.skip(0));
    while left.len() > 0
        invariant
            0 <= n <= m.len(),
            left@.len() == m.len() - n,
            rows_model(left@) == m.skip(n),
            rows_in_order(rows_model(r@)),
            rows_model(r@).to_multiset() == m.take(n).to_multiset(),
        decreases left@.len(),
    {
        let ghost rest = rows_model(left@);
        let row = left.remove(0);
        let ghost s = rows_model(r@);
        let ghost x = row@;
        assert(rest[0] == x);
        assert(rows_model(left@) =~= rest.skip(1));
        assert(rest.skip(1) =~= m.skip(n + 1));
        let mut at: usize = 0;
        while at < r.len() && !goes_before(&row, &r[at])
            invariant
                x == row@,
                at <= r@.len(),
                s == rows_model(r@),
                forall|k: int| 0 <= k < at ==> !row_before(x, #[trigger] s[k]),
            decreases r@.len() - at,
        {
            assert(s[at as int] == r@[at as int]@);
            at = at + 1;
        }
        proof {
            if at < s.len() {
                assert(s[at as int] == r@[at as int]@);
            }
            lemma_insert_row(s, at as int, x);
            vstd::seq_lib::to_multiset_insert(s, at as int, x);
            vstd::seq_lib::to_multiset_build(m.take(n), x);
            assert(m.take(n + 1) =~= m.take(n).push(x));
            n = n + 1;
        }
        r.insert(at, row);
        assert(rows_model(r@) =~= s.insert(at as int, x));
    }
    assert(m.take(n) =~= m);
    r
}

// ---------------------------------------------------------------------------
// Rendering
// ---------------------------------------------------------------------------

/// The cell of a platform.
pub open spec fn cell(matched: bool, label: Seq<char>) -> Seq<char> {
    if matched {
        "<td><code>"@ + label + "</code></td>"@
    } else {
        "<td><code>&nbsp;...</code></td>"@
    }
}

/// The first `n` cells of a row.
pub open spec fn cells(matches: Seq<bool>, n: nat) -> Seq<char>
    decreases n,
{
    if n == 0 || n > matches.len() {
        seq![]
    } else {
        cells(matches, (n - 1) as nat) + cell(matches[n - 1], profile(n - 1).2)
    }
}

/// A row of the table.
pub open spec fn row_text(row: RowModel) -> Seq<char> {
    "\n<tr><td><a href=\"orders/"@ + row.name + "\">"@ + row.name + "</a></td>"@ + cells(
        row.matches,
        row.matches.len(),
    ) + "</tr>"@
}

/// The first `n` rows of the table.
pub open spec fn body_text(rows: Seq<RowModel>, n: nat) -> Seq<char>
    decreases n,
{
    if n == 0 || n > rows.len() {
        seq![]
    } else {
        body_text(rows, (n - 1) as nat) + row_text(rows[n - 1])
    }
}

/// The table.
pub open spec fn table_text(rows: Seq<RowModel>) -> Seq<char> {
    "<table><thead><tr><th>package</th><th colspan=\"3\">profiles</th></tr></thead><tbody>"@
        + body_text(rows, rows.len()) + "\n</tbody></table>\n"@
}

fn render_row(row: &TableRow) -> (r: String)
    ensures
        r@ == row_text(row@),
{
    let link = text::concat3("\n<tr><td><a href=\"orders/", &row.name, "\">");
    let ghost head = "\n<tr><td><a href=\"orders/"@ + row.name@ + "\">"@ + row.name@
        + "</a></td>"@;
    let mut out = text::concat3(&link, &row.name, "</a></td>");
    assert(out@ =~= head + cells(row.matches@, 0));
    let mut i: usize = 0;
    while i < row.matches.len()
        invariant
            i <= row.matches@.len(),
            out@ == head + cells(row.matches@, i as nat),
        decreases row.matches@.len() - i,
    {
        let c = if row.matches[i] {
            text::concat3("<td><code>", profile_at(i).2, "</code></td>")
        } else {
            text::owned("<td><code>&nbsp;...</code></td>")
        };
        out = text::concat2(&out, &c);
        assert(out@ =~= head + (cells(row.matches@, i as nat) + c@));
        i = i + 1;
    }
    text::concat2(&out, "</tr>")
}

/// Renders the table of packages.
pub fn render_table(rows: &Vec<TableRow>) -> (r: String)
    ensures
        r@ == table_text(rows_model(rows@)),
{
    let ghost m = rows_model(rows@);
    let ghost head =
        "<table><thead><tr><th>package</th><th colspan=\"3\">profiles</th></tr></thead><tbody>"@;
    let mut out = text::owned(
        "<table><thead><tr><th>package</th><th colspan=\"3\">profiles</th></tr></thead><tbody>",
    );
    assert(out@ =~= head + body_text(m, 0));
    let mut i: usize = 0;
    while i < rows.len()
        invariant
            i <= rows@.len(),
            m == rows_model(rows@),
            out@ == head + body_text(m, i as nat),
        decreases rows@.len() - i,
    {
        let row = render_row(&rows[i]);
        out = text::concat2(&out, &row);
        assert(m[i as int] == rows@[i as int]@);
        assert(out@ =~= head + (body_text(m, i as nat) + row@));
        i = i + 1;
    }
    text::concat2(&out, "\n</tbody></table>\n")
}

/// The row of a package says of each platform of the table whether the condition
/// of the package lists its operating system and its architecture.
pub proof fn law_platforms(name: Seq<char>, order: OrderPackage)
    ensures
        ({
            let row = package_row(name, order);
            let fits = |os: Seq<char>, arch: Seq<char>| match order.blend.when {
                Some(w) => schema::listed(w.os, os) && schema::listed(w.arch, arch),
                None => true,
            };
            &&& row.name == name
            &&& row.matches == seq![
                fits("linux"@, "x86_64"@),
                fits("darwin"@, "x86_64"@),
                fits("darwin"@, "aarch64"@),
            ]
        }),
{
    schema::law_condition(order.blend.when, "linux"@, "x86_64"@, ""@);
    schema::law_condition(order.blend.when, "darwin"@, "x86_64"@, ""@);
    schema::law_condition(order.blend.when, "darwin"@, "aarch64"@, ""@);
}

/// Rows are ordered by how often a platform matches.
pub proof fn law_match_count(matches: Seq<bool>)
    ensures
        match_count(matches) == matches.to_multiset().count(true),
    decreases matches.len(),
{
    broadcast use vstd::seq_lib::group_to_multiset_ensures;

    if matches.len() > 0 {
        law_match_count(matches.drop_last());
        assert(matches =~= matches.drop_last().push(matches.last()));
    }
}

/// A cell shows its label exactly where the platform matches.
pub proof fn law_cell(matched: bool, label: Seq<char>)
    requires
        label != "&nbsp;..."@,
    ensures
        cell(matched, label) == "<td><code>"@ + label + "</code></td>"@ <==> matched,
{
    reveal_strlit("<td><code>&nbsp;...</code></td>");
    reveal_strlit("<td><code>");
    reveal_strlit("</code></td>");
    reveal_strlit("&nbsp;...");
    let none = "<td><code>&nbsp;...</code></td>"@;
    assert(none =~= "<td><code>"@ + "&nbsp;..."@ + "</code></td>"@);
    let full = "<td><code>"@ + label + "</code></td>"@;
    if !matched && full == none {
        let n = "<td><code>"@.len() as int;
        assert(full.subrange(n, n + label.len()) =~= label);
        assert(none.subrange(n, n + "&nbsp;..."@.len()) =~= "&nbsp;..."@);
    }
}

/// The row of a package links to its order by its name and shows, in this order,
/// the platforms on which it applies: Linux, and macOS on its two architectures.
pub proof fn law_row_text(name: Seq<char>, order: OrderPackage)
    ensures
        ({
            let row = package_row(name, order);
            let m = row.matches;
            row_text(row) == "\n<tr><td><a href=\"orders/"@ + name + "\">"@ + name + "</a></td>"@ + (
            cell(m[0], "linux-x86_64"@) + cell(m[1], "macos-x86_64"@) + cell(
                m[2],
                "macos-aarch64"@,
            )) + "</tr>"@
        }),
{
    let row = package_row(name, order);
    let m = row.matches;
    reveal_with_fuel(cells, 4);
    assert(m.len() == 3);
    assert(cells(m, 3) =~= cell(m[0], "linux-x86_64"@) + cell(m[1], "macos-x86_64"@) + cell(
        m[2],
        "macos-aarch64"@,
    ));
}

/// A table of more rows holds the table of the first ones, and behind it the row of
/// each of the others, in their order.
pub proof fn law_body_rows(rows: Seq<RowModel>, row: RowModel)
    ensures
        body_text(rows.push(row), rows.len() + 1) == body_text(rows, rows.len()) + row_text(row),
{
    lemma_body_prefix(rows, rows.push(row), rows.len());
}

proof fn lemma_body_prefix(a: Seq<RowModel>, b: Seq<RowModel>, n: nat)
    requires
        n <= a.len() <= b.len(),
        forall|i: int| 0 <= i < n ==> a[i] == b[i],
    ensures
        body_text(a, n) == body_text(b, n),
    decreases n,
{
    if n > 0 {
        lemma_body_prefix(a, b, (n - 1) as nat);
    }
}

} // verus!
