//! What the status command shows.
use crate::commands::view::LinkState;
use crate::compose;
use crate::context;
use crate::context::Context;
use crate::nickel::schema;
use crate::nickel::schema::OrderPackage;
use crate::output;
use crate::output::Tone;
use crate::sync;
use crate::sync::shorten_path;
use crate::text;
use vstd::prelude::*;
use vstd::string::*;
use vstd::utf8::*;

verus! {

/// The width of the column of packages.
pub const PACKAGE_WIDTH: usize = 20;

/// The width of the column of files.
pub const FILE_WIDTH: usize = 20;

/// The width of the column of states.
pub const STATUS_WIDTH: usize = 10;

/// The width of the column that tells whether an entry differs.
pub const DIFF_WIDTH: usize = 5;

/// The length of the line below the headings.
pub const RULE_LENGTH: usize = 95;

/// A cell of a column.
pub open spec fn column(s: Seq<char>, width: nat, tone: Tone, styled: bool) -> Seq<char> {
    output::painted(text::padded(s, width), tone, styled)
}

fn column_text(s: &str, width: usize, tone: Tone, styled: bool) -> (r: String)
    ensures
        r@ == column(s@, width as nat, tone, styled),
{
    output::paint(&text::pad(s, width), tone, styled)
}

/// A row of five cells.
pub open spec fn row_of(
    a: Seq<char>,
    b: Seq<char>,
    c: Seq<char>,
    d: Seq<char>,
    e: Seq<char>,
) -> Seq<char> {
    a + " "@ + b + " "@ + c + " "@ + d + " "@ + e
}

fn make_row(a: &str, b: &str, c: &str, d: &str, e: &str) -> (r: String)
    ensures
        r@ == row_of(a@, b@, c@, d@, e@),
{
    let two = text::concat3(a, " ", b);
    let three = text::concat3(&two, " ", c);
    let four = text::concat3(&three, " ", d);
    let r = text::concat3(&four, " ", e);
    assert(r@ =~= row_of(a@, b@, c@, d@, e@));
    r
}

/// The line that says how many packages there are.
pub fn found_line(packages: usize) -> (r: String)
    ensures
        r@ == "Found "@ + text::digits(packages as nat, 10) + " packages in orders/"@,
{
    text::concat3("Found ", &text::decimal(packages), " packages in orders/")
}

/// The headings of the columns.
pub fn headings(styled: bool) -> (r: String)
    ensures
        r@ == row_of(
            column("PACKAGE"@, PACKAGE_WIDTH as nat, Tone::Bold, styled),
            column("FILE"@, FILE_WIDTH as nat, Tone::Bold, styled),
            column("STATUS"@, STATUS_WIDTH as nat, Tone::Bold, styled),
            column("DIFF"@, DIFF_WIDTH as nat, Tone::Bold, styled),
            output::painted("TARGET"@, Tone::Bold, styled),
        ),
{
    make_row(
        &column_text("PACKAGE", PACKAGE_WIDTH, Tone::Bold, styled),
        &column_text("FILE", FILE_WIDTH, Tone::Bold, styled),
        &column_text("STATUS", STATUS_WIDTH, Tone::Bold, styled),
        &column_text("DIFF", DIFF_WIDTH, Tone::Bold, styled),
        &output::paint("TARGET", Tone::Bold, styled),
    )
}

/// The line below the headings.
pub fn rule() -> (r: String)
    ensures
        r@ == text::repeated("-"@, RULE_LENGTH as nat),
{
    text::repeat("-", RULE_LENGTH)
}

/// The row of a package or of a file entry that does not apply.
pub open spec fn skipped_row(pkg: Seq<char>, name: Seq<char>, styled: bool) -> Seq<char> {
    row_of(
        column(pkg, PACKAGE_WIDTH as nat, Tone::Dim, styled),
        column(name, FILE_WIDTH as nat, Tone::Dim, styled),
        column("skipped"@, STATUS_WIDTH as nat, Tone::Dim, styled),
        column("\u{b7}"@, DIFF_WIDTH as nat, Tone::Dim, styled),
        output::painted("(condition not met)"@, Tone::Dim, styled),
    )
}

fn make_skipped(pkg: &str, name: &str, styled: bool) -> (r: String)
    ensures
        r@ == skipped_row(pkg@, name@, styled),
{
    make_row(
        &column_text(pkg, PACKAGE_WIDTH, Tone::Dim, styled),
        &column_text(name, FILE_WIDTH, Tone::Dim, styled),
        &column_text("skipped", STATUS_WIDTH, Tone::Dim, styled),
        &column_text("\u{b7}", DIFF_WIDTH, Tone::Dim, styled),
        &output::paint("(condition not met)", Tone::Dim, styled),
    )
}

/// The row of a package that does not apply.
pub fn skipped_package(pkg: &str, styled: bool) -> (r: String)
    ensures
        r@ == skipped_row(pkg@, "-"@, styled),
{
    make_skipped(pkg, "-", styled)
}

/// The row of a file entry that does not apply: only a verbose run shows it. The
/// first entry of a package names the package.
pub fn skipped_file(pkg: &str, name: &str, first: bool, verbose: bool, styled: bool) -> (r: Option<
    String,
>)
    ensures
        match r {
            Some(row) => verbose && row@ == skipped_row(
                if first {
                    pkg@
                } else {
                    Seq::empty()
                },
                name@,
                styled,
            ),
            None => !verbose,
        },
{
    if !verbose {
        return None;
    }
    if first {
        Some(make_skipped(pkg, name, styled))
    } else {
        proof {
            reveal_strlit("");
            assert(""@ =~= Seq::<char>::empty());
        }
        Some(make_skipped("", name, styled))
    }
}

/// The row of a package that cannot be evaluated.
pub fn failed_package(pkg: &str, error: &str, styled: bool) -> (r: String)
    ensures
        r@ == row_of(
            column(pkg@, PACKAGE_WIDTH as nat, Tone::Red, styled),
            text::padded("-"@, FILE_WIDTH as nat),
            column("error"@, STATUS_WIDTH as nat, Tone::Red, styled),
            column("\u{b7}"@, DIFF_WIDTH as nat, Tone::Dim, styled),
            output::painted(error@, Tone::Red, styled),
        ),
{
    make_row(
        &column_text(pkg, PACKAGE_WIDTH, Tone::Red, styled),
        &text::pad("-", FILE_WIDTH),
        &column_text("error", STATUS_WIDTH, Tone::Red, styled),
        &column_text("\u{b7}", DIFF_WIDTH, Tone::Dim, styled),
        &output::paint(error, Tone::Red, styled),
    )
}

// ---------------------------------------------------------------------------
// File entries
// ---------------------------------------------------------------------------

/// How a file entry stands at one of its targets.
#[derive(Debug, Clone, Copy)]
pub struct Standing {
    /// Whether the entry is to be linked.
    pub symlink: bool,
    pub link: LinkState,
    /// Whether something stands at the target, a broken link counted.
    pub present: bool,
    /// Whether the target is there.
    pub exists: bool,
    /// Whether the target is reached through a link, or a file of it is one,
    /// though the entry is not to be linked.
    pub unexpected: bool,
    /// Whether source and target are in sync, where that can be told.
    pub in_sync: Option<bool>,
}

/// The state that is shown of an entry, with its tone.
pub open spec fn state_shown(s: Standing) -> (Seq<char>, Tone) {
    if s.symlink {
        if s.link == LinkState::Current {
            ("linked"@, Tone::Green)
        } else if s.present {
            ("linked"@, Tone::Yellow)
        } else {
            ("pending"@, Tone::Yellow)
        }
    } else if s.exists {
        if s.unexpected {
            ("symlinked"@, Tone::Yellow)
        } else {
            ("deployed"@, Tone::Green)
        }
    } else {
        ("pending"@, Tone::Yellow)
    }
}

/// The mark that tells whether an entry differs, with its tone.
pub open spec fn mark_shown(s: Standing) -> (Seq<char>, Tone) {
    let same = ("\u{2713}"@, Tone::Green);
    let differs = ("\u{2260}"@, Tone::Yellow);
    let unknown = ("\u{b7}"@, Tone::Dim);
    if s.symlink {
        if s.link == LinkState::Current {
            same
        } else if s.present {
            differs
        } else {
            unknown
        }
    } else if s.exists {
        match s.in_sync {
            Some(true) => if s.unexpected {
                differs
            } else {
                same
            },
            Some(false) => differs,
            None => unknown,
        }
    } else {
        unknown
    }
}

/// How many bytes of a name are shown where it is too long.
pub const NAME_BYTES: usize = 17;

/// A name can be shown: where it is too long, its first bytes end with a
/// character.
pub open spec fn name_fits(name: Seq<char>) -> bool {
    encode_utf8(name).len() > FILE_WIDTH ==> is_char_boundary(
        encode_utf8(name),
        NAME_BYTES as int,
    )
}

/// A name that is cut short: what its first bytes hold, and dots.
pub open spec fn cut_name(name: Seq<char>) -> Seq<char> {
    decode_utf8(encode_utf8(name).take(NAME_BYTES as int)) + "..."@
}

/// The name of an entry in its column: cut short where its encoding is longer
/// than the column, and with a slash behind it where it is a directory.
pub open spec fn name_shown(name: Seq<char>, directory: bool) -> Seq<char> {
    text::padded(
        if encode_utf8(name).len() > FILE_WIDTH {
            cut_name(name)
        } else if directory {
            name + "/"@
        } else {
            name
        },
        FILE_WIDTH as nat,
    )
}

/// The row of a file entry at one of its targets. The first row of a package
/// names the package.
pub open spec fn entry_row(
    pkg: Seq<char>,
    name: Seq<char>,
    target: Seq<char>,
    home: Seq<char>,
    directory: bool,
    first: bool,
    s: Standing,
    styled: bool,
) -> Seq<char> {
    row_of(
        if first {
            column(pkg, PACKAGE_WIDTH as nat, Tone::Cyan, styled)
        } else {
            text::padded(Seq::empty(), PACKAGE_WIDTH as nat)
        },
        name_shown(name, directory),
        column(state_shown(s).0, STATUS_WIDTH as nat, state_shown(s).1, styled),
        column(mark_shown(s).0, DIFF_WIDTH as nat, mark_shown(s).1, styled),
        sync::shortened(target, home),
    )
}

fn show_state(s: &Standing) -> (r: (&'static str, Tone))
    ensures
        (r.0@, r.1) == state_shown(*s),
{
    if s.symlink {
        if s.link == LinkState::Current {
            ("linked", Tone::Green)
        } else if s.present {
            ("linked", Tone::Yellow)
        } else {
            ("pending", Tone::Yellow)
        }
    } else if s.exists {
        if s.unexpected {
            ("symlinked", Tone::Yellow)
        } else {
            ("deployed", Tone::Green)
        }
    } else {
        ("pending", Tone::Yellow)
    }
}

fn show_mark(s: &Standing) -> (r: (&'static str, Tone))
    ensures
        (r.0@, r.1) == mark_shown(*s),
{
    if s.symlink {
        if s.link == LinkState::Current {
            ("\u{2713}", Tone::Green)
        } else if s.present {
            ("\u{2260}", Tone::Yellow)
        } else {
            ("\u{b7}", Tone::Dim)
        }
    } else if s.exists {
        match s.in_sync {
            Some(same) => if same && !s.unexpected {
                ("\u{2713}", Tone::Green)
            } else {
                ("\u{2260}", Tone::Yellow)
            },
            None => ("\u{b7}", Tone::Dim),
        }
    } else {
        ("\u{b7}", Tone::Dim)
    }
}

fn show_name(name: &str, directory: bool) -> (r: String)
    requires
        name_fits(name@),
    ensures
        r@ == name_shown(name@, directory),
{
    let ghost bytes = encode_utf8(name@);
    if name.as_bytes().len() > FILE_WIDTH {
        let (head, _) = name.split_at(NAME_BYTES);
        proof {
            assert(bytes.subrange(0, NAME_BYTES as int) =~= bytes.take(NAME_BYTES as int));
            encode_utf8_decode_utf8(head@);
        }
        text::pad(&text::concat2(head, "..."), FILE_WIDTH)
    } else if directory {
        text::pad(&text::concat2(name, "/"), FILE_WIDTH)
    } else {
        text::pad(name, FILE_WIDTH)
    }
}

/// The row of a file entry at one of its targets.
pub fn show_entry(
    pkg: &str,
    name: &str,
    target: &str,
    home_dir: &str,
    directory: bool,
    first: bool,
    standing: &Standing,
    styled: bool,
) -> (r: String)
    requires
        name_fits(name@),
    ensures
        r@ == entry_row(pkg@, name@, target@, home_dir@, directory, first, *standing, styled),
{
    let package = if first {
        column_text(pkg, PACKAGE_WIDTH, Tone::Cyan, styled)
    } else {
        proof {
            reveal_strlit("");
            assert(""@ =~= Seq::<char>::empty());
        }
        text::pad("", PACKAGE_WIDTH)
    };
    let state = show_state(standing);
    let mark = show_mark(standing);
    make_row(
        &package,
        &show_name(name, directory),
        &column_text(state.0, STATUS_WIDTH, state.1, styled),
        &column_text(mark.0, DIFF_WIDTH, mark.1, styled),
        &shorten_path(target, home_dir),
    )
}

// ---------------------------------------------------------------------------
// Packages
// ---------------------------------------------------------------------------

/// How a file entry stands at its targets.
#[derive(Debug)]
pub struct EntryStanding {
    /// Whether the source is a directory.
    pub directory: bool,
    /// One for each target of the entry.
    pub targets: Vec<Standing>,
}

/// The rows of the first `k` targets of the file entry at an index.
pub open spec fn target_rows(
    pkg: Seq<char>,
    order: OrderPackage,
    ctx: Context,
    index: int,
    standing: EntryStanding,
    styled: bool,
    k: nat,
) -> Seq<Seq<char>>
    decreases k,
{
    let entry = order.blend.files@[index];
    let targets = entry.targets(text::texts(order.blend.prefix@));
    if k == 0 || k > targets.len() {
        seq![]
    } else {
        target_rows(pkg, order, ctx, index, standing, styled, (k - 1) as nat).push(
            entry_row(
                pkg,
                entry.name@,
                context::expanded(targets[k - 1], ctx.home_dir@),
                ctx.home_dir@,
                standing.directory,
                index == 0 && k == 1,
                standing.targets@[k - 1],
                styled,
            ),
        )
    }
}

/// The rows of the first `n` file entries of a package.
pub open spec fn file_rows(
    pkg: Seq<char>,
    order: OrderPackage,
    ctx: Context,
    standings: Seq<EntryStanding>,
    styled: bool,
    n: nat,
) -> Seq<Seq<char>>
    decreases n,
{
    if n == 0 || n > order.blend.files@.len() {
        seq![]
    } else {
        let before = file_rows(pkg, order, ctx, standings, styled, (n - 1) as nat);
        let entry = order.blend.files@[n - 1];
        if compose::entry_applies(entry, ctx) {
            before + target_rows(
                pkg,
                order,
                ctx,
                n - 1,
                standings[n - 1],
                styled,
                entry.targets(text::texts(order.blend.prefix@)).len(),
            )
        } else if ctx.verbose {
            before.push(
                skipped_row(
                    if n == 1 {
                        pkg
                    } else {
                        Seq::empty()
                    },
                    entry.name@,
                    styled,
                ),
            )
        } else {
            before
        }
    }
}

/// A package applies to the machine of a context.
pub open spec fn package_applies(order: OrderPackage, ctx: Context) -> bool {
    schema::holds_on(
        order.blend.when,
        ctx.metadata.os@,
        ctx.metadata.arch@,
        ctx.metadata.hostname@,
    )
}

/// The rows of a package: one that says so where it does not apply, and else
/// those of its file entries.
pub open spec fn package_rows_shown(
    pkg: Seq<char>,
    order: OrderPackage,
    ctx: Context,
    standings: Seq<EntryStanding>,
    styled: bool,
) -> Seq<Seq<char>> {
    if package_applies(order, ctx) {
        file_rows(pkg, order, ctx, standings, styled, order.blend.files@.len())
    } else {
        seq![skipped_row(pkg, "-"@, styled)]
    }
}

/// There is a standing for each target of each file entry, and the name of each
/// entry that is shown with a target can be cut.
pub open spec fn standings_fit(
    order: OrderPackage,
    ctx: Context,
    standings: Seq<EntryStanding>,
) -> bool {
    &&& standings.len() == order.blend.files@.len()
    &&& forall|i: int|
        0 <= i < standings.len() ==> {
            &&& (#[trigger] standings[i]).targets@.len() == order.blend.files@[i].targets(
                text::texts(order.blend.prefix@),
            ).len()
            &&& package_applies(order, ctx) && compose::entry_applies(order.blend.files@[i], ctx)
                && standings[i].targets@.len() > 0 ==> name_fits(order.blend.files@[i].name@)
        }
}

fn add_row(rows: &mut Vec<String>, row: String)
    ensures
        text::texts(final(rows)@) == text::texts(old(rows)@).push(row@),
{
    proof {
        text::lemma_texts_push(rows@, row);
    }
    rows.push(row);
}

/// The rows of an evaluated package.
pub fn package_rows(
    ctx: &Context,
    pkg: &str,
    order: &OrderPackage,
    standings: &Vec<EntryStanding>,
    styled: bool,
) -> (r: Vec<String>)
    requires
        standings_fit(*order, *ctx, standings@),
    ensures
        text::texts(r@) == package_rows_shown(pkg@, *order, *ctx, standings@, styled),
{
    let os = &ctx.metadata.os;
    let arch = &ctx.metadata.arch;
    let hostname = &ctx.metadata.hostname;
    let mut rows: Vec<String> = Vec::new();
    assert(text::texts(rows@) =~= seq![]);
    if !order.should_apply(os, arch, hostname) {
        add_row(&mut rows, skipped_package(pkg, styled));
        assert(text::texts(rows@) =~= seq![skipped_row(pkg@, "-"@, styled)]);
        return rows;
    }
    let files = &order.blend.files;
    let mut i: usize = 0;
    while i < files.len()
        invariant
            i <= files@.len(),
            *files == order.blend.files,
            package_applies(*order, *ctx),
            standings_fit(*order, *ctx, standings@),
            *os == ctx.metadata.os,
            *arch == ctx.metadata.arch,
            *hostname == ctx.metadata.hostname,
            text::texts(rows@) == file_rows(
                pkg@,
                *order,
                *ctx,
                standings@,
                styled,
                i as nat,
            ),
        decreases files@.len() - i,
    {
        let entry = &files[i];
        let standing = &standings[i];
        let ghost before = text::texts(rows@);
        if entry.should_apply(os, arch, hostname) {
            let targets = entry.target_paths(order.global_prefix());
            let ghost t = text::texts(targets@);
            let mut j: usize = 0;
            assert(before =~= before + target_rows(
                pkg@,
                *order,
                *ctx,
                i as int,
                *standing,
                styled,
                0,
            ));
            while j < targets.len()
                invariant
                    i < files@.len(),
                    j <= targets@.len(),
                    *files == order.blend.files,
                    *entry == files@[i as int],
                    *standing == standings@[i as int],
                    package_applies(*order, *ctx),
                    compose::entry_applies(*entry, *ctx),
                    standings_fit(*order, *ctx, standings@),
                    t == text::texts(targets@),
                    t == entry.targets(text::texts(order.blend.prefix@)),
                    text::texts(rows@) == before + target_rows(
                        pkg@,
                        *order,
                        *ctx,
                        i as int,
                        *standing,
                        styled,
                        j as nat,
                    ),
                decreases targets@.len() - j,
            {
                assert(t[j as int] == targets@[j as int]@);
                let target = ctx.expand_path(&targets[j]);
                let row = show_entry(
                    pkg,
                    &entry.name,
                    &target,
                    &ctx.home_dir,
                    standing.directory,
                    i == 0 && j == 0,
                    &standing.targets[j],
                    styled,
                );
                add_row(&mut rows, row);
                j = j + 1;
                assert(text::texts(rows@) =~= before + target_rows(
                    pkg@,
                    *order,
                    *ctx,
                    i as int,
                    *standing,
                    styled,
                    j as nat,
                ));
            }
        } else {
            match skipped_file(pkg, &entry.name, i == 0, ctx.verbose, styled) {
                Some(row) => add_row(&mut rows, row),
                None => {},
            }
        }
        i = i + 1;
    }
    rows
}

/// The line that ends the status.
pub fn system_line(os: &str, arch: &str, hostname: &str) -> (r: String)
    ensures
        r@ == "System: "@ + os@ + " / "@ + arch@ + " / "@ + hostname@,
{
    let head = text::concat3("System: ", os, " / ");
    let r = text::concat3(&head, arch, " / ");
    text::concat2(&r, hostname)
}

// ---------------------------------------------------------------------------
// Laws
// ---------------------------------------------------------------------------

/// An entry is as it should be: the link of one that is to be linked points to its
/// source, and any other is in sync and reached without a link.
pub open spec fn settled(s: Standing) -> bool {
    if s.symlink {
        s.link == LinkState::Current
    } else {
        s.exists && s.in_sync == Some(true) && !s.unexpected
    }
}

/// Something stands at the target of an entry.
pub open spec fn stands(s: Standing) -> bool {
    if s.symlink {
        s.link == LinkState::Current || s.present
    } else {
        s.exists
    }
}

proof fn lemma_marks_apart()
    ensures
        "\u{2713}"@ != "\u{2260}"@,
        "\u{2713}"@ != "\u{b7}"@,
        "\u{2260}"@ != "\u{b7}"@,
        "linked"@ != "pending"@,
        "linked"@ != "symlinked"@,
        "linked"@ != "deployed"@,
        "pending"@ != "symlinked"@,
        "pending"@ != "deployed"@,
        "symlinked"@ != "deployed"@,
{
    reveal_strlit("\u{2713}");
    reveal_strlit("\u{2260}");
    reveal_strlit("\u{b7}");
    reveal_strlit("linked");
    reveal_strlit("pending");
    reveal_strlit("symlinked");
    reveal_strlit("deployed");
    assert("\u{2713}"@[0] == '\u{2713}');
    assert("\u{2260}"@[0] == '\u{2260}');
    assert("\u{b7}"@[0] == '\u{b7}');
    assert("linked"@.len() == 6 && "pending"@.len() == 7 && "symlinked"@.len() == 9);
    assert("deployed"@.len() == 8);
}

/// An entry has the mark of being in sync exactly where it is as it should be,
/// that of differing where something else stands at its target, unless it cannot
/// be told, and else none.
pub proof fn law_mark(s: Standing)
    ensures
        mark_shown(s).0 == "\u{2713}"@ <==> settled(s),
        mark_shown(s).0 == "\u{2260}"@ <==> stands(s) && !settled(s) && (s.symlink
            || s.in_sync is Some),
        mark_shown(s).0 == "\u{b7}"@ <==> !stands(s) || (!s.symlink && s.in_sync is None),
        mark_shown(s).1 == Tone::Green <==> settled(s),
{
    lemma_marks_apart();
}

/// An entry is pending exactly where nothing stands at its target, linked where it
/// is to be linked and something does, and else deployed, or told to be reached
/// through a link.
pub proof fn law_state(s: Standing)
    ensures
        state_shown(s).0 == "pending"@ <==> !stands(s),
        state_shown(s).0 == "linked"@ <==> stands(s) && s.symlink,
        state_shown(s).0 == "symlinked"@ <==> stands(s) && !s.symlink && s.unexpected,
        state_shown(s).0 == "deployed"@ <==> stands(s) && !s.symlink && !s.unexpected,
        state_shown(s).1 == Tone::Green ==> stands(s) && (s.symlink ==> settled(s)),
{
    lemma_marks_apart();
}

/// How many of the first `n` file entries are not meant for the machine.
pub open spec fn left_out_count(order: OrderPackage, ctx: Context, n: nat) -> nat
    decreases n,
{
    if n == 0 || n > order.blend.files@.len() {
        0
    } else {
        left_out_count(order, ctx, (n - 1) as nat) + if compose::machine_meant(
            order.blend.files@[n - 1].when,
            ctx,
        ) {
            0nat
        } else {
            1
        }
    }
}

/// An entry that applies has a row for each of its targets, in their order, and
/// each row ends with its target.
pub proof fn law_target_rows(
    pkg: Seq<char>,
    order: OrderPackage,
    ctx: Context,
    index: int,
    standing: EntryStanding,
    styled: bool,
    k: nat,
)
    requires
        k <= order.blend.files@[index].targets(text::texts(order.blend.prefix@)).len(),
    ensures
        target_rows(pkg, order, ctx, index, standing, styled, k).len() == k,
        forall|j: int|
            0 <= j < k ==> text::ends(
                #[trigger] target_rows(pkg, order, ctx, index, standing, styled, k)[j],
                sync::shortened(
                    context::expanded(
                        order.blend.files@[index].targets(text::texts(order.blend.prefix@))[j],
                        ctx.home_dir@,
                    ),
                    ctx.home_dir@,
                ),
            ),
    decreases k,
{
    if k > 0 {
        law_target_rows(pkg, order, ctx, index, standing, styled, (k - 1) as nat);
        let rows = target_rows(pkg, order, ctx, index, standing, styled, k);
        let before = target_rows(pkg, order, ctx, index, standing, styled, (k - 1) as nat);
        let targets = order.blend.files@[index].targets(text::texts(order.blend.prefix@));
        let shown = sync::shortened(
            context::expanded(targets[k - 1], ctx.home_dir@),
            ctx.home_dir@,
        );
        assert(text::ends(rows[k - 1], shown)) by {
            let row = rows[k - 1];
            assert(row.skip(row.len() - shown.len()) =~= shown);
        }
        assert forall|j: int| 0 <= j < k implies text::ends(
            #[trigger] rows[j],
            sync::shortened(context::expanded(targets[j], ctx.home_dir@), ctx.home_dir@),
        ) by {
            if j < k - 1 {
                assert(rows[j] == before[j]);
            }
        }
    }
}

proof fn lemma_row_count(
    pkg: Seq<char>,
    order: OrderPackage,
    ctx: Context,
    standings: Seq<EntryStanding>,
    styled: bool,
    n: nat,
)
    requires
        n <= order.blend.files@.len(),
    ensures
        file_rows(pkg, order, ctx, standings, styled, n).len() == compose::build_count(
            order,
            ctx,
            n,
        ) + if ctx.verbose {
            left_out_count(order, ctx, n)
        } else {
            0
        },
    decreases n,
{
    if n > 0 {
        lemma_row_count(pkg, order, ctx, standings, styled, (n - 1) as nat);
        let entry = order.blend.files@[n - 1];
        schema::law_condition(
            entry.when,
            ctx.metadata.os@,
            ctx.metadata.arch@,
            ctx.metadata.hostname@,
        );
        schema::law_targets(entry, text::texts(order.blend.prefix@), 0);
        law_target_rows(
            pkg,
            order,
            ctx,
            n - 1,
            standings[n - 1],
            styled,
            entry.targets(text::texts(order.blend.prefix@)).len(),
        );
    }
}

/// The status of a package that applies has a row for each target of each file
/// entry that is meant for the machine, as many as there would be builds, and in a
/// verbose run one more for each entry that is not. That of a package that does
/// not apply has a single row.
pub proof fn law_row_count(
    pkg: Seq<char>,
    order: OrderPackage,
    ctx: Context,
    standings: Seq<EntryStanding>,
    styled: bool,
)
    ensures
        ({
            let files = order.blend.files@.len();
            package_rows_shown(pkg, order, ctx, standings, styled).len()
                == if compose::machine_meant(order.blend.when, ctx) {
                (compose::build_count(order, ctx, files) + if ctx.verbose {
                    left_out_count(order, ctx, files)
                } else {
                    0
                }) as int
            } else {
                1
            }
        }),
{
    lemma_row_count(pkg, order, ctx, standings, styled, order.blend.files@.len());
    schema::law_condition(
        order.blend.when,
        ctx.metadata.os@,
        ctx.metadata.arch@,
        ctx.metadata.hostname@,
    );
}

/// A name is shown in full where its encoding fits the column, and with a slash
/// behind it where it is a directory. Else its first characters are shown, as many
/// as the bytes that are kept hold, and dots behind them.
pub proof fn law_name_shown(name: Seq<char>, directory: bool, k: int)
    requires
        0 <= k <= name.len(),
        encode_utf8(name).len() > FILE_WIDTH ==> encode_utf8(name.take(k)).len() == NAME_BYTES,
    ensures
        encode_utf8(name).len() <= FILE_WIDTH && !directory ==> name_shown(name, directory)
            == text::padded(name, FILE_WIDTH as nat),
        encode_utf8(name).len() <= FILE_WIDTH && directory ==> name_shown(name, directory)
            == text::padded(name + "/"@, FILE_WIDTH as nat),
        encode_utf8(name).len() > FILE_WIDTH ==> name_shown(name, directory) == text::padded(
            name.take(k) + "..."@,
            FILE_WIDTH as nat,
        ),
{
    if encode_utf8(name).len() > FILE_WIDTH {
        let head = name.take(k);
        let tail = name.skip(k);
        assert(name =~= head + tail);
        text::lemma_encode_concat(head, tail);
        assert(encode_utf8(name).take(NAME_BYTES as int) =~= encode_utf8(head));
        encode_utf8_decode_utf8(head);
    }
}

} // verus!
