//! Coloured terminal text.
use vstd::prelude::*;

verus! {

/// The ways in which a piece of text is set off.
#[derive(Debug, Clone, Copy, PartialEq, Eq, Structural)]
pub enum Tone {
    Green,
    Red,
    Yellow,
    Cyan,
    CyanBold,
    Dim,
    Bold,
    BrightBlue,
    OnGreen,
    WhiteOnGreen,
    OnBlue,
    WhiteOnBlue,
}

/// The escape sequences that turn a tone on.
pub open spec fn tone_code(tone: Tone) -> Seq<char> {
    match tone {
        Tone::Green => "\u{1b}[32m"@,
        Tone::Red => "\u{1b}[31m"@,
        Tone::Yellow => "\u{1b}[33m"@,
        Tone::Cyan => "\u{1b}[36m"@,
        Tone::CyanBold => "\u{1b}[36m\u{1b}[1m"@,
        Tone::Dim => "\u{1b}[2m"@,
        Tone::Bold => "\u{1b}[1m"@,
        Tone::BrightBlue => "\u{1b}[38;5;12m"@,
        Tone::OnGreen => "\u{1b}[42m"@,
        Tone::WhiteOnGreen => "\u{1b}[37m\u{1b}[42m\u{1b}[1m"@,
        Tone::OnBlue => "\u{1b}[48;5;12m"@,
        Tone::WhiteOnBlue => "\u{1b}[37m\u{1b}[48;5;12m\u{1b}[1m"@,
    }
}

/// A piece of text in a tone: between escape sequences where styling is on,
/// and as it is where styling is off.
pub open spec fn painted(text: Seq<char>, tone: Tone, styled: bool) -> Seq<char> {
    if styled {
        tone_code(tone) + text + "\u{1b}[0m"@
    } else {
        text
    }
}

/// `console::colors_enabled` tells whether standard output takes colours. It
/// reads the environment and the terminal, so nothing is claimed of the answer.
#[verifier::external_body]
pub(crate) fn colors_enabled() -> (r: bool) {
    console::colors_enabled()
}

/// `console::Style::apply_to`, printed with the styling forced on or off. On,
/// the text stands between the sequences of the style's colour, background and
/// attribute and the reset sequence; off, it is printed as it is.
#[verifier::external_body]
pub(crate) fn paint(text: &str, tone: Tone, styled: bool) -> (r: String)
    ensures
        r@ == painted(text@, tone, styled),
{
    let plain = console::Style::new().force_styling(styled);
    match tone {
        Tone::Green => plain.green(),
        Tone::Red => plain.red(),
        Tone::Yellow => plain.yellow(),
        Tone::Cyan => plain.cyan(),
        Tone::CyanBold => plain.cyan().bold(),
        Tone::Dim => plain.dim(),
        Tone::Bold => plain.bold(),
        Tone::BrightBlue => plain.blue().bright(),
        Tone::OnGreen => plain.on_green(),
        Tone::WhiteOnGreen => plain.white().bold().on_green(),
        Tone::OnBlue => plain.on_blue().on_bright(),
        Tone::WhiteOnBlue => plain.white().bold().on_blue().on_bright(),
    }.apply_to(text).to_string()
}

/// How important a message is, and where it goes.
#[derive(Debug, Clone, Copy, PartialEq, Eq, Structural)]
pub enum Level {
    Info,
    Important,
    Warn,
    Error,
    Success,
}

/// A message to the user.
#[derive(Debug)]
pub struct LogLine {
    pub level: Level,
    pub text: String,
}

impl View for LogLine {
    type V = (Level, Seq<char>);

    open spec fn view(&self) -> (Level, Seq<char>) {
        (self.level, self.text@)
    }
}

/// What a list of messages holds.
pub open spec fn log_model(lines: Seq<LogLine>) -> Seq<(Level, Seq<char>)> {
    lines.map_values(|l: LogLine| l@)
}

/// A message as it is printed.
pub open spec fn log_text(line: (Level, Seq<char>), styled: bool) -> Seq<char> {
    match line.0 {
        Level::Info => painted(line.1, Tone::Dim, styled),
        Level::Important => line.1,
        Level::Warn => painted(line.1, Tone::Yellow, styled),
        Level::Error => painted(line.1, Tone::Red, styled),
        Level::Success => painted(line.1, Tone::Green, styled),
    }
}

impl LogLine {
    /// A message at a level.
    pub fn new(level: Level, text: String) -> (r: LogLine)
        ensures
            r@ == (level, text@),
    {
        LogLine { level, text }
    }

    /// The message as it is printed.
    pub fn render(&self, styled: bool) -> (r: String)
        ensures
            r@ == log_text(self@, styled),
    {
        match self.level {
            Level::Info => paint(&self.text, Tone::Dim, styled),
            Level::Important => crate::text::owned(&self.text),
            Level::Warn => paint(&self.text, Tone::Yellow, styled),
            Level::Error => paint(&self.text, Tone::Red, styled),
            Level::Success => paint(&self.text, Tone::Green, styled),
        }
    }

    /// Whether the message goes to standard error.
    pub fn to_stderr(&self) -> (r: bool)
        ensures
            r == (self.level == Level::Error),
    {
        self.level == Level::Error
    }
}

/// The heading of a milestone: white on green, with a segment behind it.
pub fn heading_note(title: &str, styled: bool) -> (r: String)
    ensures
        r@ == painted("  "@, Tone::OnGreen, styled) + painted(title@, Tone::WhiteOnGreen, styled)
            + painted("  "@, Tone::OnGreen, styled) + painted("\u{e0b0}"@, Tone::Green, styled),
{
    let edge = paint("  ", Tone::OnGreen, styled);
    let body = crate::text::concat3(&edge, &paint(title, Tone::WhiteOnGreen, styled), &edge);
    crate::text::concat2(&body, &paint("\u{e0b0}", Tone::Green, styled))
}

/// The heading of a step: white on blue behind a dot, with a segment behind it.
pub fn heading_info(title: &str, styled: bool) -> (r: String)
    ensures
        r@ == painted("  \u{2b1d}"@, Tone::WhiteOnBlue, styled) + painted(
            title@,
            Tone::WhiteOnBlue,
            styled,
        ) + painted("   "@, Tone::OnBlue, styled) + painted(
            "\u{e0b0}"@,
            Tone::BrightBlue,
            styled,
        ),
{
    let dot = paint("  \u{2b1d}", Tone::WhiteOnBlue, styled);
    let edge = paint("   ", Tone::OnBlue, styled);
    let body = crate::text::concat3(&dot, &paint(title, Tone::WhiteOnBlue, styled), &edge);
    crate::text::concat2(&body, &paint("\u{e0b0}", Tone::BrightBlue, styled))
}

/// An informational message.
pub fn info(msg: &str) -> (r: LogLine)
    ensures
        r@ == (Level::Info, msg@),
{
    LogLine::new(Level::Info, crate::text::owned(msg))
}

/// A message that is not toned down.
pub fn info_important(msg: &str) -> (r: LogLine)
    ensures
        r@ == (Level::Important, msg@),
{
    LogLine::new(Level::Important, crate::text::owned(msg))
}

/// A warning.
pub fn warn(msg: &str) -> (r: LogLine)
    ensures
        r@ == (Level::Warn, msg@),
{
    LogLine::new(Level::Warn, crate::text::owned(msg))
}

/// An error message.
pub fn error(msg: &str) -> (r: LogLine)
    ensures
        r@ == (Level::Error, msg@),
{
    LogLine::new(Level::Error, crate::text::owned(msg))
}

/// A message about something that worked.
pub fn success(msg: &str) -> (r: LogLine)
    ensures
        r@ == (Level::Success, msg@),
{
    LogLine::new(Level::Success, crate::text::owned(msg))
}

/// Without styling a message is printed as it is. With styling it stands between
/// two escape sequences, unless it is not to be toned down.
pub proof fn law_log_text(level: Level, text: Seq<char>)
    ensures
        log_text((level, text), false) == text,
        log_text((level, text), true) == text <==> level == Level::Important,
        level != Level::Important ==> crate::text::ends(
            log_text((level, text), true),
            text + "\u{1b}[0m"@,
        ),
{
    reveal_strlit("\u{1b}[0m");
    reveal_strlit("\u{1b}[2m");
    let tail = text + "\u{1b}[0m"@;
    let line = log_text((level, text), true);
    if level != Level::Important {
        assert(line.len() >= tail.len());
        assert(line.skip(line.len() - tail.len()) =~= tail);
        assert("\u{1b}[0m"@.len() > 0);
    }
}

/// Messages of different levels look different where they are styled.
pub proof fn law_levels_apart(a: Level, b: Level, text: Seq<char>)
    requires
        log_text((a, text), true) == log_text((b, text), true),
    ensures
        a == b,
{
    reveal_strlit("\u{1b}[0m");
    reveal_strlit("\u{1b}[2m");
    reveal_strlit("\u{1b}[31m");
    reveal_strlit("\u{1b}[32m");
    reveal_strlit("\u{1b}[33m");
    let p = log_text((a, text), true);
    let q = log_text((b, text), true);
    assert("\u{1b}[2m"@.len() == 4 && "\u{1b}[31m"@.len() == 5);
    assert("\u{1b}[32m"@.len() == 5 && "\u{1b}[33m"@.len() == 5 && "\u{1b}[0m"@.len() == 4);
    if a != Level::Important && b != Level::Important {
        assert(p[3] == q[3]);
        assert("\u{1b}[31m"@[3] == '1' && "\u{1b}[32m"@[3] == '2' && "\u{1b}[33m"@[3] == '3');
    }
}

} // verus!
