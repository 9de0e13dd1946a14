//! Differences between generated and deployed configuration.
use crate::formats::Format;
use crate::output;
use vstd::prelude::*;
use vstd::string::*;

pub mod agreement;
pub mod semantic;
pub mod text;

verus! {

/// The outcome of a comparison: whether the sides differ, and how.
pub type Outcome = (bool, Seq<char>);

impl View for DiffResult {
    type V = Outcome;

    open spec fn view(&self) -> Outcome {
        (self.has_changes, self.output@)
    }
}

/// The outcome that a list of lines makes: a difference exactly where there is
/// a line.
pub open spec fn outcome(lines: Seq<Seq<char>>) -> Outcome {
    (lines.len() > 0, crate::text::joined(lines, "\n"@))
}

/// The outcome of a comparison.
#[derive(Debug)]
pub struct DiffResult {
    /// Whether the two sides differ.
    pub has_changes: bool,
    /// The difference, ready to be shown.
    pub output: String,
}

impl DiffResult {
    /// The outcome of a comparison that found nothing.
    pub fn no_changes() -> (r: DiffResult)
        ensures
            !r.has_changes,
            r.output@ == Seq::<char>::empty(),
    {
        DiffResult { has_changes: false, output: String::new() }
    }

    /// The outcome of a comparison that found the given difference.
    pub fn with_changes(output: String) -> (r: DiffResult)
        ensures
            r.has_changes,
            r.output@ == output@,
    {
        DiffResult { has_changes: true, output }
    }
}

/// A format whose texts are compared by what they hold.
pub open spec fn structured(format: Format) -> bool {
    format != Format::SpaceDelimitedPairs && format != Format::Plaintext
}

/// The lines that show how two texts in a format differ. What is to be ignored
/// are keys in a structured format, and patterns of lines in the others.
pub open spec fn config_lines(
    format: Format,
    generated: Seq<char>,
    deployed: Seq<char>,
    ignored: Seq<Seq<char>>,
    styled: bool,
) -> Seq<Seq<char>> {
    if structured(format) {
        semantic::semantic_lines(format, generated, deployed, ignored, styled)
    } else {
        text::text_changes(generated, deployed, ignored, styled)
    }
}

/// Two texts are shown with as many lines in colour as without.
pub proof fn law_config_styling(
    format: Format,
    generated: Seq<char>,
    deployed: Seq<char>,
    ignored: Seq<Seq<char>>,
)
    ensures
        config_lines(format, generated, deployed, ignored, true).len() == config_lines(
            format,
            generated,
            deployed,
            ignored,
            false,
        ).len(),
{
    semantic::law_text_styling(format, generated, deployed, ignored);
    text::law_text_changes_styling(generated, deployed, ignored);
}

/// A text shows no difference against itself.
pub proof fn law_config_same(
    format: Format,
    content: Seq<char>,
    ignored: Seq<Seq<char>>,
    styled: bool,
)
    ensures
        config_lines(format, content, content, ignored, styled).len() == 0,
{
    semantic::law_text_same(format, content, ignored, styled);
    let lines = crate::text::lines(content);
    let kept = text::kept_lines(lines, ignored, lines.len());
    text::law_line_changes(kept, kept, styled);
}

/// Compares two texts in a format, with the styling given.
pub fn diff_configs_styled(
    format: Format,
    generated: &str,
    deployed: &str,
    ignore: &[String],
    styled: bool,
) -> (r: DiffResult)
    ensures
        r@ == outcome(
            config_lines(
                format,
                generated@,
                deployed@,
                crate::text::texts(ignore@),
                styled,
            ),
        ),
{
    match format {
        Format::SpaceDelimitedPairs | Format::Plaintext => text::text_diff_styled(
            generated,
            deployed,
            ignore,
            styled,
        ),
        _ => semantic::semantic_diff_styled(format, generated, deployed, ignore, styled),
    }
}

/// Compares two texts in a format, in colour where the terminal has it.
pub fn diff_configs(format: Format, generated: &str, deployed: &str, ignore: &[String]) -> (r:
    DiffResult)
    ensures
        exists|styled: bool|
            r@ == outcome(
                #[trigger] config_lines(
                    format,
                    generated@,
                    deployed@,
                    crate::text::texts(ignore@),
                    styled,
                ),
            ),
        r.has_changes == (config_lines(
            format,
            generated@,
            deployed@,
            crate::text::texts(ignore@),
            false,
        ).len() > 0),
{
    proof {
        law_config_styling(format, generated@, deployed@, crate::text::texts(ignore@));
    }
    diff_configs_styled(format, generated, deployed, ignore, output::colors_enabled())
}

} // verus!
