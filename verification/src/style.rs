//! How a piece of text stands out on a terminal.
//!
//! Styles are written unconditionally, as ANSI control sequences. Whether the destination
//! can take them is for whoever writes the text out to find out.

use vstd::prelude::*;

verus! {

/// A colour for text.
#[derive(Debug, Clone, Copy, PartialEq, Eq, Structural)]
pub enum Colour {
    /// For what is broken.
    Red,
    /// For what is untidy or ambiguous.
    Yellow,
}

/// A style for text.
#[derive(Debug, Clone, Copy, PartialEq, Eq, Structural)]
pub struct TextStyle {
    /// Whether it is bold.
    pub bold: bool,
    /// Whether it is dimmed.
    pub dimmed: bool,
    /// Its colour, if it is not the terminal's own.
    pub colour: Option<Colour>,
}

impl TextStyle {
    /// The control sequences that switch this style on.
    pub open spec fn codes(self) -> Seq<char> {
        let bold = if self.bold {
            "\u{1b}[1m"@
        } else {
            Seq::empty()
        };
        let dimmed = if self.dimmed {
            "\u{1b}[2m"@
        } else {
            Seq::empty()
        };
        let colour = match self.colour {
            Some(Colour::Red) => "\u{1b}[31m"@,
            Some(Colour::Yellow) => "\u{1b}[33m"@,
            None => Seq::empty(),
        };
        bold + dimmed + colour
    }

    /// The control sequence that switches this style off. Plain text needs none.
    pub open spec fn reset(self) -> Seq<char> {
        if self == plain_style() {
            Seq::empty()
        } else {
            "\u{1b}[0m"@
        }
    }

    /// [`anstyle::Style::render`] gives the sequences for the effects, bold before dimmed,
    /// and then the one for the foreground colour.
    #[verifier::external_body]
    pub(crate) fn render(self) -> (codes: String)
        ensures
            codes@ == self.codes(),
    {
        let effects = anstyle::Effects::new()
            .set(anstyle::Effects::BOLD, self.bold)
            .set(anstyle::Effects::DIMMED, self.dimmed);
        let colour = match self.colour {
            Some(Colour::Red) => Some(anstyle::Color::Ansi(anstyle::AnsiColor::Red)),
            Some(Colour::Yellow) => Some(anstyle::Color::Ansi(anstyle::AnsiColor::Yellow)),
            None => None,
        };
        anstyle::Style::new().effects(effects).fg_color(colour).render().to_string()
    }

    /// [`anstyle::Style::render_reset`] gives the sequence that resets every effect and
    /// colour, and nothing for a style without any.
    #[verifier::external_body]
    pub(crate) fn render_reset(self) -> (codes: String)
        ensures
            codes@ == self.reset(),
    {
        let effects = anstyle::Effects::new()
            .set(anstyle::Effects::BOLD, self.bold)
            .set(anstyle::Effects::DIMMED, self.dimmed);
        let colour = match self.colour {
            Some(Colour::Red) => Some(anstyle::Color::Ansi(anstyle::AnsiColor::Red)),
            Some(Colour::Yellow) => Some(anstyle::Color::Ansi(anstyle::AnsiColor::Yellow)),
            None => None,
        };
        anstyle::Style::new().effects(effects).fg_color(colour).render_reset().to_string()
    }
}

/// Text as the terminal shows it anyway.
pub open spec fn plain_style() -> TextStyle {
    TextStyle { bold: false, dimmed: false, colour: None }
}

/// Section titles and column headers.
pub open spec fn heading_style() -> TextStyle {
    TextStyle { bold: true, dimmed: false, colour: None }
}

/// Secondary detail: the stored form, absent values, explanatory notes.
pub open spec fn muted_style() -> TextStyle {
    TextStyle { bold: false, dimmed: true, colour: None }
}

/// A finding that means something is broken.
pub open spec fn broken_style() -> TextStyle {
    TextStyle { bold: false, dimmed: false, colour: Some(Colour::Red) }
}

/// A finding that means something is untidy or ambiguous.
pub open spec fn untidy_style() -> TextStyle {
    TextStyle { bold: false, dimmed: false, colour: Some(Colour::Yellow) }
}

/// Text as the terminal shows it anyway.
pub fn plain() -> (style: TextStyle)
    ensures
        style == plain_style(),
{
    TextStyle { bold: false, dimmed: false, colour: None }
}

/// Section titles and column headers.
pub fn heading_text() -> (style: TextStyle)
    ensures
        style == heading_style(),
{
    TextStyle { bold: true, dimmed: false, colour: None }
}

/// Secondary detail: the stored form, absent values, explanatory notes.
pub fn muted() -> (style: TextStyle)
    ensures
        style == muted_style(),
{
    TextStyle { bold: false, dimmed: true, colour: None }
}

/// A finding that means something is broken.
pub fn broken() -> (style: TextStyle)
    ensures
        style == broken_style(),
{
    TextStyle { bold: false, dimmed: false, colour: Some(Colour::Red) }
}

/// A finding that means something is untidy or ambiguous.
pub fn untidy() -> (style: TextStyle)
    ensures
        style == untidy_style(),
{
    TextStyle { bold: false, dimmed: false, colour: Some(Colour::Yellow) }
}

/// Each style stands out in its own way: titles are bold, detail is dimmed, what is broken is
/// red, what is untidy is yellow, and plain text is none of these.
pub proof fn each_style_stands_out()
    ensures
        heading_style().bold && !heading_style().dimmed && heading_style().colour is None,
        !muted_style().bold && muted_style().dimmed && muted_style().colour is None,
        !broken_style().bold && !broken_style().dimmed && broken_style().colour == Some(
            Colour::Red,
        ),
        !untidy_style().bold && !untidy_style().dimmed && untidy_style().colour == Some(
            Colour::Yellow,
        ),
        !plain_style().bold && !plain_style().dimmed && plain_style().colour is None,
        plain_style().codes().len() == 0,
        plain_style().reset().len() == 0,
{
}

} // verus!
