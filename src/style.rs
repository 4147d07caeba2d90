use vstd::prelude::*;

use crate::geometry::Range;

verus! {

/// A terminal color.
#[derive(Debug, Clone, Copy, PartialEq, Eq, Structural, Hash)]
pub enum Color {
    Reset,
    Black,
    DarkGrey,
    Red,
    DarkRed,
    Green,
    DarkGreen,
    Yellow,
    DarkYellow,
    Blue,
    DarkBlue,
    Magenta,
    DarkMagenta,
    Cyan,
    DarkCyan,
    White,
    Grey,
    Rgb { r: u8, g: u8, b: u8 },
    AnsiValue(u8),
}

/// The bit of `Style::attributes` that asks for reverse video.
pub const REVERSE_ATTRIBUTE: u32 = 4096;

/// How a run of text is drawn: its colors and a bit set of attributes.
/// Bit `i + 1` of `attributes` stands for the `i`-th attribute of the
/// terminal backend (bold, dim, italic, ...).
#[derive(Debug, Clone, Copy, PartialEq, Eq, Structural, Hash)]
pub struct Style {
    pub foreground: Option<Color>,
    pub background: Option<Color>,
    pub underline: Option<Color>,
    pub attributes: u32,
}

/// The style with no color and no attribute.
pub open spec fn plain_style() -> Style {
    Style { foreground: None, background: None, underline: None, attributes: 0 }
}

/// The style used for selected text: the same, on a grey background.
pub open spec fn highlight_of(s: Style) -> Style {
    Style { background: Some(Color::Grey), ..s }
}

/// The style in which the cursor cell is drawn.
pub open spec fn cursor_style() -> Style {
    Style { attributes: REVERSE_ATTRIBUTE, ..plain_style() }
}

/// What an optional style draws as: the style itself, or the plain style.
pub open spec fn resolve_or_plain(s: Option<Style>) -> Style {
    match s {
        Some(s) => s,
        None => plain_style(),
    }
}

impl Style {
    pub fn new() -> (r: Style)
        ensures
            r == plain_style(),
    {
        Style { foreground: None, background: None, underline: None, attributes: 0 }
    }

    /// The same style with the foreground color `c`.
    pub fn with_foreground(self, c: Color) -> (r: Style)
        ensures
            r == (Style { foreground: Some(c), ..self }),
    {
        Style { foreground: Some(c), ..self }
    }

    /// The same style on a grey background.
    pub fn on_grey(self) -> (r: Style)
        ensures
            r == highlight_of(self),
    {
        Style { background: Some(Color::Grey), ..self }
    }

    /// The cursor's style: reverse video and nothing else.
    pub fn cursor() -> (r: Style)
        ensures
            r == cursor_style(),
    {
        Style { foreground: None, background: None, underline: None, attributes: REVERSE_ATTRIBUTE }
    }
}

impl Default for Style {
    fn default() -> (r: Style)
        ensures
            r == plain_style(),
    {
        Style::new()
    }
}

/// A range of text drawn in one style.
#[derive(Debug, Clone, Copy)]
pub struct StyledRange<T> {
    pub style: Style,
    pub range: Range<T>,
}

} // verus!
