//! Pieces of text with colours.
use vstd::prelude::*;

verus! {

#[derive(Debug, Clone, Copy, PartialEq, Eq, Structural)]
pub enum Color {
    Black,
    Red,
    Green,
    Yellow,
    Cyan,
    White,
    DarkGray,
    LightRed,
    LightYellow,
    LightGreen,
    LightCyan,
    LightBlue,
    LightMagenta,
    Rgb(u8, u8, u8),
}

/// Colours of the text and behind it, where they are not the terminal's own, and whether
/// the text is bold or dim.
#[derive(Debug, Clone, Copy, PartialEq, Eq, Structural)]
pub struct Style {
    pub fg: Option<Color>,
    pub bg: Option<Color>,
    pub bold: bool,
    pub dim: bool,
}

/// A piece of text in one style.
#[derive(Debug)]
pub struct Span {
    pub text: String,
    pub style: Style,
}

pub ghost struct SpanView {
    pub text: Seq<char>,
    pub style: Style,
}

impl View for Span {
    type V = SpanView;

    open spec fn view(&self) -> SpanView {
        SpanView { text: self.text@, style: self.style }
    }
}

/// What each piece of a line is.
pub open spec fn span_views(line: Seq<Span>) -> Seq<SpanView> {
    Seq::new(line.len(), |i: int| line[i]@)
}

/// The terminal's own style.
pub open spec fn plain_style() -> Style {
    Style { fg: None, bg: None, bold: false, dim: false }
}

/// Text in a colour.
pub open spec fn color_style(color: Color) -> Style {
    Style { fg: Some(color), bg: None, bold: false, dim: false }
}

/// Bold text in a colour.
pub open spec fn bold_style(color: Color) -> Style {
    Style { fg: Some(color), bg: None, bold: true, dim: false }
}

/// Dim text.
pub open spec fn dim_style() -> Style {
    Style { fg: None, bg: None, bold: false, dim: true }
}

pub fn plain() -> (style: Style)
    ensures
        style == plain_style(),
{
    Style { fg: None, bg: None, bold: false, dim: false }
}

pub fn colored(color: Color) -> (style: Style)
    ensures
        style == color_style(color),
{
    Style { fg: Some(color), bg: None, bold: false, dim: false }
}

pub fn bold(color: Color) -> (style: Style)
    ensures
        style == bold_style(color),
{
    Style { fg: Some(color), bg: None, bold: true, dim: false }
}

pub fn dim() -> (style: Style)
    ensures
        style == dim_style(),
{
    Style { fg: None, bg: None, bold: false, dim: true }
}

/// Adds a piece to the end of a line.
pub fn add_span(line: &mut Vec<Span>, text: String, style: Style)
    ensures
        span_views(final(line)@) == span_views(old(line)@).push(SpanView { text: text@, style }),
{
    let ghost before = line@;
    let ghost view = SpanView { text: text@, style };
    line.push(Span { text, style });
    assert(span_views(line@) == span_views(before).push(view));
}

} // verus!
