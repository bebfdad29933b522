//! What the screens show, as plain values. No state mutation happens here, and drawing is left
//! to whoever owns the terminal.

use vstd::prelude::*;
use crate::doc::{ink, Doc, Glyph};

pub mod chart;
pub mod dashboard;
pub mod phases;
pub mod picker;

verus! {

#[derive(Clone, Copy, Debug, PartialEq, Eq, Structural)]
pub enum Color {
    Black,
    White,
    Gray,
    DarkGray,
    Green,
    Yellow,
    Red,
    Cyan,
    Magenta,
}

/// How a span looks; a colour that is not given is the terminal's own.
#[derive(Clone, Copy, Debug, PartialEq, Eq)]
pub struct Style {
    pub fg: Option<Color>,
    pub bg: Option<Color>,
    pub bold: bool,
}

pub open spec fn plain_style() -> Style {
    Style { fg: None, bg: None, bold: false }
}

pub open spec fn bold_style() -> Style {
    Style { fg: None, bg: None, bold: true }
}

pub open spec fn in_color(c: Color) -> Style {
    Style { fg: Some(c), bg: None, bold: false }
}

pub open spec fn in_colors(fg: Color, bg: Color) -> Style {
    Style { fg: Some(fg), bg: Some(bg), bold: false }
}

/// A stretch of text in one style.
#[derive(Debug)]
pub struct Span {
    pub text: Doc,
    pub style: Style,
}

pub struct SpanModel {
    pub text: Seq<Glyph>,
    pub style: Style,
}

impl DeepView for Span {
    type V = SpanModel;

    open spec fn deep_view(&self) -> SpanModel {
        SpanModel { text: self.text@, style: self.style }
    }
}

/// Plain text in a style.
pub open spec fn span_of(text: Seq<char>, style: Style) -> SpanModel {
    SpanModel { text: ink(text), style }
}

pub(crate) fn span(text: &str, style: Style) -> (r: Span)
    ensures
        r.deep_view() == span_of(text@, style),
{
    Span { text: Doc::of(text), style }
}

pub(crate) fn put(line: &mut Vec<Span>, s: Span)
    ensures
        final(line).deep_view() == old(line).deep_view().push(s.deep_view()),
{
    let ghost before = line.deep_view();
    let ghost model = s.deep_view();
    line.push(s);
    assert(line.deep_view() =~= before.push(model));
}

/// An entry of a list: a line and a second line under it.
#[derive(Debug)]
pub struct Entry {
    pub title: Span,
    pub detail: Span,
}

pub struct EntryModel {
    pub title: SpanModel,
    pub detail: SpanModel,
}

impl DeepView for Entry {
    type V = EntryModel;

    open spec fn deep_view(&self) -> EntryModel {
        EntryModel { title: self.title.deep_view(), detail: self.detail.deep_view() }
    }
}

/// An entry of a list in which one is selected.
pub open spec fn entry_of(title: Seq<Glyph>, detail: Seq<Glyph>, chosen: bool) -> EntryModel {
    if chosen {
        EntryModel {
            title: SpanModel { text: title, style: Style { bold: true, ..in_colors(Color::Black, Color::White) } },
            detail: SpanModel { text: detail, style: in_colors(Color::Black, Color::White) },
        }
    } else {
        EntryModel {
            title: SpanModel { text: title, style: bold_style() },
            detail: SpanModel { text: detail, style: in_color(Color::Gray) },
        }
    }
}

pub(crate) fn entry(title: Doc, detail: Doc, chosen: bool) -> (r: Entry)
    ensures
        r.deep_view() == entry_of(title@, detail@, chosen),
{
    let (bg, fg): (Option<Color>, Option<Color>) = if chosen {
        (Some(Color::White), Some(Color::Black))
    } else {
        (None, None)
    };
    let under: Option<Color> = if chosen {
        Some(Color::Black)
    } else {
        Some(Color::Gray)
    };
    Entry {
        title: Span { text: title, style: Style { fg, bg, bold: true } },
        detail: Span { text: detail, style: Style { fg: under, bg, bold: false } },
    }
}

} // verus!
