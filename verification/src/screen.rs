//! What stands on the screen: pieces of text with their styles, tables, and
//! the panels that hold them.

use vstd::prelude::*;

use crate::hardware::strings;
use crate::text::{chars_of, string_of};

verus! {

/// The colors in use.
#[derive(Debug, Clone, Copy, PartialEq, Eq, Structural)]
pub enum Color {
    White,
    Gray,
    Cyan,
    Green,
    Yellow,
    Red,
    Magenta,
}

/// How a piece of text looks.
#[derive(Debug, Clone, Copy, PartialEq, Eq)]
pub struct Style {
    pub color: Option<Color>,
    pub bold: bool,
    pub underlined: bool,
}

/// A piece of text with its style.
#[derive(Debug, Clone)]
pub struct Span {
    pub text: String,
    pub style: Style,
}

/// The value of a [`Span`].
#[verifier::ext_equal]
pub struct SpanView {
    pub text: Seq<char>,
    pub style: Style,
}

impl View for Span {
    type V = SpanView;

    open spec fn view(&self) -> SpanView {
        SpanView { text: self.text@, style: self.style }
    }
}

/// The values of the pieces of a line.
pub open spec fn spans_in(spans: Seq<Span>) -> Seq<SpanView> {
    spans.map_values(|s: Span| s@)
}

/// The values of several lines.
pub open spec fn lines_in(lines: Seq<Vec<Span>>) -> Seq<Seq<SpanView>> {
    lines.map_values(|l: Vec<Span>| spans_in(l@))
}

/// The texts in the rows of a table.
pub open spec fn rows_in(rows: Seq<Vec<String>>) -> Seq<Seq<Seq<char>>> {
    rows.map_values(|r: Vec<String>| strings(r@))
}

/// How much room a part of an area gets: so many cells, a percentage of the
/// area, or at least so many cells.
#[derive(Debug, Clone, Copy, PartialEq, Eq, Structural)]
pub enum Extent {
    Length(u16),
    Percentage(u16),
    Min(u16),
}

/// Rows of texts in columns, under a heading where there is one, with
/// `header_margin` empty rows below it and `spacing` empty cells between columns.
pub struct Table {
    pub header: Vec<Span>,
    pub rows: Vec<Vec<String>>,
    pub widths: Vec<Extent>,
    pub header_margin: u16,
    pub spacing: u16,
    pub color: Option<Color>,
}

/// What a panel shows.
pub enum Body {
    Lines(Vec<Vec<Span>>),
    Table(Table),
}

/// A framed part of the screen.
pub struct Panel {
    pub title: String,
    pub border: Color,
    pub body: Body,
}

/// The value of a [`Body`].
pub enum BodyView {
    Lines(Seq<Seq<SpanView>>),
    Table {
        header: Seq<SpanView>,
        rows: Seq<Seq<Seq<char>>>,
        widths: Seq<Extent>,
        header_margin: u16,
        spacing: u16,
        color: Option<Color>,
    },
}

/// The value of a [`Panel`].
pub struct PanelView {
    pub title: Seq<char>,
    pub border: Color,
    pub body: BodyView,
}

impl View for Body {
    type V = BodyView;

    open spec fn view(&self) -> BodyView {
        match *self {
            Body::Lines(lines) => BodyView::Lines(lines_in(lines@)),
            Body::Table(t) => BodyView::Table {
                header: spans_in(t.header@),
                rows: rows_in(t.rows@),
                widths: t.widths@,
                header_margin: t.header_margin,
                spacing: t.spacing,
                color: t.color,
            },
        }
    }
}

impl View for Panel {
    type V = PanelView;

    open spec fn view(&self) -> PanelView {
        PanelView { title: self.title@, border: self.border, body: self.body@ }
    }
}

/// The style of text without a style of its own.
pub open spec fn plain() -> Style {
    Style { color: None, bold: false, underlined: false }
}

/// A piece of plain text.
pub open spec fn raw_span(text: Seq<char>) -> SpanView {
    SpanView { text, style: plain() }
}

/// A piece of text in a color.
pub open spec fn colored_span(text: Seq<char>, color: Color) -> SpanView {
    SpanView { text, style: Style { color: Some(color), bold: false, underlined: false } }
}

/// A piece of bold text in a color.
pub open spec fn bold_span(text: Seq<char>, color: Color) -> SpanView {
    SpanView { text, style: Style { color: Some(color), bold: true, underlined: false } }
}

/// A line of plain text.
pub open spec fn text_line(text: Seq<char>) -> Seq<SpanView> {
    seq![raw_span(text)]
}

/// A piece of plain text.
pub fn raw(text: &str) -> (s: Span)
    ensures
        s@ == raw_span(text@),
{
    Span { text: text.to_owned(), style: Style { color: None, bold: false, underlined: false } }
}

/// A piece of plain text from its characters.
pub fn raw_of(text: &[char]) -> (s: Span)
    ensures
        s@ == raw_span(text@),
{
    Span {
        text: string_of(text),
        style: Style { color: None, bold: false, underlined: false },
    }
}

/// A piece of text in a color.
pub fn colored(text: &str, color: Color) -> (s: Span)
    ensures
        s@ == colored_span(text@, color),
{
    Span {
        text: text.to_owned(),
        style: Style { color: Some(color), bold: false, underlined: false },
    }
}

/// A piece of bold text in a color.
pub fn bold(text: &str, color: Color) -> (s: Span)
    ensures
        s@ == bold_span(text@, color),
{
    Span {
        text: text.to_owned(),
        style: Style { color: Some(color), bold: true, underlined: false },
    }
}

/// A heading of a column, in bold, and underlined where the table is ordered by
/// that column.
pub open spec fn heading(text: Seq<char>, underlined: bool) -> SpanView {
    SpanView { text, style: Style { color: None, bold: true, underlined } }
}

/// A heading of a column.
pub fn heading_of(text: &str, underlined: bool) -> (s: Span)
    ensures
        s@ == heading(text@, underlined),
{
    Span { text: text.to_owned(), style: Style { color: None, bold: true, underlined } }
}

/// Adds a piece to the end of a line.
pub fn add_span(spans: &mut Vec<Span>, span: Span)
    ensures
        spans_in(final(spans)@) == spans_in(old(spans)@).push(span@),
{
    let ghost before = spans@;
    spans.push(span);
    assert(spans_in(spans@) =~= spans_in(before).push(span@));
}

/// Adds a line to the end.
pub fn add_line(lines: &mut Vec<Vec<Span>>, line: Vec<Span>)
    ensures
        lines_in(final(lines)@) == lines_in(old(lines)@).push(spans_in(line@)),
{
    let ghost before = lines@;
    lines.push(line);
    assert(lines_in(lines@) =~= lines_in(before).push(spans_in(line@)));
}

/// Adds a line of plain text to the end.
pub fn add_text(lines: &mut Vec<Vec<Span>>, text: &[char])
    ensures
        lines_in(final(lines)@) == lines_in(old(lines)@).push(text_line(text@)),
{
    let mut line: Vec<Span> = Vec::new();
    assert(spans_in(line@) =~= Seq::empty());
    add_span(&mut line, raw_of(text));
    assert(spans_in(line@) =~= text_line(text@));
    add_line(lines, line);
}

/// Adds an empty line to the end.
pub fn add_blank(lines: &mut Vec<Vec<Span>>)
    ensures
        lines_in(final(lines)@) == lines_in(old(lines)@).push(Seq::empty()),
{
    let line: Vec<Span> = Vec::new();
    assert(spans_in(line@) =~= Seq::empty());
    add_line(lines, line);
}

/// Adds a line of three pieces to the end.
pub fn add_three(lines: &mut Vec<Vec<Span>>, a: Span, b: Span, c: Span)
    ensures
        lines_in(final(lines)@) == lines_in(old(lines)@).push(seq![a@, b@, c@]),
{
    let mut line: Vec<Span> = Vec::new();
    assert(spans_in(line@) =~= Seq::empty());
    let ghost wanted = seq![a@, b@, c@];
    add_span(&mut line, a);
    add_span(&mut line, b);
    add_span(&mut line, c);
    assert(spans_in(line@) =~= wanted);
    add_line(lines, line);
}

/// Adds a line of two pieces to the end.
pub fn add_two(lines: &mut Vec<Vec<Span>>, a: Span, b: Span)
    ensures
        lines_in(final(lines)@) == lines_in(old(lines)@).push(seq![a@, b@]),
{
    let mut line: Vec<Span> = Vec::new();
    assert(spans_in(line@) =~= Seq::empty());
    let ghost wanted = seq![a@, b@];
    add_span(&mut line, a);
    add_span(&mut line, b);
    assert(spans_in(line@) =~= wanted);
    add_line(lines, line);
}

/// Adds a row to the end.
pub fn add_row(rows: &mut Vec<Vec<String>>, row: Vec<String>)
    ensures
        rows_in(final(rows)@) == rows_in(old(rows)@).push(strings(row@)),
{
    let ghost before = rows@;
    rows.push(row);
    assert(rows_in(rows@) =~= rows_in(before).push(strings(row@)));
}

/// Adds a row of two cells to the end.
pub fn add_pair(rows: &mut Vec<Vec<String>>, left: String, right: String)
    ensures
        rows_in(final(rows)@) == rows_in(old(rows)@).push(seq![left@, right@]),
{
    let ghost wanted = seq![left@, right@];
    let mut row: Vec<String> = Vec::new();
    row.push(left);
    row.push(right);
    assert(strings(row@) =~= wanted);
    add_row(rows, row);
}

/// The text made of a string and what follows it.
pub fn labelled(label: &str, value: &[char]) -> (out: Vec<char>)
    ensures
        out@ == label@ + value@,
{
    let mut out = chars_of(label);
    crate::text::push_all(&mut out, value);
    out
}

} // verus!
