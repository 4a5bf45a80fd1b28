//! Styled lines of text, and the space that they take.
use unicode_width::{UnicodeWidthChar, UnicodeWidthStr};
use vstd::prelude::*;
use vstd::string::*;
use crate::text;

verus! {

// ---------- Styles ----------

/// A color: that of the terminal, one of its named colors, one of its palette, or a mixture.
#[derive(Debug, Clone, Copy, PartialEq, Eq, Structural)]
pub enum TextColor {
    Reset,
    Black,
    Red,
    Green,
    Yellow,
    Blue,
    Magenta,
    Cyan,
    Gray,
    DarkGray,
    LightRed,
    LightGreen,
    LightYellow,
    LightBlue,
    LightMagenta,
    LightCyan,
    White,
    Indexed(u8),
    Rgb(u8, u8, u8),
}

/// The modifier of bold text.
pub const BOLD: u16 = 1;

/// A style: colors, and the modifiers that are added and taken away.
#[derive(Debug, Clone, Copy, PartialEq, Eq, Structural)]
pub struct TextStyle {
    pub fg: Option<TextColor>,
    pub bg: Option<TextColor>,
    pub added: u16,
    pub removed: u16,
}

impl TextStyle {
    /// No style.
    pub open spec fn plain() -> TextStyle {
        TextStyle { fg: None, bg: None, added: 0, removed: 0 }
    }

    /// Light gray.
    pub open spec fn gray() -> TextStyle {
        TextStyle { fg: Some(TextColor::Rgb(120, 120, 120)), ..TextStyle::plain() }
    }

    /// Bold.
    pub open spec fn bold() -> TextStyle {
        TextStyle { added: BOLD, ..TextStyle::plain() }
    }

    /// Light gray and bold.
    pub open spec fn gray_bold() -> TextStyle {
        TextStyle { added: BOLD, ..TextStyle::gray() }
    }

    /// White on dark gray.
    pub open spec fn bubble() -> TextStyle {
        TextStyle { fg: Some(TextColor::White), bg: Some(TextColor::Rgb(60, 60, 60)), ..TextStyle::plain() }
    }
}

/// No style.
pub fn plain() -> (r: TextStyle)
    ensures
        r == TextStyle::plain(),
{
    TextStyle { fg: None, bg: None, added: 0, removed: 0 }
}

/// Light gray.
pub fn gray() -> (r: TextStyle)
    ensures
        r == TextStyle::gray(),
{
    TextStyle { fg: Some(TextColor::Rgb(120, 120, 120)), bg: None, added: 0, removed: 0 }
}

/// Bold.
pub fn bold() -> (r: TextStyle)
    ensures
        r == TextStyle::bold(),
{
    TextStyle { fg: None, bg: None, added: BOLD, removed: 0 }
}

/// Light gray and bold.
pub fn gray_bold() -> (r: TextStyle)
    ensures
        r == TextStyle::gray_bold(),
{
    TextStyle { fg: Some(TextColor::Rgb(120, 120, 120)), bg: None, added: BOLD, removed: 0 }
}

/// White on dark gray.
pub fn bubble() -> (r: TextStyle)
    ensures
        r == TextStyle::bubble(),
{
    TextStyle {
        fg: Some(TextColor::White),
        bg: Some(TextColor::Rgb(60, 60, 60)),
        added: 0,
        removed: 0,
    }
}

// ---------- Lines ----------

/// Where a line stands in its area.
#[derive(Debug, Clone, Copy, PartialEq, Eq, Structural)]
pub enum Alignment {
    Left,
    Center,
    Right,
}

/// A text in one style.
#[derive(Debug)]
pub struct Span {
    pub content: String,
    pub style: TextStyle,
}

/// What a `Span` holds.
#[verifier::ext_equal]
pub struct SpanModel {
    pub content: Seq<char>,
    pub style: TextStyle,
}

impl View for Span {
    type V = SpanModel;

    open spec fn view(&self) -> SpanModel {
        SpanModel { content: self.content@, style: self.style }
    }
}

/// A line of texts.
#[derive(Debug)]
pub struct Line {
    pub spans: Vec<Span>,
    pub style: TextStyle,
    pub alignment: Option<Alignment>,
}

/// What a `Line` holds.
#[verifier::ext_equal]
pub struct LineModel {
    pub spans: Seq<SpanModel>,
    pub style: TextStyle,
    pub alignment: Option<Alignment>,
}

/// What a list of spans holds.
pub open spec fn span_models(spans: Seq<Span>) -> Seq<SpanModel> {
    Seq::new(spans.len(), |i: int| spans[i]@)
}

impl View for Line {
    type V = LineModel;

    open spec fn view(&self) -> LineModel {
        LineModel {
            spans: span_models(self.spans@),
            style: self.style,
            alignment: self.alignment,
        }
    }
}

/// What a list of lines holds.
pub open spec fn line_models(lines: Seq<Line>) -> Seq<LineModel> {
    Seq::new(lines.len(), |i: int| lines[i]@)
}

/// A text in a style.
pub open spec fn span_of(content: Seq<char>, style: TextStyle) -> SpanModel {
    SpanModel { content, style }
}

/// A line of texts, without a style or an alignment of its own.
pub open spec fn line_of(spans: Seq<SpanModel>) -> LineModel {
    LineModel { spans, style: TextStyle::plain(), alignment: None }
}

/// An empty line.
pub open spec fn empty_line() -> LineModel {
    line_of(Seq::empty())
}

/// A text in a style.
pub fn span(content: &str, style: TextStyle) -> (r: Span)
    ensures
        r@ == span_of(content@, style),
{
    Span { content: content.to_owned(), style }
}

/// A line without texts.
pub fn blank_line() -> (r: Line)
    ensures
        r@ == empty_line(),
{
    let r = Line { spans: Vec::new(), style: plain(), alignment: None };
    assert(r@.spans =~= Seq::empty());
    r
}

/// A line of texts.
pub fn line(spans: Vec<Span>) -> (r: Line)
    ensures
        r@ == line_of(span_models(spans@)),
{
    Line { spans, style: plain(), alignment: None }
}

/// A line of one text.
pub fn line1(a: Span) -> (r: Line)
    ensures
        r@ == line_of(seq![a@]),
{
    let mut spans: Vec<Span> = Vec::new();
    spans.push(a);
    assert(span_models(spans@) =~= seq![a@]);
    line(spans)
}

/// A line of two texts.
pub fn line2(a: Span, b: Span) -> (r: Line)
    ensures
        r@ == line_of(seq![a@, b@]),
{
    let mut spans: Vec<Span> = Vec::new();
    spans.push(a);
    spans.push(b);
    assert(span_models(spans@) =~= seq![a@, b@]);
    line(spans)
}

/// A line of three texts.
pub fn line3(a: Span, b: Span, c: Span) -> (r: Line)
    ensures
        r@ == line_of(seq![a@, b@, c@]),
{
    let mut spans: Vec<Span> = Vec::new();
    spans.push(a);
    spans.push(b);
    spans.push(c);
    assert(span_models(spans@) =~= seq![a@, b@, c@]);
    line(spans)
}

/// A copy of a line.
pub fn copy_line(source: &Line) -> (r: Line)
    ensures
        r@ == source@,
{
    let mut spans: Vec<Span> = Vec::new();
    let mut i: usize = 0;
    while i < source.spans.len()
        invariant
            i <= source.spans@.len(),
            spans@.len() == i,
            forall|k: int| 0 <= k < i ==> (#[trigger] spans@[k])@ == source.spans@[k]@,
        decreases source.spans.len() - i,
    {
        spans.push(span(source.spans[i].content.as_str(), source.spans[i].style));
        i += 1;
    }
    let r = Line { spans, style: source.style, alignment: source.alignment };
    assert(r@.spans =~= source@.spans);
    r
}

// ---------- Widths ----------

/// The columns that a character takes, as `unicode_width` has them; none for control
/// characters.
pub uninterp spec fn char_columns(c: char) -> Option<usize>;

/// The columns that a text takes, as `unicode_width` has them.
pub uninterp spec fn text_columns(s: Seq<char>) -> usize;

/// `c` is a printable ASCII character.
pub open spec fn is_printable(c: char) -> bool {
    ' ' <= c < '\x7f'
}

/// `s` is made of printable ASCII characters.
pub open spec fn all_printable(s: Seq<char>) -> bool {
    forall|i: int| 0 <= i < s.len() ==> is_printable(#[trigger] s[i])
}

/// The columns that a character takes; no columns for control characters.
pub open spec fn cells(c: char) -> nat {
    if is_printable(c) {
        1
    } else {
        match char_columns(c) {
            Some(columns) => columns as nat,
            None => 0,
        }
    }
}

/// The columns that a text takes: one for each character where all are printable ASCII.
pub open spec fn text_cells(s: Seq<char>) -> nat {
    if all_printable(s) {
        s.len()
    } else {
        text_columns(s) as nat
    }
}

/// The columns that a character takes, by `unicode_width`'s `width` of a `char`: one for
/// printable ASCII characters, none for ASCII control characters, and 255 at most. Of other
/// characters the number is named.
#[verifier::external_body]
fn char_width_of(c: char) -> (r: Option<usize>)
    ensures
        r == char_columns(c),
        is_printable(c) ==> r == Some(1usize),
        c < ' ' ==> r is None,
        r matches Some(columns) ==> columns <= 255,
{
    UnicodeWidthChar::width(c)
}

/// The columns that a text takes, by `unicode_width`'s `width` of a `str`: one for each
/// character of a text of printable ASCII characters. Of other texts the number is named.
#[verifier::external_body]
pub(crate) fn text_width(s: &str) -> (r: usize)
    ensures
        r == (if all_printable(s@) {
            s@.len()
        } else {
            text_columns(s@) as nat
        }),
{
    UnicodeWidthStr::width(s)
}

/// The columns that a character takes; no columns for control characters.
pub fn char_cells(c: char) -> (r: usize)
    ensures
        r == cells(c),
        r <= 255,
        is_printable(c) ==> r == 1,
        c < ' ' ==> r == 0,
{
    match char_width_of(c) {
        Some(columns) => columns,
        None => 0,
    }
}

// ---------- Heights ----------

/// The rows that lines take in a paragraph of `ratatui` that wraps them at a width; each line
/// is given by its texts.
pub uninterp spec fn paragraph_rows(lines: Seq<Seq<Seq<char>>>, width: u16) -> usize;

/// The texts of a line.
pub open spec fn contents(line: LineModel) -> Seq<Seq<char>> {
    Seq::new(line.spans.len(), |i: int| line.spans[i].content)
}

/// The texts of lines.
pub open spec fn all_contents(lines: Seq<LineModel>) -> Seq<Seq<Seq<char>>> {
    Seq::new(lines.len(), |i: int| contents(lines[i]))
}

/// What a list of lists of texts holds.
pub open spec fn nested_texts(lines: Seq<Vec<String>>) -> Seq<Seq<Seq<char>>> {
    Seq::new(lines.len(), |i: int| text::texts(lines[i]@))
}

/// The most columns that lines can be wrapped at.
pub const MAX_COLUMNS: u16 = 0x3fff;

/// The rows that lines take at a width, by `line_count` of a `Paragraph` of `ratatui` that
/// wraps without trimming; each line is made of raw spans with the texts. The number is named.
/// The paragraph adds up to four widths of parts of a line, none of them greater than the width
/// that it wraps at, in sixteen bits, and panics where the sum is greater; that many columns at
/// most keep it within them.
#[verifier::external_body]
fn count_rows(lines: &Vec<Vec<String>>, width: u16) -> (r: usize)
    requires
        width <= MAX_COLUMNS,
    ensures
        r == paragraph_rows(nested_texts(lines@), width),
{
    let text: Vec<ratatui::text::Line<'_>> = lines.iter().map(
        |spans| spans.iter().map(|s| ratatui::text::Span::raw(s.as_str())).collect(),
    ).collect();
    ratatui::widgets::Paragraph::new(text).wrap(
        ratatui::widgets::Wrap { trim: false },
    ).line_count(width)
}

/// The texts of a line.
fn line_texts(line: &Line) -> (r: Vec<String>)
    ensures
        text::texts(r@) == contents(line@),
{
    let mut out: Vec<String> = Vec::new();
    let mut i: usize = 0;
    while i < line.spans.len()
        invariant
            i <= line.spans@.len(),
            out@.len() == i,
            forall|k: int| 0 <= k < i ==> (#[trigger] out@[k])@ == line.spans@[k].content@,
        decreases line.spans.len() - i,
    {
        out.push(line.spans[i].content.clone());
        i += 1;
    }
    assert(text::texts(out@) =~= contents(line@));
    out
}

/// The rows that a line takes at a width.
pub fn line_height(line: &Line, width: u16) -> (r: usize)
    requires
        width <= MAX_COLUMNS,
    ensures
        r == paragraph_rows(seq![contents(line@)], width),
{
    let mut lines: Vec<Vec<String>> = Vec::new();
    lines.push(line_texts(line));
    assert(nested_texts(lines@) =~= seq![contents(line@)]);
    count_rows(&lines, width)
}

/// The rows that lines take at a width.
pub fn lines_height(lines: &Vec<Line>, width: u16) -> (r: usize)
    requires
        width <= MAX_COLUMNS,
    ensures
        r == paragraph_rows(all_contents(line_models(lines@)), width),
{
    let mut out: Vec<Vec<String>> = Vec::new();
    let mut i: usize = 0;
    while i < lines.len()
        invariant
            i <= lines@.len(),
            out@.len() == i,
            forall|k: int| 0 <= k < i ==> text::texts((#[trigger] out@[k])@) == contents(lines@[k]@),
        decreases lines.len() - i,
    {
        out.push(line_texts(&lines[i]));
        i += 1;
    }
    assert(nested_texts(out@) =~= all_contents(line_models(lines@)));
    count_rows(&out, width)
}

/// A line is its texts, in their order and their styles, and nothing else.
pub proof fn lines_are_their_spans(spans: Seq<SpanModel>)
    ensures
        line_of(spans).spans == spans,
        line_of(spans).style == TextStyle::plain(),
        line_of(spans).alignment is None,
        contents(line_of(spans)).len() == spans.len(),
        forall|i: int|
            0 <= i < spans.len() ==> #[trigger] contents(line_of(spans))[i] == spans[i].content,
{
}

} // verus!
