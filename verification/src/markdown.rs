//! Answers in Markdown.
use ratatui::layout;
use ratatui::style::{self, Color};
use vstd::prelude::*;
use vstd::string::*;
use crate::line;
use crate::line::{gray, Alignment, Line, LineModel, Span, TextColor, TextStyle};
use crate::text;
use crate::text::{count_char, split_text, to_chars};

verus! {

/// `ratatui`'s style, in which the renderer of Markdown asks for styles and gives them.
#[verifier::external_type_specification]
#[verifier::external_body]
pub struct ExStyle(ratatui::style::Style);

/// `ratatui`'s color.
#[verifier::external_type_specification]
#[verifier::external_body]
pub struct ExColor(ratatui::style::Color);

/// The same color as `ratatui` has it.
#[verifier::external_body]
fn painted_color(color: TextColor) -> Color {
    match color {
        TextColor::Reset => Color::Reset, TextColor::Black => Color::Black,
        TextColor::Red => Color::Red, TextColor::Green => Color::Green,
        TextColor::Yellow => Color::Yellow, TextColor::Blue => Color::Blue,
        TextColor::Magenta => Color::Magenta, TextColor::Cyan => Color::Cyan,
        TextColor::Gray => Color::Gray, TextColor::DarkGray => Color::DarkGray,
        TextColor::LightRed => Color::LightRed,
        TextColor::LightGreen => Color::LightGreen,
        TextColor::LightYellow => Color::LightYellow,
        TextColor::LightBlue => Color::LightBlue,
        TextColor::LightMagenta => Color::LightMagenta,
        TextColor::LightCyan => Color::LightCyan, TextColor::White => Color::White,
        TextColor::Indexed(i) => Color::Indexed(i),
        TextColor::Rgb(r, g, b) => Color::Rgb(r, g, b),
    }
}

/// The same color as the library has it.
#[verifier::external_body]
fn own_color(color: Color) -> TextColor {
    match color {
        Color::Reset => TextColor::Reset, Color::Black => TextColor::Black,
        Color::Red => TextColor::Red, Color::Green => TextColor::Green,
        Color::Yellow => TextColor::Yellow, Color::Blue => TextColor::Blue,
        Color::Magenta => TextColor::Magenta, Color::Cyan => TextColor::Cyan,
        Color::Gray => TextColor::Gray, Color::DarkGray => TextColor::DarkGray,
        Color::LightRed => TextColor::LightRed,
        Color::LightGreen => TextColor::LightGreen,
        Color::LightYellow => TextColor::LightYellow,
        Color::LightBlue => TextColor::LightBlue,
        Color::LightMagenta => TextColor::LightMagenta,
        Color::LightCyan => TextColor::LightCyan, Color::White => TextColor::White,
        Color::Indexed(i) => TextColor::Indexed(i),
        Color::Rgb(r, g, b) => TextColor::Rgb(r, g, b),
    }
}

/// The same style as `ratatui` has it.
#[verifier::external_body]
fn painted_style(text: TextStyle) -> style::Style {
    style::Style {
        fg: text.fg.map(painted_color),
        bg: text.bg.map(painted_color),
        add_modifier: style::Modifier::from_bits_retain(text.added),
        sub_modifier: style::Modifier::from_bits_retain(text.removed),
        ..style::Style::default()
    }
}

/// The same style as the library has it.
#[verifier::external_body]
fn own_style(style: style::Style) -> TextStyle {
    TextStyle {
        fg: style.fg.map(own_color),
        bg: style.bg.map(own_color),
        added: style.add_modifier.bits(),
        removed: style.sub_modifier.bits(),
    }
}

/// How Markdown looks: code is light gray.
#[derive(Clone)]
struct MarkdownStyle;

impl tui_markdown::StyleSheet for MarkdownStyle {
    #[verifier::external_body]
    fn code(&self) -> style::Style {
        painted_style(gray())
    }
}

// ---------- Nesting ----------

/// The most lists inside each other whose items can be numbered.
pub const MAX_NESTED_LISTS: usize = 16384;

/// The most spaces and tabs on a line that never nest that many lists.
pub const MAX_LINE_BLANKS: usize = 8191;

/// `c` may follow the mark of an item of a list.
pub open spec fn is_gap(c: char) -> bool {
    c == ' ' || c == '\t' || c == '\n' || c == '\r'
}

/// The mark of an item of a list may end at `i`: a hyphen, a plus sign, an asterisk, or a period
/// or parenthesis behind a digit, with a gap or nothing behind it.
pub open spec fn ends_mark(text: Seq<char>, i: int) -> bool {
    &&& text[i] == '-' || text[i] == '+' || text[i] == '*' || ((text[i] == '.' || text[i] == ')')
        && i > 0 && '0' <= text[i - 1] <= '9')
    &&& i + 1 == text.len() || is_gap(text[i + 1])
}

/// How many marks of items of lists there may be among the first `n` characters.
pub open spec fn list_marks(text: Seq<char>, n: nat) -> nat
    decreases n,
{
    if n == 0 {
        0
    } else {
        list_marks(text, (n - 1) as nat) + if ends_mark(text, n - 1) {
            1nat
        } else {
            0nat
        }
    }
}

/// No line of `text` holds more than `MAX_LINE_BLANKS` spaces and tabs.
pub open spec fn has_short_blanks(text: Seq<char>) -> bool {
    forall|k: int|
        0 <= k < text::split(text, '\n').len() ==> text::occurrences(
            #[trigger] text::split(text, '\n')[k],
            ' ',
        ) + text::occurrences(text::split(text, '\n')[k], '\t') <= MAX_LINE_BLANKS
}

/// `text` has no more than `MAX_NESTED_LISTS` lists inside each other, by the number of marks or
/// by the blanks that they take on a line.
pub open spec fn nests_shallowly(text: Seq<char>) -> bool {
    list_marks(text, text.len()) <= MAX_NESTED_LISTS || has_short_blanks(text)
}

/// Tells whether there are few marks of items of lists.
fn few_marks(text: &str) -> (r: bool)
    ensures
        r == (list_marks(text@, text@.len()) <= MAX_NESTED_LISTS),
{
    let chars = to_chars(text);
    let mut count: usize = 0;
    let mut i: usize = 0;
    while i < chars.len()
        invariant
            chars@ == text@,
            i <= chars@.len(),
            count <= i,
            count == list_marks(text@, i as nat),
        decreases chars.len() - i,
    {
        let c = chars[i];
        let sign = c == '-' || c == '+' || c == '*' || ((c == '.' || c == ')') && i > 0 && '0'
            <= chars[i - 1] && chars[i - 1] <= '9');
        let gap = if i + 1 == chars.len() {
            true
        } else {
            let next = chars[i + 1];
            next == ' ' || next == '\t' || next == '\n' || next == '\r'
        };
        assert((sign && gap) == ends_mark(text@, i as int));
        if sign && gap {
            count += 1;
        }
        i += 1;
    }
    count <= MAX_NESTED_LISTS
}

/// Tells whether every line holds few spaces and tabs.
fn short_blanks(text: &str) -> (r: bool)
    ensures
        r == has_short_blanks(text@),
{
    let lines = split_text(text, '\n');
    let ghost views = text::split(text@, '\n');
    let mut i: usize = 0;
    while i < lines.len()
        invariant
            i <= lines@.len(),
            views == text::split(text@, '\n'),
            views == text::texts(lines@),
            forall|k: int|
                0 <= k < i ==> text::occurrences(#[trigger] views[k], ' ') + text::occurrences(views[k], '\t')
                    <= MAX_LINE_BLANKS,
        decreases lines.len() - i,
    {
        let spaces = count_char(lines[i].as_str(), ' ');
        let tabs = count_char(lines[i].as_str(), '\t');
        assert(views[i as int] == lines@[i as int]@);
        if spaces > MAX_LINE_BLANKS || tabs > MAX_LINE_BLANKS - spaces {
            return false;
        }
        i += 1;
    }
    true
}

/// Tells whether a text has no more lists inside each other than can be numbered.
pub fn lists_are_shallow(text: &str) -> (r: bool)
    ensures
        r == nests_shallowly(text@),
{
    few_marks(text) || short_blanks(text)
}

// ---------- Rendering ----------

/// The lines that `tui_markdown` renders a text as, with light gray code.
pub uninterp spec fn markdown_lines(text: Seq<char>) -> Seq<LineModel>;

/// The lines that `tui_markdown::from_str_with_options` renders `text` as, with code in the
/// style of `MarkdownStyle`, named. It formats the number of an item in a width of four columns
/// for every list around it, less three, and panics where that width takes more than sixteen
/// bits. No text nests more lists than it has marks of items; and every list around an item
/// takes a mark with a blank behind it or two columns of indentation on the line of the item,
/// where a tab has four.
#[verifier::external_body]
fn render_markdown(text: &str) -> (r: Vec<Line>)
    requires
        nests_shallowly(text@),
    ensures
        line::line_models(r@) == markdown_lines(text@),
{
    let options = tui_markdown::Options::new(MarkdownStyle);
    tui_markdown::from_str_with_options(text, &options).lines.into_iter().map(|line| Line {
        spans: line.spans.into_iter().map(|span| Span {
            content: span.content.into_owned(),
            style: own_style(span.style),
        }).collect(),
        style: own_style(line.style),
        alignment: line.alignment.map(|alignment| match alignment {
            layout::Alignment::Left => Alignment::Left,
            layout::Alignment::Center => Alignment::Center,
            layout::Alignment::Right => Alignment::Right,
        }),
    }).collect()
}

/// The lines of an answer.
pub fn assistant_message_lines(text: &str) -> (r: Vec<Line>)
    requires
        nests_shallowly(text@),
    ensures
        line::line_models(r@) == markdown_lines(text@),
{
    render_markdown(text)
}

} // verus!
