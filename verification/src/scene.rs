//! What stands on the screen, and where.
use ratatui::layout;
use vstd::prelude::*;
use vstd::string::*;
use crate::clock;
use crate::clock::{animation_frame, compact_duration, Instant};
use crate::count;
use crate::input;
use crate::input::{Input, InputModel};
use crate::line;
use crate::line::{
    blank_line, gray, line1, line2, lines_height, plain, span, text_width, Line, LineModel,
    MAX_COLUMNS, TextStyle,
};
use crate::rows;
use crate::rows::{can_render, history_content};
use crate::screen;
use crate::screen::{highlighted, CONTENT_GUTTER, Rect};
use crate::text;
use crate::text::{count_char, push_repeated, slice_text, split_text, to_chars};
use crate::thinking;
use crate::ui::{ChatRow, Phase, Ui, UiModel};

verus! {

/// The columns left free at the left and the right of the input.
pub const INPUT_GUTTER: u16 = 2;

// ---------- Areas ----------

/// What an area is to be split into: a part of a length, or one of a length at least.
#[derive(Debug, Clone, Copy, PartialEq, Eq, Structural)]
pub enum Size {
    Length(u16),
    Min(u16),
}

/// Which way an area is split.
#[derive(Debug, Clone, Copy, PartialEq, Eq, Structural)]
pub enum Axis {
    Across,
    Down,
}

/// `part` is as high as the area that is split across, or as wide as the one that is split
/// down.
pub open spec fn is_part(part: Rect, area: Rect, axis: Axis) -> bool {
    match axis {
        Axis::Across => part.y == area.y && part.height == area.height,
        Axis::Down => part.x == area.x && part.width == area.width,
    }
}

/// The least length of a part of a size.
pub open spec fn least(size: Size) -> nat {
    match size {
        Size::Length(n) => n as nat,
        Size::Min(n) => n as nat,
    }
}

/// The least length of parts of these sizes together.
pub open spec fn least_total(sizes: Seq<Size>) -> nat
    decreases sizes.len(),
{
    if sizes.len() == 0 {
        0
    } else {
        least_total(sizes.drop_last()) + least(sizes.last())
    }
}

/// How many of the sizes can grow.
pub open spec fn growing(sizes: Seq<Size>) -> nat
    decreases sizes.len(),
{
    if sizes.len() == 0 {
        0
    } else {
        growing(sizes.drop_last()) + if sizes.last() is Min {
            1
        } else {
            0nat
        }
    }
}

/// Where an area starts along an axis.
pub open spec fn start_along(area: Rect, axis: Axis) -> u16 {
    match axis {
        Axis::Across => area.x,
        Axis::Down => area.y,
    }
}

/// How long an area is along an axis.
pub open spec fn length_along(area: Rect, axis: Axis) -> u16 {
    match axis {
        Axis::Across => area.width,
        Axis::Down => area.height,
    }
}

/// The area lies on a screen of ordinary size, has room for parts of these sizes, and one of
/// the sizes can grow.
pub open spec fn has_room(area: Rect, axis: Axis, sizes: Seq<Size>) -> bool {
    &&& growing(sizes) == 1
    &&& least_total(sizes) <= length_along(area, axis) <= i16::MAX
    &&& start_along(area, axis) + length_along(area, axis) <= u16::MAX
}

/// How long the part of a size is where there is room for all: as long as its size, or as long
/// as the other parts leave room for.
pub open spec fn part_len(size: Size, sizes: Seq<Size>, length: nat) -> int {
    match size {
        Size::Length(n) => n as int,
        Size::Min(n) => length - (least_total(sizes) - n),
    }
}

/// How long the first `i` parts are together, where there is room for all.
pub open spec fn parts_before(sizes: Seq<Size>, length: nat, i: nat) -> int
    decreases i,
{
    if i == 0 {
        0
    } else {
        parts_before(sizes, length, (i - 1) as nat) + part_len(sizes[i - 1], sizes, length)
    }
}

/// `parts` are parts of the area of these sizes: one for every size, each as high or as wide
/// as the area, and where there is room for all, one after the other in their lengths.
pub open spec fn are_parts(parts: Seq<Rect>, area: Rect, axis: Axis, sizes: Seq<Size>) -> bool {
    let length = length_along(area, axis) as nat;
    &&& parts.len() == sizes.len()
    &&& forall|i: int| 0 <= i < parts.len() ==> is_part(#[trigger] parts[i], area, axis)
    &&& has_room(area, axis, sizes) ==> forall|i: int|
        #![trigger parts[i]]
        0 <= i < parts.len() ==> {
            &&& start_along(parts[i], axis) == start_along(area, axis) + parts_before(
                sizes,
                length,
                i as nat,
            )
            &&& length_along(parts[i], axis) == part_len(sizes[i], sizes, length)
        }
}

/// Splits an area with the `Layout` of `ratatui`. There is one part for every size, and each
/// is as high or as wide as the area. Where one size can grow and all have room, the parts
/// stand one after the other, each of a fixed size as long as that, and the one that can grow
/// takes what is left: its solver gives fixed sizes and least sizes precedence over growing,
/// and growing over room at the end. Where there is no room for all, which of them gives way
/// is not said: its solver walks hash maps that each process seeds.
#[verifier::external_body]
fn split_area(area: Rect, axis: Axis, sizes: &Vec<Size>) -> (r: Vec<Rect>)
    ensures
        are_parts(r@, area, axis, sizes@),
{
    let direction = match axis {
        Axis::Across => layout::Direction::Horizontal,
        Axis::Down => layout::Direction::Vertical,
    };
    let sizes = sizes.iter().map(|size| match size {
        Size::Length(n) => layout::Constraint::Length(*n),
        Size::Min(n) => layout::Constraint::Min(*n),
    });
    let whole = layout::Rect { x: area.x, y: area.y, width: area.width, height: area.height };
    let parts = layout::Layout::new(direction, sizes).split(whole);
    let part = |r: &layout::Rect| Rect { x: r.x, y: r.y, width: r.width, height: r.height };
    parts.iter().map(part).collect()
}

/// `area` without a margin at the left and at the right; nothing where it is too narrow.
pub open spec fn inside(area: Rect, margin: u16) -> Rect {
    if area.width < 2 * margin {
        Rect::nothing()
    } else {
        Rect {
            x: screen::capped(area.x + margin),
            y: area.y,
            width: (area.width - 2 * margin) as u16,
            height: area.height,
        }
    }
}

/// `area` without a margin at the left and at the right.
pub fn inner(area: Rect, margin: u16) -> (r: Rect)
    ensures
        r == inside(area, margin),
{
    if (area.width as u32) < 2 * margin as u32 {
        Rect::empty()
    } else {
        Rect {
            x: area.x.saturating_add(margin),
            y: area.y,
            width: area.width - margin - margin,
            height: area.height,
        }
    }
}

/// `n` without `m`, and not below zero.
pub open spec fn less(n: u16, m: u16) -> u16 {
    if n >= m {
        (n - m) as u16
    } else {
        0
    }
}

/// The inside of a border with padding.
pub open spec fn inside_border(area: Rect, padding: u16) -> Rect {
    Rect {
        x: screen::capped(
            (if screen::capped(area.x + 1) < area.right() {
                screen::capped(area.x + 1)
            } else {
                area.right()
            }) + padding,
        ),
        y: screen::capped(
            (if screen::capped(area.y + 1) < area.bottom() {
                screen::capped(area.y + 1)
            } else {
                area.bottom()
            }) + padding,
        ),
        width: less(less(area.width, 2), screen::capped(padding + padding)),
        height: less(less(area.height, 2), screen::capped(padding + padding)),
    }
}

/// The inside of a bordered `Block` of `ratatui` with the same padding on every side, as its
/// `inner` gives it: a column or a row less on every side for the border, which does not reach
/// beyond the area, and then the padding.
#[verifier::external_body]
fn block_inner(area: Rect, padding: u16) -> (r: Rect)
    ensures
        r == inside_border(area, padding),
{
    let outer = layout::Rect { x: area.x, y: area.y, width: area.width, height: area.height };
    let inner = ratatui::widgets::Block::bordered().padding(
        ratatui::widgets::Padding::uniform(padding),
    ).inner(outer);
    Rect { x: inner.x, y: inner.y, width: inner.width, height: inner.height }
}

/// The areas of the screen.
#[derive(Debug, Clone, Copy, PartialEq, Eq, Structural)]
pub struct Areas {
    pub header: Rect,
    pub chat: Rect,
    pub activity: Rect,
    pub input: Rect,
}

/// The rows of the input: one for each line up to six, and four around them.
pub open spec fn input_rows(value: Seq<char>) -> u16 {
    let lines = text::occurrences(value, '\n') + 1;
    if lines < 6 {
        (lines + 4) as u16
    } else {
        10
    }
}

/// The rows of the input.
pub fn input_height(value: &str) -> (r: u16)
    ensures
        r == input_rows(value@),
{
    let lines = count_char(value, '\n');
    if lines < 5 {
        lines as u16 + 5
    } else {
        10
    }
}

/// The sizes of the parts of the screen, from the top down, when the input takes `rows` rows.
pub open spec fn screen_sizes(activity: bool, rows: u16) -> Seq<Size> {
    seq![
        Size::Length(1),
        Size::Length(2),
        Size::Min(3),
        Size::Length(
            if activity {
                2
            } else {
                0
            },
        ),
        Size::Length(rows),
    ]
}

/// The areas of the screen, from the top down: an empty row, the header, the chat, the
/// activity if there is any, and the input.
pub fn screen_areas(area: Rect, activity: bool, value: &str) -> (r: Areas)
    ensures
        exists|parts: Seq<Rect>|
            are_parts(parts, area, Axis::Down, screen_sizes(activity, input_rows(value@)))
                && r == #[trigger] areas_from(parts),
{
    let mut sizes: Vec<Size> = Vec::new();
    sizes.push(Size::Length(1));
    sizes.push(Size::Length(2));
    sizes.push(Size::Min(3));
    sizes.push(
        Size::Length(
            if activity {
                2
            } else {
                0
            },
        ),
    );
    sizes.push(Size::Length(input_height(value)));
    assert(sizes@ =~= screen_sizes(activity, input_rows(value@)));
    let parts = split_area(area, Axis::Down, &sizes);
    let r = Areas {
        header: inner(parts[1], CONTENT_GUTTER),
        chat: inner(parts[2], CONTENT_GUTTER),
        activity: inner(parts[3], CONTENT_GUTTER),
        input: inner(parts[4], INPUT_GUTTER),
    };
    assert(r == areas_from(parts@));
    r
}

/// The areas of the screen, when `parts` are the parts that it is split into.
pub open spec fn areas_from(parts: Seq<Rect>) -> Areas {
    Areas {
        header: inside(parts[1], CONTENT_GUTTER),
        chat: inside(parts[2], CONTENT_GUTTER),
        activity: inside(parts[3], CONTENT_GUTTER),
        input: inside(parts[4], INPUT_GUTTER),
    }
}

/// The sizes of the parts of the header: the title, and the label.
pub open spec fn header_sizes() -> Seq<Size> {
    seq![Size::Length(3), Size::Min(1)]
}

/// The areas of the title and of the label in the header.
pub fn header_areas(header: Rect) -> (r: (Rect, Rect))
    ensures
        are_parts(seq![r.0, r.1], header, Axis::Across, header_sizes()),
{
    let mut sizes: Vec<Size> = Vec::new();
    sizes.push(Size::Length(3));
    sizes.push(Size::Min(1));
    assert(sizes@ =~= header_sizes());
    let parts = split_area(header, Axis::Across, &sizes);
    assert(parts@ =~= seq![parts@[0], parts@[1]]);
    (parts[0], parts[1])
}

// ---------- The chat ----------

/// How far the chat can be scrolled, when its lines take `count` rows; an empty line at its
/// end does not count.
pub open spec fn scroll_limit(area: Rect, trailing_blank: bool, count: usize) -> u16 {
    let rows = if trailing_blank && count > 0 {
        count - 1
    } else {
        count as int
    };
    less(
        if rows <= u16::MAX {
            rows as u16
        } else {
            u16::MAX
        },
        area.height,
    )
}

/// The last of `lines` has no texts.
pub open spec fn ends_blank(lines: Seq<LineModel>) -> bool {
    lines.len() > 0 && lines.last().spans.len() == 0
}

/// How far the chat can be scrolled, when its lines take `count` rows.
pub fn scroll_limit_of(area: &Rect, trailing_blank: bool, count: usize) -> (r: u16)
    ensures
        r == scroll_limit(*area, trailing_blank, count),
{
    let rows: usize = if trailing_blank {
        count.saturating_sub(1)
    } else {
        count
    };
    let capped_rows: u16 = if rows <= u16::MAX as usize {
        rows as u16
    } else {
        u16::MAX
    };
    capped_rows.saturating_sub(area.height)
}

/// How far the chat can be scrolled.
pub fn history_max_scroll(area: &Rect, lines: &Vec<Line>) -> (r: u16)
    requires
        area.width <= MAX_COLUMNS,
    ensures
        r == scroll_limit(
            *area,
            ends_blank(line::line_models(lines@)),
            line::paragraph_rows(line::all_contents(line::line_models(lines@)), rows::wrap_width(area.width)),
        ),
{
    let width: u16 = if area.width >= 1 {
        area.width
    } else {
        1
    };
    let trailing = lines.len() > 0 && lines[lines.len() - 1].spans.len() == 0;
    scroll_limit_of(area, trailing, lines_height(lines, width))
}

/// The greatest of three numbers.
pub open spec fn greatest(a: nat, b: nat, c: nat) -> nat {
    if a >= b && a >= c {
        a
    } else if b >= c {
        b
    } else {
        c
    }
}

/// The lines of the logo.
pub open spec fn logo_art() -> Seq<Seq<char>> {
    seq!["╺┳╸╻ ╻╻ ╻"@, " ┃ ┣━┫┏╋┛"@, " ╹ ╹ ╹╹ ╹"@]
}

/// The logo in the middle of an area.
pub open spec fn logo(area: Rect) -> Seq<LineModel> {
    let art = logo_art();
    let width = greatest(art[0].len(), art[1].len(), art[2].len());
    let top = (less(area.height, 3) / 2) as nat;
    let left = if area.width >= width {
        ((area.width - width) / 2) as nat
    } else {
        0
    };
    Seq::new(
        top + 3,
        |i: int|
            if i < top {
                line::empty_line()
            } else {
                line::line_of(seq![line::span_of(text::repeated(' ', left) + art[i - top], TextStyle::gray())])
            },
    )
}

/// The logo in the middle of an area.
pub fn empty_logo(area: &Rect) -> (r: Vec<Line>)
    ensures
        line::line_models(r@) == logo(*area),
{
    let mut art: Vec<&'static str> = Vec::new();
    art.push("╺┳╸╻ ╻╻ ╻");
    art.push(" ┃ ┣━┫┏╋┛");
    art.push(" ╹ ╹ ╹╹ ╹");
    let a: usize = art[0].unicode_len();
    let b: usize = art[1].unicode_len();
    let c: usize = art[2].unicode_len();
    let width: usize = if a >= b && a >= c {
        a
    } else if b >= c {
        b
    } else {
        c
    };
    let top: usize = (area.height.saturating_sub(3) / 2) as usize;
    let left: usize = (area.width as usize).saturating_sub(width) / 2;
    let mut lines: Vec<Line> = Vec::new();
    let mut i: usize = 0;
    while i < top
        invariant
            i <= top,
            lines@.len() == i,
            top == less(area.height, 3) / 2,
            forall|k: int| 0 <= k < i ==> (#[trigger] lines@[k])@ == logo(*area)[k],
        decreases top - i,
    {
        lines.push(blank_line());
        i += 1;
    }
    let mut k: usize = 0;
    while k < 3
        invariant
            k <= 3,
            art@.len() == 3,
            art@[0]@ == logo_art()[0],
            art@[1]@ == logo_art()[1],
            art@[2]@ == logo_art()[2],
            width == greatest(art@[0]@.len(), art@[1]@.len(), art@[2]@.len()),
            left == (if area.width >= width {
                (area.width - width) / 2
            } else {
                0
            }),
            top == less(area.height, 3) / 2,
            lines@.len() == top + k,
            forall|j: int| 0 <= j < top + k ==> (#[trigger] lines@[j])@ == logo(*area)[j],
        decreases 3 - k,
    {
        let mut text = String::new();
        push_repeated(&mut text, ' ', left);
        assert(text@ =~= text::repeated(' ', left as nat));
        assert(art@[k as int]@ == logo_art()[k as int]);
        text.append(art[k]);
        lines.push(line1(span(text.as_str(), gray())));
        k += 1;
    }
    assert(line::line_models(lines@) =~= logo(*area));
    lines
}

/// The line on what the assistant is busy with.
pub open spec fn activity_view(activity: Option<(Phase, Instant)>, now: Instant) -> LineModel {
    match activity {
        None => line::empty_line(),
        Some((phase, started)) => {
            let elapsed = clock::between(started, now);
            line::line_of(
                seq![
                    line::span_of(
                        seq![clock::frame_at(elapsed)],
                        TextStyle::plain(),
                    ),
                    line::span_of(" "@ + phase.name() + " "@ + clock::shown(elapsed), TextStyle::gray()),
                ],
            )
        },
    }
}

/// The line on what the assistant is busy with.
pub fn activity_line(ui: &Ui, now: Instant) -> (r: Line)
    ensures
        r@ == activity_view(ui@.activity, now),
{
    match ui.activity {
        None => blank_line(),
        Some((phase, started)) => {
            let elapsed = now.duration_since(started);
            let mut frame = String::new();
            frame.push(animation_frame(elapsed));
            assert(frame@ =~= seq![
                clock::frames()[((elapsed.millis() as u128) as usize / 80) as int % 10],
            ]);
            let mut text = " ".to_owned();
            text.append(phase.label());
            text.append(" ");
            text.append(compact_duration(elapsed).as_str());
            line2(span(frame.as_str(), plain()), span(text.as_str(), gray()))
        },
    }
}

// ---------- The input ----------

/// The input on the screen: its title, the area of its text, how far that is scrolled down and
/// to the right, and where the cursor stands.
#[derive(Debug)]
pub struct InputScene {
    pub title: Option<String>,
    pub area: Rect,
    pub scroll: (u16, u16),
    pub cursor: Option<(u16, u16)>,
}

/// The position of the cursor in the text: the line, and what stands before it in the line.
pub open spec fn cursor_row(value: Seq<char>, position: nat) -> nat {
    text::occurrences(input::head(value, position), '\n')
}

/// What stands before the cursor in its line.
pub open spec fn before_cursor(value: Seq<char>, position: nat) -> Seq<char> {
    text::split(input::head(value, position), '\n').last()
}

/// How far a length is scrolled so that `at` is in sight.
pub open spec fn scrolled_to(at: nat, length: u16) -> nat {
    if at + 1 > length && length > 0 {
        (at + 1 - length) as nat
    } else if length == 0 {
        at
    } else {
        0
    }
}

/// The place of `at` in a length that is scrolled by `scroll`.
pub open spec fn in_sight(start: u16, at: nat, scroll: nat, length: u16) -> u16 {
    let place = at - scroll;
    screen::capped(
        start + if place < length {
            place
        } else {
            length - 1
        },
    )
}

/// A number as one of 16 bits, up to the greatest.
pub open spec fn within_16(n: nat) -> u16 {
    if n <= u16::MAX {
        n as u16
    } else {
        u16::MAX
    }
}

/// How the text of the input is scrolled in its area, when the text before the cursor takes
/// `columns` columns.
pub open spec fn input_scroll(input: InputModel, area: Rect, columns: nat) -> (u16, u16) {
    if area.is_empty() || input.value.len() == 0 {
        (0, 0)
    } else {
        (
            within_16(scrolled_to(cursor_row(input.value, input.position as nat), area.height)),
            within_16(scrolled_to(columns, area.width)),
        )
    }
}

/// Where the cursor stands in the area of the text, when the text before it takes `columns`
/// columns; nowhere while the assistant is busy.
pub open spec fn input_cursor(input: InputModel, area: Rect, busy: bool, columns: nat) -> Option<
    (u16, u16),
> {
    if area.is_empty() || busy {
        None
    } else if input.value.len() == 0 {
        Some((area.x, area.y))
    } else {
        let row = cursor_row(input.value, input.position as nat);
        Some(
            (
                in_sight(area.x, columns, scrolled_to(columns, area.width), area.width),
                in_sight(area.y, row, scrolled_to(row, area.height), area.height),
            ),
        )
    }
}

/// The title of the input: the account of the context, where there is any.
pub open spec fn input_title(ui: UiModel) -> Option<Seq<char>> {
    if ui.context > 0 {
        Some(" "@ + count::context_account(ui.context, ui.context_window) + " "@)
    } else {
        None
    }
}

/// How far a length is scrolled so that `at` is in sight.
fn scroll_to(at: usize, length: u16) -> (r: usize)
    ensures
        r == scrolled_to(at as nat, length),
        r <= at,
{
    at.saturating_sub((length as usize).saturating_sub(1))
}

/// A number as one of 16 bits, up to the greatest.
fn to_16(n: usize) -> (r: u16)
    ensures
        r == within_16(n as nat),
{
    if n <= u16::MAX as usize {
        n as u16
    } else {
        u16::MAX
    }
}

/// The place of `at` in a length that is scrolled by `scroll`.
fn place_in(start: u16, at: usize, scroll: usize, length: u16) -> (r: u16)
    requires
        scroll <= at,
        length > 0,
    ensures
        r == in_sight(start, at as nat, scroll as nat, length),
{
    let place: usize = at - scroll;
    let offset: u16 = if place < length as usize {
        place as u16
    } else {
        length - 1
    };
    start.saturating_add(offset)
}

/// What stands before the cursor.
fn text_before_cursor(input: &Input) -> (r: String)
    ensures
        r@ == input::head(input@.value, input@.position as nat),
{
    let chars = to_chars(input.value.as_str());
    let end: usize = if input.position < chars.len() {
        input.position
    } else {
        chars.len()
    };
    let r = slice_text(&chars, 0, end);
    assert(r@ =~= input::head(input@.value, input@.position as nat));
    r
}

/// The input in its area, when the text before the cursor takes `columns` columns.
pub fn place_input(ui: &Ui, area: Rect, columns: usize) -> (r: InputScene)
    requires
        ui.context_window matches Some(window) ==> window > 0,
    ensures
        thinking::optional(r.title) == input_title(ui@),
        r.area == inside_border(area, 1),
        r.scroll == input_scroll(ui@.input, r.area, columns as nat),
        r.cursor == input_cursor(ui@.input, r.area, ui@.activity is Some, columns as nat),
{
    let title = if ui.context > 0 {
        let mut title = " ".to_owned();
        title.append(ui.context_title().as_str());
        title.append(" ");
        Some(title)
    } else {
        None
    };
    let inner = block_inner(area, 1);
    if inner.width == 0 || inner.height == 0 {
        return InputScene { title, area: inner, scroll: (0, 0), cursor: None };
    }
    let busy = ui.activity.is_some();
    if ui.input.value.as_str().unicode_len() == 0 {
        let cursor = if busy {
            None
        } else {
            Some((inner.x, inner.y))
        };
        return InputScene { title, area: inner, scroll: (0, 0), cursor };
    }
    let before = text_before_cursor(&ui.input);
    let row: usize = count_char(before.as_str(), '\n');
    let scroll_x: usize = scroll_to(columns, inner.width);
    let scroll_y: usize = scroll_to(row, inner.height);
    let cursor = if busy {
        None
    } else {
        Some(
            (
                place_in(inner.x, columns, scroll_x, inner.width),
                place_in(inner.y, row, scroll_y, inner.height),
            ),
        )
    };
    InputScene { title, area: inner, scroll: (to_16(scroll_y), to_16(scroll_x)), cursor }
}

/// The input in its area.
pub fn render_input(ui: &Ui, area: Rect) -> (r: InputScene)
    requires
        ui.context_window matches Some(window) ==> window > 0,
    ensures
        ({
            let columns = line::text_cells(
                before_cursor(ui@.input.value, ui@.input.position as nat),
            ) as nat;
            &&& thinking::optional(r.title) == input_title(ui@)
            &&& r.area == inside_border(area, 1)
            &&& r.scroll == input_scroll(ui@.input, r.area, columns)
            &&& r.cursor == input_cursor(ui@.input, r.area, ui@.activity is Some, columns)
        }),
{
    let before = text_before_cursor(&ui.input);
    let lines = split_text(before.as_str(), '\n');
    proof {
        text::lemma_split_nonempty(before@, '\n');
        assert(text::texts(lines@).len() == lines@.len());
        assert(text::texts(lines@).last() == lines@[lines@.len() - 1]@);
    }
    let columns = text_width(lines[lines.len() - 1].as_str());
    place_input(ui, area, columns)
}

// ---------- The screen ----------

/// What stands on the screen.
#[derive(Debug)]
pub struct Scene {
    pub areas: Areas,
    pub title: Rect,
    pub label: Rect,
    /// The lines of the chat, or of the logo where nothing was said yet.
    pub lines: Vec<Line>,
    /// How far the lines are scrolled down.
    pub scroll: u16,
    /// The line on what the assistant is busy with.
    pub activity: Option<Line>,
    pub input: InputScene,
    /// The positions that are highlighted.
    pub highlighted: Vec<(u16, u16)>,
}

/// The user interface once it is drawn: the chat is scrolled within its limit, to its tail
/// where that is followed.
pub open spec fn drawn(ui: UiModel, chat: Rect, limit: u16, rows: Seq<Option<ChatRow>>) -> UiModel {
    let scroll = if ui.follow_tail || ui.scroll > limit {
        limit
    } else {
        ui.scroll
    };
    UiModel {
        scroll_max: limit,
        scroll,
        chat_area: chat,
        chat_scroll: scroll,
        chat_rows: rows,
        ..ui
    }
}

/// What an optional line holds.
pub open spec fn optional_line(line: Option<Line>) -> Option<LineModel> {
    match line {
        Some(line) => Some(line@),
        None => None,
    }
}

/// `scene` shows the user interface in its areas.
pub open spec fn shows(
    scene: Scene,
    ui: UiModel,
    area: Rect,
    now: Instant,
) -> bool {
    let chat = scene.areas.chat;
    let rows = rows::chat_rows(ui.messages, chat.width, now, ui.messages.len());
    let columns = line::text_cells(before_cursor(ui.input.value, ui.input.position as nat));
    &&& are_parts(
        seq![scene.title, scene.label],
        scene.areas.header,
        Axis::Across,
        header_sizes(),
    )
    &&& line::line_models(scene.lines@) == (if ui.messages.len() == 0 {
        logo(chat)
    } else {
        rows::row_lines(rows)
    })
    &&& scene.scroll == (if ui.messages.len() == 0 {
        0
    } else {
        drawn(ui, chat, chat_limit(chat, rows), rows::screen_rows(rows, rows::wrap_width(chat.width))).scroll
    })
    &&& optional_line(scene.activity) == (if ui.activity is Some {
        Some(activity_view(ui.activity, now))
    } else {
        None
    })
    &&& thinking::optional(scene.input.title) == input_title(ui)
    &&& scene.input.area == inside_border(scene.areas.input, 1)
    &&& scene.input.scroll == input_scroll(ui.input, scene.input.area, columns)
    &&& scene.input.cursor == input_cursor(
        ui.input,
        scene.input.area,
        ui.activity is Some,
        columns,
    )
    &&& scene.highlighted@ == (match ui.selection {
        Some((start, end)) => screen::selection_cells(area, start, end),
        None => Seq::empty(),
    })
}

/// How far the chat can be scrolled, by its rows.
pub open spec fn chat_limit(chat: Rect, rows: Seq<(LineModel, Option<ChatRow>)>) -> u16 {
    scroll_limit(
        chat,
        ends_blank(rows::row_lines(rows)),
        line::paragraph_rows(line::all_contents(rows::row_lines(rows)), rows::wrap_width(chat.width)),
    )
}

/// The user interface can be shown in a chat with `width` columns: the model can be given
/// something, every answer can be rendered, and lines can be wrapped at that many columns.
pub open spec fn is_showable(ui: UiModel, width: u16) -> bool {
    &&& ui.context_window matches Some(window) ==> window > 0
    &&& width <= MAX_COLUMNS
    &&& rows::are_renderable(ui.messages)
}

/// Tells whether the user interface can be shown in a chat with `width` columns.
pub fn can_show(ui: &Ui, width: u16) -> (r: bool)
    ensures
        r == is_showable(ui@, width),
{
    let window = match ui.context_window {
        Some(window) => window > 0,
        None => true,
    };
    window && width <= MAX_COLUMNS && can_render(&ui.messages)
}

/// The user interface in the given areas.
pub fn render_in(
    ui: &mut Ui,
    area: Rect,
    areas: Areas,
    now: Instant,
) -> (r: Scene)
    requires
        is_showable(old(ui)@, areas.chat.width),
    ensures
        r.areas == areas,
        shows(r, old(ui)@, area, now),
        ({
            let rows = rows::chat_rows(
                old(ui)@.messages,
                areas.chat.width,
                now,
                old(ui)@.messages.len(),
            );
            final(ui)@ == drawn(
                old(ui)@,
                areas.chat,
                chat_limit(areas.chat, rows),
                rows::screen_rows(rows, rows::wrap_width(areas.chat.width)),
            )
        }),
{
    let chat = areas.chat;
    let (title, label) = header_areas(areas.header);
    let (text, rows) = history_content(ui, chat.width, now);
    let limit = history_max_scroll(&chat, &text);
    let input = render_input(ui, areas.input);
    let activity = if ui.activity.is_some() {
        Some(activity_line(ui, now))
    } else {
        None
    };
    let highlighted = match ui.selection {
        Some((start, end)) => highlighted(area, start, end),
        None => Vec::new(),
    };
    ui.scroll_max = limit;
    ui.scroll = if ui.follow_tail || ui.scroll > limit {
        limit
    } else {
        ui.scroll
    };
    ui.chat_area = chat;
    ui.chat_scroll = ui.scroll;
    ui.chat_rows = rows;
    let (lines, scroll) = if ui.messages.len() == 0 {
        (empty_logo(&chat), 0)
    } else {
        (text, ui.scroll)
    };
    Scene { areas, title, label, lines, scroll, activity, input, highlighted }
}

/// The user interface on a screen of the size `area`.
pub fn render(ui: &mut Ui, area: Rect, now: Instant) -> (r: Scene)
    requires
        is_showable(old(ui)@, area.width),
    ensures
        exists|parts: Seq<Rect>|
            are_parts(
                parts,
                area,
                Axis::Down,
                screen_sizes(old(ui)@.activity is Some, input_rows(old(ui)@.input.value)),
            ) && r.areas == #[trigger] areas_from(parts),
        shows(r, old(ui)@, area, now),
        ({
            let rows = rows::chat_rows(
                old(ui)@.messages,
                r.areas.chat.width,
                now,
                old(ui)@.messages.len(),
            );
            final(ui)@ == drawn(
                old(ui)@,
                r.areas.chat,
                chat_limit(r.areas.chat, rows),
                rows::screen_rows(rows, rows::wrap_width(r.areas.chat.width)),
            )
        }),
{
    let areas = screen_areas(area, ui.activity.is_some(), ui.input.value.as_str());
    render_in(ui, area, areas, now)
}

// ---------- Laws ----------

/// Where the screen has room, its parts fill it from the top down: an empty row, two rows of
/// header, the chat, two rows of activity if there is any, and the input at the bottom.
pub proof fn a_screen_with_room_is_filled(parts: Seq<Rect>, area: Rect, activity: bool, rows: u16)
    requires
        are_parts(parts, area, Axis::Down, screen_sizes(activity, rows)),
        6 + (if activity {
            2int
        } else {
            0int
        }) + rows <= area.height <= i16::MAX,
        area.y + area.height <= u16::MAX,
    ensures
        parts[0].y == area.y && parts[0].height == 1,
        parts[1].y == area.y + 1 && parts[1].height == 2,
        parts[2].y == area.y + 3 && parts[2].height >= 3,
        parts[3].y == parts[2].y + parts[2].height,
        parts[3].height == (if activity {
            2u16
        } else {
            0u16
        }),
        parts[4].y == parts[3].y + parts[3].height && parts[4].height == rows,
        parts[4].y + parts[4].height == area.y + area.height,
{
    let sizes = screen_sizes(activity, rows);
    lemma_screen_sizes(activity, rows);
    let length = area.height as nat;
    reveal_with_fuel(parts_before, 6);
    assert(parts_before(sizes, length, 0) == 0);
    assert(parts_before(sizes, length, 1) == 1);
    assert(parts_before(sizes, length, 2) == 3);
}

/// The sizes of the parts of the screen together, and that one of them can grow.
proof fn lemma_screen_sizes(activity: bool, rows: u16)
    ensures
        least_total(screen_sizes(activity, rows)) == 6 + (if activity {
            2int
        } else {
            0int
        }) + rows,
        growing(screen_sizes(activity, rows)) == 1,
{
    let s = screen_sizes(activity, rows);
    reveal_with_fuel(least_total, 6);
    reveal_with_fuel(growing, 6);
    assert(s.drop_last() =~= s.take(4));
    assert(s.take(4).drop_last() =~= s.take(3));
    assert(s.take(3).drop_last() =~= s.take(2));
    assert(s.take(2).drop_last() =~= s.take(1));
    assert(s.take(1).drop_last() =~= s.take(0));
}

/// Where the header has room, the title takes its first three columns and the label the rest.
pub proof fn a_header_with_room_is_filled(title: Rect, label: Rect, header: Rect)
    requires
        are_parts(seq![title, label], header, Axis::Across, header_sizes()),
        4 <= header.width <= i16::MAX,
        header.x + header.width <= u16::MAX,
    ensures
        title == (Rect { width: 3, ..header }),
        label == (Rect { x: (header.x + 3) as u16, width: (header.width - 3) as u16, ..header }),
{
    let sizes = header_sizes();
    let parts = seq![title, label];
    reveal_with_fuel(least_total, 3);
    reveal_with_fuel(growing, 3);
    reveal_with_fuel(parts_before, 3);
    assert(sizes.drop_last() =~= sizes.take(1));
    assert(sizes.take(1).drop_last() =~= sizes.take(0));
    assert(parts[0] == title && parts[1] == label);
    assert(is_part(parts[0], header, Axis::Across) && is_part(parts[1], header, Axis::Across));
}

/// However the user interface is drawn, the scroll stays within its limit, and at the tail
/// where that is followed.
pub proof fn drawing_stays_within_the_limit(
    ui: UiModel,
    chat: Rect,
    limit: u16,
    rows: Seq<Option<ChatRow>>,
)
    ensures
        drawn(ui, chat, limit, rows).scroll <= drawn(ui, chat, limit, rows).scroll_max,
        ui.follow_tail ==> drawn(ui, chat, limit, rows).scroll == limit,
        !ui.follow_tail && ui.scroll <= limit ==> drawn(ui, chat, limit, rows).scroll == ui.scroll,
{
}

/// The cursor stands in the area of the text, where the area lies on the screen.
pub proof fn the_cursor_stays_in_its_area(input: InputModel, area: Rect, columns: nat)
    requires
        !area.is_empty(),
        area.x + area.width <= u16::MAX,
        area.y + area.height <= u16::MAX,
    ensures
        input_cursor(input, area, false, columns) matches Some((x, y)) && area.holds(x, y),
{
}

/// The cursor stands as many columns and rows into the text as stand before it there, however
/// the text is scrolled; and it is scrolled no further than that takes.
pub proof fn the_cursor_stands_where_it_is(input: InputModel, area: Rect, columns: nat)
    requires
        !area.is_empty(),
        input.value.len() > 0,
        area.x + area.width <= u16::MAX,
        area.y + area.height <= u16::MAX,
        columns <= u16::MAX,
        text::occurrences(input::head(input.value, input.position as nat), '\n') <= u16::MAX,
    ensures
        ({
            let rows = text::occurrences(input::head(input.value, input.position as nat), '\n');
            let (down, across) = input_scroll(input, area, columns);
            input_cursor(input, area, false, columns) matches Some((x, y)) && x - area.x + across
                == columns && y - area.y + down == rows && (columns < area.width ==> across == 0)
                && (rows < area.height ==> down == 0)
        }),
        input_cursor(input, area, true, columns) is None,
{
}

/// The chat is scrolled to its end where its last row, but for an empty one behind it, is the
/// last one in sight; where all of it is in sight it is not scrolled.
pub proof fn the_tail_is_the_last_row(area: Rect, trailing_blank: bool, count: usize)
    requires
        count <= u16::MAX,
    ensures
        ({
            let rows = if trailing_blank && count > 0 {
                count - 1
            } else {
                count as int
            };
            &&& rows >= area.height ==> scroll_limit(area, trailing_blank, count) + area.height
                == rows
            &&& rows <= area.height ==> scroll_limit(area, trailing_blank, count) == 0
        }),
{
}

/// The input is as high as its text has lines, up to six, and what is around it.
pub proof fn the_input_grows_with_its_lines(value: Seq<char>)
    requires
        value.len() > 0,
    ensures
        input_rows(Seq::empty()) == 5,
        value.last() == '\n' && input_rows(value) < 10 ==> input_rows(value) == input_rows(
            value.drop_last(),
        ) + 1,
        value.last() != '\n' ==> input_rows(value) == input_rows(value.drop_last()),
        input_rows(value) <= 10,
{
}

/// A margin is left free on both sides alike.
pub proof fn margins_are_left_on_both_sides(area: Rect, margin: u16)
    requires
        2 * margin <= area.width,
        area.x + area.width <= u16::MAX,
    ensures
        inside(area, margin).x == area.x + margin,
        inside(area, margin).x + inside(area, margin).width + margin == area.x + area.width,
        inside(area, margin).y == area.y && inside(area, margin).height == area.height,
{
}

/// While something is done, the line on it tells its phase and how long it has taken.
pub proof fn the_activity_is_told(phase: Phase, started: Instant, now: Instant)
    ensures
        ({
            let line = activity_view(Some((phase, started)), now);
            &&& line.spans.len() == 2
            &&& line.spans[0].content == seq![clock::frame_at(clock::between(started, now))]
            &&& text::holds_in_order(
                line.spans[1].content,
                seq![phase.name(), clock::shown(clock::between(started, now))],
            )
        }),
{
    let none = Seq::<Seq<char>>::empty();
    let start = Seq::<char>::empty();
    text::lemma_holds_itself(start);
    text::lemma_holds_next(start, " "@, phase.name(), none);
    let a = start + " "@ + phase.name();
    let time = clock::shown(clock::between(started, now));
    text::lemma_holds_next(a, " "@, time, none.push(phase.name()));
    assert(a + " "@ + time =~= " "@ + phase.name() + " "@ + time);
    assert(none.push(phase.name()).push(time) =~= seq![phase.name(), time]);
}

/// The input is titled with the account of the context, where there is any.
pub proof fn the_input_is_titled_with_the_context(ui: UiModel)
    ensures
        ui.context == 0 ==> input_title(ui) is None,
        ui.context > 0 ==> (input_title(ui) matches Some(title) && text::holds_in_order(
            title,
            seq![count::context_account(ui.context, ui.context_window)],
        )),
{
    let account = count::context_account(ui.context, ui.context_window);
    text::lemma_holds_itself(account);
    text::lemma_holds_behind(" "@, account, seq![account]);
    text::lemma_holds_before(" "@ + account, " "@, seq![account]);
}

/// The logo stands in the middle of an area that has room for it: as far from one side as from
/// the other, or a row or a column nearer to the start.
pub proof fn the_logo_stands_in_the_middle(area: Rect)
    requires
        area.height >= 3,
        area.width >= 9,
    ensures
        ({
            let lines = logo(area);
            let above = lines.len() - 3;
            let below = area.height - lines.len();
            &&& above <= below <= above + 1
            &&& forall|i: int| 0 <= i < above ==> (#[trigger] lines[i]).spans.len() == 0
            &&& forall|k: int|
                #![trigger lines[k]]
                above <= k < above + 3 ==> lines[k].spans.len() == 1 && exists|left: nat|
                    #![trigger text::repeated(' ', left)]
                    lines[k].spans[0].content == text::repeated(' ', left) + logo_art()[k - above] && left
                        <= area.width - 9 - left <= left + 1
        }),
{
    reveal_strlit("╺┳╸╻ ╻╻ ╻");
    reveal_strlit(" ┃ ┣━┫┏╋┛");
    reveal_strlit(" ╹ ╹ ╹╹ ╹");
    let lines = logo(area);
    let above = lines.len() - 3;
    let left = ((area.width - 9) / 2) as nat;
    assert forall|k: int| #![trigger lines[k]] above <= k < above + 3 implies lines[k].spans.len()
        == 1 && exists|left: nat|
        #![trigger text::repeated(' ', left)]
        lines[k].spans[0].content == text::repeated(' ', left) + logo_art()[k - above] && left
            <= area.width - 9 - left <= left + 1 by {
        assert(lines[k].spans[0].content == text::repeated(' ', left) + logo_art()[k - above]);
    }
}

/// Once the user interface is drawn, a position in the chat reaches the row that is drawn there,
/// and nothing else of it has changed.
pub proof fn what_is_drawn_can_be_reached(
    ui: UiModel,
    chat: Rect,
    limit: u16,
    rows: Seq<Option<ChatRow>>,
    column: u16,
    row: u16,
)
    requires
        chat.holds(column, row),
    ensures
        ({
            let after = drawn(ui, chat, limit, rows);
            let at = after.scroll + (row - chat.y);
            &&& at < rows.len() && at <= u16::MAX ==> after.row_at(column, row) == rows[at]
            &&& after.messages == ui.messages && after.input == ui.input && after.activity
                == ui.activity
            &&& after.selection == ui.selection && after.context == ui.context
        }),
{
}

} // verus!
