//! The messages of the user, in bubbles at the right of the chat.
use vstd::prelude::*;
use vstd::string::*;
use crate::line;
use crate::line::{bubble, char_cells, line2, plain, span, text_width, Line, LineModel, TextStyle};
use crate::text;
use crate::text::{push_repeated, split_text, to_chars};

verus! {

// ---------- Wrapping ----------

/// What is wrapped so far: the full lines, the line that is filled, and the columns used of
/// it.
pub struct Wrapped {
    pub lines: Seq<Seq<char>>,
    pub line: Seq<char>,
    pub used: nat,
}

/// `text` wrapped at `width` columns: a character that does not fit starts a new line, unless
/// the line is empty.
pub open spec fn wrap_state(text: Seq<char>, width: nat) -> Wrapped
    decreases text.len(),
{
    if text.len() == 0 {
        Wrapped { lines: Seq::empty(), line: Seq::empty(), used: 0 }
    } else {
        let before = wrap_state(text.drop_last(), width);
        let c = text.last();
        if before.used + line::cells(c) > width && before.line.len() > 0 {
            Wrapped { lines: before.lines.push(before.line), line: seq![c], used: line::cells(c) }
        } else {
            Wrapped {
                lines: before.lines,
                line: before.line.push(c),
                used: before.used + line::cells(c),
            }
        }
    }
}

/// The lines of `text` wrapped at `width` columns.
pub open spec fn wrapped(text: Seq<char>, width: nat) -> Seq<Seq<char>> {
    let state = wrap_state(text, width);
    state.lines.push(state.line)
}

/// The columns of the characters of `s`.
pub open spec fn columns(s: Seq<char>) -> nat
    decreases s.len(),
{
    if s.len() == 0 {
        0
    } else {
        columns(s.drop_last()) + line::cells(s.last())
    }
}

/// The lines of `text` wrapped at `width` columns.
pub fn wrap_cells(text: &str, width: usize) -> (r: Vec<String>)
    ensures
        text::texts(r@) == wrapped(text@, width as nat),
{
    let chars = to_chars(text);
    let mut lines: Vec<String> = Vec::new();
    let mut line = String::new();
    let mut fresh = true;
    let mut used: usize = 0;
    let mut i: usize = 0;
    assert(chars@.take(0) =~= Seq::empty());
    assert(text::texts(lines@) =~= Seq::empty());
    assert(line@ =~= Seq::empty());
    while i < chars.len()
        invariant
            i <= chars@.len(),
            text::texts(lines@) == wrap_state(chars@.take(i as int), width as nat).lines,
            line@ == wrap_state(chars@.take(i as int), width as nat).line,
            used == wrap_state(chars@.take(i as int), width as nat).used,
            fresh == (line@.len() == 0),
            used <= width || used <= 255,
            fresh ==> used == 0,
        decreases chars.len() - i,
    {
        proof {
            assert(chars@.take(i + 1).drop_last() =~= chars@.take(i as int));
            assert(chars@.take(i + 1).last() == chars@[i as int]);
        }
        let c = chars[i];
        let columns: usize = char_cells(c);
        let full = used > width || columns > width - used;
        if full && !fresh {
            let ghost earlier = text::texts(lines@);
            let ghost filled = line@;
            lines.push(line);
            assert(text::texts(lines@) =~= earlier.push(filled));
            line = String::new();
            used = 0;
            assert(line@ =~= Seq::empty());
        }
        let ghost start = line@;
        line.push(c);
        assert(line@ =~= start.push(c));
        assert(start.len() == 0 ==> start.push(c) =~= seq![c]);
        used = used + columns;
        fresh = false;
        i += 1;
    }
    assert(chars@.take(i as int) =~= text@);
    let ghost earlier = text::texts(lines@);
    let ghost last = line@;
    lines.push(line);
    assert(text::texts(lines@) =~= earlier.push(last));
    lines
}

/// The lines of each of `sources`, wrapped at `width` columns.
pub open spec fn all_wrapped(sources: Seq<Seq<char>>, width: nat) -> Seq<Seq<char>>
    decreases sources.len(),
{
    if sources.len() == 0 {
        Seq::empty()
    } else {
        all_wrapped(sources.drop_last(), width) + wrapped(sources.last(), width)
    }
}

/// The lines of a message, wrapped at `width` columns.
fn wrap_message(message: &str, width: usize) -> (r: Vec<String>)
    ensures
        text::texts(r@) == all_wrapped(text::split(message@, '\n'), width as nat),
{
    let sources = split_text(message, '\n');
    let ghost views = text::split(message@, '\n');
    let mut out: Vec<String> = Vec::new();
    let mut i: usize = 0;
    assert(views.take(0) =~= Seq::empty());
    assert(text::texts(out@) =~= Seq::empty());
    while i < sources.len()
        invariant
            i <= sources@.len(),
            views == text::texts(sources@),
            text::texts(out@) == all_wrapped(views.take(i as int), width as nat),
        decreases sources.len() - i,
    {
        let ghost earlier = text::texts(out@);
        proof {
            assert(views.take(i + 1).drop_last() =~= views.take(i as int));
            assert(views.take(i + 1).last() == sources@[i as int]@);
        }
        let mut more = wrap_cells(sources[i].as_str(), width);
        let ghost added = text::texts(more@);
        out.append(&mut more);
        assert(text::texts(out@) =~= earlier + added);
        i += 1;
    }
    assert(views.take(i as int) =~= views);
    out
}

// ---------- Bubbles ----------

/// The greatest number of columns that one of `lines` takes.
pub open spec fn widest(lines: Seq<Seq<char>>) -> nat
    decreases lines.len(),
{
    if lines.len() == 0 {
        0
    } else {
        let rest = widest(lines.drop_last());
        if line::text_cells(lines.last()) > rest {
            line::text_cells(lines.last())
        } else {
            rest
        }
    }
}

/// The greater of two numbers.
pub open spec fn greater(a: int, b: int) -> nat {
    if a >= b {
        a as nat
    } else {
        b as nat
    }
}

/// The most columns of a bubble, when the chat has `width` columns.
pub open spec fn max_bubble(width: nat) -> nat {
    greater(width - 2, 1)
}

/// The columns left free at either side of the text in a bubble.
pub open spec fn bubble_side(width: nat) -> nat {
    if max_bubble(width) > 4 {
        2
    } else {
        0
    }
}

/// The columns for the text in a bubble.
pub open spec fn bubble_inner(width: nat) -> nat {
    greater(max_bubble(width) - bubble_side(width) * 2, 1)
}

/// The columns of a bubble whose widest line has `content` columns.
pub open spec fn bubble_width(width: nat, content: nat) -> nat {
    let full = content + bubble_side(width) * 2;
    greater(
        if full < max_bubble(width) {
            full as int
        } else {
            max_bubble(width) as int
        },
        1,
    )
}

/// One line of a bubble.
pub open spec fn bubble_line(indent: nat, body: Seq<char>) -> LineModel {
    line::line_of(
        seq![
            line::span_of(text::repeated(' ', indent), TextStyle::plain()),
            line::span_of(body, TextStyle::bubble()),
        ],
    )
}

/// The text of a line in a bubble, filled up to the bubble's width.
pub open spec fn bubble_text(text: Seq<char>, side: nat, bubble: nat) -> Seq<char> {
    text::repeated(' ', side) + text + text::repeated(' ', greater(bubble - (side + line::text_cells(text)), 0))
}

/// A bubble with the lines `lines`, at the right of a chat with `width` columns: the lines
/// between two empty ones.
pub open spec fn bubble_of(lines: Seq<Seq<char>>, width: nat) -> Seq<LineModel> {
    let bubble = bubble_width(width, widest(lines));
    let indent = greater(width - bubble, 0);
    let edge = bubble_line(indent, text::repeated(' ', bubble));
    Seq::new(
        lines.len() + 2,
        |i: int|
            if i == 0 || i == lines.len() + 1 {
                edge
            } else {
                bubble_line(indent, bubble_text(lines[i - 1], bubble_side(width), bubble))
            },
    )
}

/// A message of the user in a chat with `width` columns; nothing without columns.
pub open spec fn user_rows(message: Seq<char>, width: nat) -> Seq<LineModel> {
    if width == 0 {
        Seq::empty()
    } else {
        bubble_of(all_wrapped(text::split(message, '\n'), bubble_inner(width)), width)
    }
}

/// `count` spaces.
fn spaces(count: usize) -> (r: String)
    ensures
        r@ == text::repeated(' ', count as nat),
{
    let mut out = String::new();
    push_repeated(&mut out, ' ', count);
    assert(out@ =~= text::repeated(' ', count as nat));
    out
}

/// One line of a bubble.
fn make_bubble_line(indent: usize, body: &str) -> (r: Line)
    ensures
        r@ == bubble_line(indent as nat, body@),
{
    line2(span(spaces(indent).as_str(), plain()), span(body, bubble()))
}

/// The greatest number of columns that one of `lines` takes.
fn widest_of(lines: &Vec<String>) -> (r: usize)
    ensures
        r == widest(text::texts(lines@)),
{
    let ghost views = text::texts(lines@);
    let mut best: usize = 0;
    let mut i: usize = 0;
    assert(views.take(0) =~= Seq::empty());
    while i < lines.len()
        invariant
            i <= lines@.len(),
            views == text::texts(lines@),
            best == widest(views.take(i as int)),
        decreases lines.len() - i,
    {
        proof {
            assert(views.take(i + 1).drop_last() =~= views.take(i as int));
            assert(views.take(i + 1).last() == lines@[i as int]@);
        }
        let width = text_width(lines[i].as_str());
        if width > best {
            best = width;
        }
        i += 1;
    }
    assert(views.take(i as int) =~= views);
    best
}

/// A bubble with the lines `lines`, at the right of a chat with `width` columns.
fn make_bubble(lines: &Vec<String>, width: usize) -> (r: Vec<Line>)
    requires
        0 < width <= 0xffff,
    ensures
        line::line_models(r@) == bubble_of(text::texts(lines@), width as nat),
{
    let max: usize = if width > 3 {
        width - 2
    } else {
        1
    };
    let side: usize = if max > 4 {
        2
    } else {
        0
    };
    let full: usize = widest_of(lines).saturating_add(side * 2);
    let smaller: usize = if full < max {
        full
    } else {
        max
    };
    let bubble_columns: usize = if smaller >= 1 {
        smaller
    } else {
        1
    };
    let indent: usize = width.saturating_sub(bubble_columns);
    let ghost views = text::texts(lines@);
    assert(max == max_bubble(width as nat));
    assert(bubble_columns == bubble_width(width as nat, widest(views)));
    let edge = spaces(bubble_columns);
    let mut out: Vec<Line> = Vec::new();
    out.push(make_bubble_line(indent, edge.as_str()));
    let mut i: usize = 0;
    while i < lines.len()
        invariant
            i <= lines@.len(),
            views == text::texts(lines@),
            side == bubble_side(width as nat),
            bubble_columns == bubble_width(width as nat, widest(views)),
            indent == greater(width - bubble_columns, 0),
            out@.len() == i + 1,
            forall|k: int|
                0 <= k <= i ==> (#[trigger] out@[k])@ == bubble_of(views, width as nat)[k],
        decreases lines.len() - i,
    {
        let text = lines[i].as_str();
        assert(views[i as int] == text@);
        let mut body = spaces(side);
        body.append(text);
        let taken: usize = side.saturating_add(text_width(text));
        push_repeated(&mut body, ' ', bubble_columns.saturating_sub(taken));
        assert(body@ == bubble_text(text@, side as nat, bubble_columns as nat));
        out.push(make_bubble_line(indent, body.as_str()));
        i += 1;
    }
    out.push(make_bubble_line(indent, edge.as_str()));
    assert(line::line_models(out@) =~= bubble_of(views, width as nat));
    out
}

/// A message of the user in a chat with `width` columns.
pub fn user_message_lines(message: &str, width: u16) -> (r: Vec<Line>)
    ensures
        line::line_models(r@) == user_rows(message@, width as nat),
{
    if width == 0 {
        let out: Vec<Line> = Vec::new();
        assert(line::line_models(out@) =~= Seq::empty());
        return out;
    }
    let max: usize = if width > 3 {
        width as usize - 2
    } else {
        1
    };
    let inner: usize = if max > 4 {
        max - 4
    } else {
        max
    };
    assert(inner == bubble_inner(width as nat));
    let lines = wrap_message(message, inner);
    make_bubble(&lines, width as usize)
}

// ---------- Laws ----------

/// The lines of a wrapped text are the text.
pub proof fn wrapping_keeps_the_text(text: Seq<char>, width: nat)
    ensures
        wrapped(text, width).len() > 0,
        wrapped(text, width).flatten() == text,
{
    let state = wrap_state(text, width);
    lemma_wrap_keeps(text, width);
    state.lines.lemma_flatten_push(state.line);
}

proof fn lemma_wrap_keeps(text: Seq<char>, width: nat)
    ensures
        wrap_state(text, width).lines.flatten() + wrap_state(text, width).line == text,
    decreases text.len(),
{
    let after = wrap_state(text, width);
    if text.len() == 0 {
        assert(after.lines.flatten() + after.line =~= text);
    } else {
        let d = text.drop_last();
        lemma_wrap_keeps(d, width);
        let before = wrap_state(d, width);
        let c = text.last();
        assert(d.push(c) =~= text);
        if before.used + line::cells(c) > width && before.line.len() > 0 {
            before.lines.lemma_flatten_push(before.line);
            assert(after.lines.flatten() + after.line =~= text);
        } else {
            assert(after.lines.flatten() + after.line =~= text);
        }
    }
}

/// Two lines of which the second starts with a character that the first has no room for.
pub open spec fn is_full_before(a: Seq<char>, b: Seq<char>, width: nat) -> bool {
    b.len() > 0 && columns(a) + line::cells(b[0]) > width
}

/// The line takes no more columns than there are, or is a single character.
pub open spec fn is_fitting(line: Seq<char>, width: nat) -> bool {
    columns(line) <= width || line.len() == 1
}

proof fn lemma_wrap_fits(text: Seq<char>, width: nat)
    ensures
        ({
            let state = wrap_state(text, width);
            let all = wrapped(text, width);
            &&& state.used == columns(state.line)
            &&& text.len() > 0 ==> state.line.len() > 0
            &&& state.line.len() == 0 ==> state.lines.len() == 0
            &&& forall|i: int| 0 <= i < all.len() ==> is_fitting(#[trigger] all[i], width)
            &&& forall|i: int, j: int|
                0 <= i && j == i + 1 && j < all.len() ==> is_full_before(
                    #[trigger] all[i],
                    #[trigger] all[j],
                    width,
                )
        }),
    decreases text.len(),
{
    let after = wrap_state(text, width);
    let all = wrapped(text, width);
    if text.len() == 0 {
        assert(all =~= seq![Seq::<char>::empty()]);
    } else {
        let d = text.drop_last();
        lemma_wrap_fits(d, width);
        let before = wrap_state(d, width);
        let earlier = wrapped(d, width);
        let c = text.last();
        assert(columns(seq![c]) == line::cells(c)) by {
            assert(seq![c].drop_last() =~= Seq::empty());
            reveal_with_fuel(columns, 2);
        }
        let n = before.lines.len() as int;
        assert(earlier[n] == before.line);
        if before.used + line::cells(c) > width && before.line.len() > 0 {
            assert(all =~= earlier.push(seq![c]));
            assert forall|i: int| 0 <= i < all.len() implies is_fitting(
                #[trigger] all[i],
                width,
            ) by {
                if i < earlier.len() {
                    assert(is_fitting(earlier[i], width));
                }
            }
            assert forall|i: int, j: int| 0 <= i && j == i + 1 && j < all.len() implies
                is_full_before(#[trigger] all[i], #[trigger] all[j], width) by {
                if j < earlier.len() {
                    assert(is_full_before(earlier[i], earlier[j], width));
                }
            }
        } else {
            assert(after.line.drop_last() =~= before.line);
            assert(before.line.len() == 0 ==> after.line =~= seq![c]);
            assert(all =~= earlier.update(n, after.line));
            assert forall|i: int| 0 <= i < all.len() implies is_fitting(
                #[trigger] all[i],
                width,
            ) by {
                if i < n {
                    assert(is_fitting(earlier[i], width));
                }
            }
            assert forall|i: int, j: int| 0 <= i && j == i + 1 && j < all.len() implies
                is_full_before(#[trigger] all[i], #[trigger] all[j], width) by {
                assert(is_full_before(earlier[i], earlier[j], width));
                if j == n {
                    assert(after.line[0] == before.line[0]);
                }
            }
        }
    }
}

/// The characters of a wrapped line take no more columns than there are, unless it is a single
/// character.
pub proof fn wrapped_lines_fit(text: Seq<char>, width: nat, i: int)
    requires
        0 <= i < wrapped(text, width).len(),
    ensures
        columns(wrapped(text, width)[i]) <= width || wrapped(text, width)[i].len() == 1,
{
    lemma_wrap_fits(text, width);
    assert(is_fitting(wrapped(text, width)[i], width));
}

/// No line is wrapped early: the first character of the next line has no room on it.
pub proof fn wrapping_is_greedy(text: Seq<char>, width: nat, i: int)
    requires
        0 <= i < wrapped(text, width).len() - 1,
    ensures
        wrapped(text, width)[i + 1].len() > 0,
        columns(wrapped(text, width)[i]) + line::cells(wrapped(text, width)[i + 1][0]) > width,
{
    lemma_wrap_fits(text, width);
    assert(is_full_before(wrapped(text, width)[i], wrapped(text, width)[i + 1], width));
}

/// Every one of `lines` is made of printable ASCII characters, `width` of them at most.
pub open spec fn are_short(lines: Seq<Seq<char>>, width: nat) -> bool {
    forall|k: int|
        0 <= k < lines.len() ==> line::all_printable(#[trigger] lines[k]) && lines[k].len() <= width
}

proof fn lemma_wrapped_are_short(text: Seq<char>, width: nat)
    requires
        line::all_printable(text),
        width >= 1,
    ensures
        are_short(wrap_state(text, width).lines, width),
        line::all_printable(wrap_state(text, width).line),
        wrap_state(text, width).line.len() <= width,
        wrap_state(text, width).used == wrap_state(text, width).line.len(),
    decreases text.len(),
{
    if text.len() > 0 {
        let d = text.drop_last();
        assert forall|i: int| 0 <= i < d.len() implies line::is_printable(#[trigger] d[i]) by {
            assert(d[i] == text[i]);
        }
        lemma_wrapped_are_short(d, width);
        let before = wrap_state(d, width);
        let after = wrap_state(text, width);
        assert(line::is_printable(text[text.len() - 1]));
        assert forall|k: int| 0 <= k < after.lines.len() implies line::all_printable(
            #[trigger] after.lines[k],
        ) && after.lines[k].len() <= width by {
            if k < before.lines.len() {
                assert(after.lines[k] == before.lines[k]);
            }
        }
        assert forall|i: int| 0 <= i < after.line.len() implies line::is_printable(
            #[trigger] after.line[i],
        ) by {
            if i < after.line.len() - 1 {
                assert(after.line[i] == before.line[i]);
            }
        }
    }
}

proof fn lemma_all_wrapped_are_short(sources: Seq<Seq<char>>, width: nat)
    requires
        forall|k: int| 0 <= k < sources.len() ==> line::all_printable(#[trigger] sources[k]),
        width >= 1,
    ensures
        are_short(all_wrapped(sources, width), width),
    decreases sources.len(),
{
    if sources.len() > 0 {
        let d = sources.drop_last();
        assert forall|k: int| 0 <= k < d.len() implies line::all_printable(#[trigger] d[k]) by {
            assert(d[k] == sources[k]);
        }
        lemma_all_wrapped_are_short(d, width);
        assert(line::all_printable(sources[sources.len() - 1]));
        lemma_wrapped_are_short(sources.last(), width);
        let earlier = all_wrapped(d, width);
        let state = wrap_state(sources.last(), width);
        let all = all_wrapped(sources, width);
        assert forall|k: int| 0 <= k < all.len() implies line::all_printable(#[trigger] all[k])
            && all[k].len() <= width by {
            if k < earlier.len() {
                assert(all[k] == earlier[k]);
            } else if k < earlier.len() + state.lines.len() {
                assert(all[k] == state.lines[k - earlier.len()]);
            } else {
                assert(all[k] == state.line);
            }
        }
    }
}

proof fn lemma_split_printable(s: Seq<char>, sep: char)
    requires
        forall|i: int| 0 <= i < s.len() ==> line::is_printable(#[trigger] s[i]) || s[i] == sep,
    ensures
        forall|k: int| 0 <= k < text::split(s, sep).len() ==> line::all_printable(#[trigger] text::split(s, sep)[k]),
    decreases s.len(),
{
    if s.len() > 0 {
        let d = s.drop_last();
        assert forall|i: int| 0 <= i < d.len() implies line::is_printable(#[trigger] d[i]) || d[i]
            == sep by {
            assert(d[i] == s[i]);
        }
        lemma_split_printable(d, sep);
        text::lemma_split_nonempty(d, sep);
        let before = text::split(d, sep);
        let after = text::split(s, sep);
        assert(line::is_printable(s[s.len() - 1]) || s[s.len() - 1] == sep);
        assert forall|k: int| 0 <= k < after.len() implies line::all_printable(#[trigger] after[k]) by {
            if k < before.len() - 1 {
                assert(after[k] == before[k]);
            } else if k == before.len() - 1 {
                assert(line::all_printable(before[k]));
                assert forall|i: int| 0 <= i < after[k].len() implies line::is_printable(
                    #[trigger] after[k][i],
                ) by {
                    if i < before[k].len() {
                        assert(after[k][i] == before[k][i]);
                    }
                }
            }
        }
    }
}

proof fn lemma_widest(lines: Seq<Seq<char>>, width: nat)
    requires
        are_short(lines, width),
    ensures
        widest(lines) <= width,
        forall|k: int| 0 <= k < lines.len() ==> (#[trigger] lines[k]).len() <= widest(lines),
    decreases lines.len(),
{
    if lines.len() > 0 {
        let d = lines.drop_last();
        assert forall|k: int| 0 <= k < d.len() implies line::all_printable(#[trigger] d[k])
            && d[k].len() <= width by {
            assert(d[k] == lines[k]);
        }
        lemma_widest(d, width);
        assert(line::all_printable(lines[lines.len() - 1]));
        assert forall|k: int| 0 <= k < lines.len() implies (#[trigger] lines[k]).len() <= widest(
            lines,
        ) by {
            if k < d.len() {
                assert(d[k] == lines[k]);
            }
        }
    }
}

/// Every row of a message of the user takes the whole width of the chat, where the message is
/// made of printable ASCII characters and line breaks.
pub proof fn bubbles_fill_the_width(message: Seq<char>, width: nat, i: int)
    requires
        forall|k: int| 0 <= k < message.len() ==> line::is_printable(#[trigger] message[k]) || message[k]
            == '\n',
        0 <= i < user_rows(message, width).len(),
    ensures
        user_rows(message, width)[i].spans.len() == 2,
        line::text_cells(user_rows(message, width)[i].spans[0].content) + line::text_cells(
            user_rows(message, width)[i].spans[1].content,
        ) == width,
{
    let inner = bubble_inner(width);
    let side = bubble_side(width);
    let lines = all_wrapped(text::split(message, '\n'), inner);
    lemma_split_printable(message, '\n');
    lemma_all_wrapped_are_short(text::split(message, '\n'), inner);
    lemma_widest(lines, inner);
    let bubble = bubble_width(width, widest(lines));
    let indent = text::repeated(' ', greater(width - bubble, 0));
    assert(line::all_printable(indent));
    if i == 0 || i == lines.len() + 1 {
        assert(line::all_printable(text::repeated(' ', bubble)));
    } else {
        let text = lines[i - 1];
        assert(line::all_printable(text) && text.len() <= widest(lines));
        let body = bubble_text(text, side, bubble);
        assert forall|k: int| 0 <= k < body.len() implies line::is_printable(#[trigger] body[k]) by {
            if side <= k < side + text.len() {
                assert(body[k] == text[k - side]);
            }
        }
    }
}

proof fn lemma_flat_is_solid(lines: Seq<Seq<char>>)
    ensures
        text::solid(lines.flatten()) == text::all_solid(lines),
    decreases lines.len(),
{
    if lines.len() > 0 {
        let d = lines.drop_last();
        lemma_flat_is_solid(d);
        d.lemma_flatten_push(lines.last());
        assert(d.push(lines.last()) =~= lines);
        text::lemma_solid_add(d.flatten(), lines.last());
    } else {
        assert(lines.flatten() =~= Seq::empty());
    }
}

proof fn lemma_all_wrapped_is_solid(sources: Seq<Seq<char>>, width: nat)
    ensures
        text::all_solid(all_wrapped(sources, width)) == text::all_solid(sources),
    decreases sources.len(),
{
    if sources.len() > 0 {
        lemma_all_wrapped_is_solid(sources.drop_last(), width);
        text::lemma_all_solid_add(all_wrapped(sources.drop_last(), width), wrapped(sources.last(), width));
        wrapping_keeps_the_text(sources.last(), width);
        lemma_flat_is_solid(wrapped(sources.last(), width));
    }
}

/// What the rows of a bubble show, without what is left free before it.
pub open spec fn bubble_contents(rows: Seq<LineModel>) -> Seq<Seq<char>> {
    Seq::new(rows.len(), |i: int| rows[i].spans[1].content)
}

proof fn lemma_blank_spaces(count: nat)
    ensures
        text::is_blank(text::repeated(' ', count)),
{
}

proof fn lemma_bubble_is_solid(lines: Seq<Seq<char>>, width: nat, n: int)
    requires
        0 <= n <= lines.len(),
    ensures
        text::all_solid(bubble_contents(bubble_of(lines, width)).take(n + 1)) == text::all_solid(lines.take(n)),
    decreases n,
{
    let all = bubble_contents(bubble_of(lines, width));
    let bubble = bubble_width(width, widest(lines));
    if n == 0 {
        reveal_with_fuel(text::all_solid, 2);
        assert(all.take(1).drop_last() =~= Seq::empty());
        lemma_blank_spaces(bubble);
        text::lemma_solid_blank(text::repeated(' ', bubble));
        assert(all.take(1).last() == text::repeated(' ', bubble));
        assert(text::all_solid(all.take(1)) =~= Seq::empty());
    } else {
        lemma_bubble_is_solid(lines, width, n - 1);
        assert(all.take(n + 1).drop_last() =~= all.take(n));
        assert(lines.take(n).drop_last() =~= lines.take(n - 1));
        let side = bubble_side(width);
        let text = lines[n - 1];
        assert(all.take(n + 1).last() == bubble_text(text, side, bubble));
        let filling = greater(bubble - (side + line::text_cells(text)), 0);
        lemma_blank_spaces(side);
        lemma_blank_spaces(filling);
        text::lemma_solid_blank(text::repeated(' ', side));
        text::lemma_solid_blank(text::repeated(' ', filling));
        text::lemma_solid_add(text::repeated(' ', side) + text, text::repeated(' ', filling));
        text::lemma_solid_add(text::repeated(' ', side), text);
        assert(Seq::<char>::empty() + text::solid(text) + Seq::<char>::empty() =~= text::solid(text));
    }
}

/// A bubble shows all that the user has said, in order: its rows, one after the other, hold the
/// message besides white space.
pub proof fn bubbles_show_the_message(message: Seq<char>, width: nat)
    requires
        width > 0,
    ensures
        text::all_solid(bubble_contents(user_rows(message, width))) == text::solid(message),
{
    let lines = all_wrapped(text::split(message, '\n'), bubble_inner(width));
    let all = bubble_contents(user_rows(message, width));
    let n = lines.len() as int;
    let bubble = bubble_width(width, widest(lines));
    lemma_bubble_is_solid(lines, width, n);
    assert(lines.take(n) =~= lines);
    lemma_all_wrapped_is_solid(text::split(message, '\n'), bubble_inner(width));
    text::lemma_all_solid_split(message, '\n');
    assert(all.drop_last() =~= all.take(n + 1));
    lemma_blank_spaces(bubble);
    text::lemma_solid_blank(text::repeated(' ', bubble));
    assert(all.last() == text::repeated(' ', bubble));
    assert(text::all_solid(all.drop_last()) + Seq::<char>::empty() =~= text::all_solid(all.drop_last()));
}

proof fn lemma_one_line(text: Seq<char>, width: nat)
    requires
        line::all_printable(text),
        text.len() <= width,
    ensures
        wrap_state(text, width).lines.len() == 0,
        wrap_state(text, width).line == text,
        wrap_state(text, width).used == text.len(),
    decreases text.len(),
{
    if text.len() > 0 {
        let d = text.drop_last();
        assert forall|i: int| 0 <= i < d.len() implies line::is_printable(#[trigger] d[i]) by {
            assert(d[i] == text[i]);
        }
        lemma_one_line(d, width);
        assert(line::is_printable(text[text.len() - 1]));
        assert(d.push(text.last()) =~= text);
    } else {
        assert(wrap_state(text, width).line =~= text);
    }
}

/// A message that has room on one line is shown on it, with two columns free on both sides,
/// between two empty rows.
pub proof fn short_messages_are_one_line(message: Seq<char>, width: nat)
    requires
        line::all_printable(message),
        0 < message.len(),
        message.len() + 6 <= width,
    ensures
        ({
            let rows = user_rows(message, width);
            let free = text::repeated(' ', 2);
            &&& rows.len() == 3
            &&& rows[1].spans.len() == 2
            &&& rows[1].spans[1].content == free + message + free
            &&& rows[0].spans[1].content == text::repeated(' ', message.len() + 4)
            &&& rows[2].spans[1].content == text::repeated(' ', message.len() + 4)
            &&& rows[1].spans[0].content == text::repeated(' ', (width - message.len() - 4) as nat)
        }),
{
    reveal_with_fuel(all_wrapped, 2);
    reveal_with_fuel(widest, 2);
    assert forall|i: int| 0 <= i < message.len() implies message[i] != '\n' by {
        assert(line::is_printable(message[i]));
    }
    assert(!message.contains('\n'));
    text::lemma_split_one(message, '\n');
    let inner = bubble_inner(width);
    lemma_one_line(message, inner);
    let sources = seq![message];
    assert(sources.drop_last() =~= Seq::empty());
    let lines = all_wrapped(sources, inner);
    assert(lines =~= seq![message]);
    assert(lines.drop_last() =~= Seq::empty());
    assert(lines[0] == message);
    assert(widest(lines) == message.len());
    let bubble = bubble_width(width, widest(lines));
    assert(bubble_side(width) == 2);
    assert(bubble == message.len() + 4);
    assert(greater(width - bubble, 0) == width - message.len() - 4);
    let rows = user_rows(message, width);
    assert(rows == bubble_of(lines, width));
    assert(rows.len() == 3);
    assert(rows[1] == bubble_line(
        greater(width - bubble, 0),
        bubble_text(message, 2, bubble),
    ));
    assert(greater(bubble - (2 + line::text_cells(message)), 0) == 2);
    let edge = bubble_line(greater(width - bubble, 0), text::repeated(' ', bubble));
    assert(rows[0] == edge && rows[2] == edge);
}

} // verus!
