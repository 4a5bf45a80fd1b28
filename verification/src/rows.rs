//! The rows of the chat.
use vstd::prelude::*;
use vstd::string::*;
use crate::bubble;
use crate::bubble::user_message_lines;
use crate::clock;
use crate::clock::{compact_duration, Duration, Instant};
use crate::detail;
use crate::detail::tool_output_preview;
use crate::host;
use crate::json;
use crate::line;
use crate::line::{
    blank_line, bold, copy_line, gray, gray_bold, line, line1, line2, line3, line_height, plain,
    span, Line, LineModel, MAX_COLUMNS, Span, SpanModel, TextStyle,
};
use crate::markdown;
use crate::markdown::{assistant_message_lines, lists_are_shallow};
use crate::message;
use crate::message::{Message, MessageModel, StateModel, ToolModel, ToolState, ToolView};
use crate::text;
use crate::text::{lines_of, push_decimal};
use crate::thinking;
use crate::thinking::thinking_parts;
use crate::truncate;
use crate::ui;
use crate::ui::{ChatRow, Ui};

verus! {

/// A line of the chat, with what it belongs to.
pub type Row = (Line, Option<ChatRow>);

/// What a row holds.
pub open spec fn row_model(row: Row) -> (LineModel, Option<ChatRow>) {
    (row.0@, row.1)
}

/// What a list of rows holds.
pub open spec fn row_models(rows: Seq<Row>) -> Seq<(LineModel, Option<ChatRow>)> {
    Seq::new(rows.len(), |i: int| row_model(rows[i]))
}

/// Every one of `lines` as a row that belongs to `row`.
pub open spec fn rows_of(lines: Seq<LineModel>, row: Option<ChatRow>) -> Seq<
    (LineModel, Option<ChatRow>),
> {
    Seq::new(lines.len(), |i: int| (lines[i], row))
}

/// Adds a row.
fn push_row(rows: &mut Vec<Row>, line: Line, row: Option<ChatRow>)
    ensures
        row_models(final(rows)@) == row_models(old(rows)@).push((line@, row)),
{
    rows.push((line, row));
    assert(row_models(rows@) =~= row_models(old(rows)@).push((line@, row)));
}

/// Adds copies of `lines` as rows that belong to `row`.
fn push_rows(rows: &mut Vec<Row>, lines: &Vec<Line>, row: Option<ChatRow>)
    ensures
        row_models(final(rows)@) == row_models(old(rows)@) + rows_of(line::line_models(lines@), row),
{
    let ghost start = row_models(rows@);
    let ghost views = line::line_models(lines@);
    let mut i: usize = 0;
    assert(row_models(rows@) =~= start + rows_of(views.take(0), row));
    while i < lines.len()
        invariant
            i <= lines@.len(),
            views == line::line_models(lines@),
            row_models(rows@) == start + rows_of(views.take(i as int), row),
        decreases lines.len() - i,
    {
        push_row(rows, copy_line(&lines[i]), row);
        i += 1;
        assert(row_models(rows@) =~= start + rows_of(views.take(i as int), row));
    }
    assert(views.take(i as int) =~= views);
}

// ---------- Reasoning ----------

/// The time that a reasoning took, or takes until now.
pub open spec fn thinking_time(
    started: Option<Instant>,
    duration: Option<Duration>,
    now: Instant,
) -> Duration {
    match duration {
        Some(duration) => duration,
        None => match started {
            Some(started) => clock::between(started, now),
            None => Duration { nanos: 0 },
        },
    }
}

/// The heading of a reasoning: whether it can be opened or closed, its title, and its time.
pub open spec fn thinking_heading(
    title: Option<Seq<char>>,
    has_body: bool,
    open: bool,
    time: Duration,
) -> Seq<char> {
    (if !has_body {
        "•"@
    } else if open {
        "▾"@
    } else {
        "▸"@
    }) + " "@ + match title {
        Some(title) => "Thinking · "@ + title,
        None => "Thinking"@,
    } + " · "@ + clock::shown(time)
}

/// A line of the body of a reasoning.
pub open spec fn body_line(text: Seq<char>) -> LineModel {
    line::line_of(seq![line::span_of("    "@, TextStyle::plain()), line::span_of(text, TextStyle::gray())])
}

/// The lines of a reasoning: its heading, and its body where it is open.
pub open spec fn thinking_view(
    text: Option<Seq<char>>,
    open: bool,
    started: Option<Instant>,
    duration: Option<Duration>,
    now: Instant,
) -> Seq<LineModel> {
    let (title, body) = thinking::parts(text);
    let heading = line::line_of(
        seq![
            line::span_of(
                thinking_heading(
                    title,
                    body is Some,
                    open,
                    thinking_time(started, duration, now),
                ),
                TextStyle::gray(),
            ),
        ],
    );
    match body {
        Some(body) => if open {
            let pieces = text::lines(body);
            seq![heading, line::empty_line()] + Seq::new(
                pieces.len(),
                |i: int| body_line(pieces[i]),
            )
        } else {
            seq![heading]
        },
        None => seq![heading],
    }
}

/// The lines of a reasoning.
pub fn thinking_lines(
    text: Option<&str>,
    open: bool,
    started: Option<Instant>,
    duration: Option<Duration>,
    now: Instant,
) -> (r: Vec<Line>)
    ensures
        line::line_models(r@) == thinking_view(
            match text {
                Some(text) => Some(text@),
                None => None,
            },
            open,
            started,
            duration,
            now,
        ),
{
    let (title, body) = thinking_parts(text);
    let elapsed = match duration {
        Some(duration) => duration,
        None => match started {
            Some(started) => now.duration_since(started),
            None => Duration { nanos: 0 },
        },
    };
    let marker = if body.is_none() {
        "•"
    } else if open {
        "▾"
    } else {
        "▸"
    };
    let mut heading = marker.to_owned();
    heading.append(" ");
    match &title {
        Some(title) => {
            let mut label = "Thinking · ".to_owned();
            label.append(title.as_str());
            heading.append(label.as_str());
        },
        None => {
            heading.append("Thinking");
        },
    }
    heading.append(" · ");
    heading.append(compact_duration(elapsed).as_str());
    let mut out: Vec<Line> = Vec::new();
    out.push(line1(span(heading.as_str(), gray())));
    let ghost first = out@[0]@;
    assert(line::line_models(out@) =~= seq![first]);
    if open {
        if let Some(body) = &body {
            out.push(blank_line());
            let pieces = lines_of(body.as_str());
            let ghost views = text::lines(body@);
            let mut i: usize = 0;
            while i < pieces.len()
                invariant
                    i <= pieces@.len(),
                    views == text::texts(pieces@),
                    out@.len() == i + 2,
                    out@[0]@ == first,
                    out@[1]@ == line::empty_line(),
                    forall|k: int|
                        0 <= k < i ==> (#[trigger] out@[k + 2])@ == body_line(views[k]),
                decreases pieces.len() - i,
            {
                assert(views[i as int] == pieces@[i as int]@);
                let new = line2(span("    ", plain()), span(pieces[i].as_str(), gray()));
                let ghost before = out@;
                out.push(new);
                i += 1;
                assert forall|k: int| 0 <= k < i implies (#[trigger] out@[k + 2])@ == body_line(
                    views[k],
                ) by {
                    if k < i - 1 {
                        assert(out@[k + 2] == before[k + 2]);
                    }
                }
            }
            proof {
                let all = seq![first, line::empty_line()] + Seq::new(
                    views.len(),
                    |i: int| body_line(views[i]),
                );
                assert forall|k: int| 0 <= k < all.len() implies line::line_models(out@)[k] == all[k] by {
                    if k >= 2 {
                        assert(out@[(k - 2) + 2]@ == body_line(views[k - 2]));
                    }
                }
                assert(line::line_models(out@) =~= all);
            }
        }
    }
    out
}

// ---------- Calls ----------

/// The earliest start of `tools`.
pub open spec fn earliest(tools: Seq<ToolModel>) -> Option<Instant>
    decreases tools.len(),
{
    if tools.len() == 0 {
        None
    } else {
        match (earliest(tools.drop_last()), tools.last().started) {
            (Some(best), Some(started)) => Some(
                if started.nanos < best.nanos {
                    started
                } else {
                    best
                },
            ),
            (None, Some(started)) => Some(started),
            (best, None) => best,
        }
    }
}

/// The latest end of `tools`; now, while one is pending.
pub open spec fn latest(tools: Seq<ToolModel>, now: Instant) -> Option<Instant>
    decreases tools.len(),
{
    if tools.len() == 0 {
        None
    } else {
        match (latest(tools.drop_last(), now), tools.last().finished_at(now)) {
            (Some(best), Some(finished)) => Some(
                if finished.nanos < best.nanos {
                    best
                } else {
                    finished
                },
            ),
            (None, Some(finished)) => Some(finished),
            (best, None) => best,
        }
    }
}

/// The longest time that one of `tools` took.
pub open spec fn longest(tools: Seq<ToolModel>, now: Instant) -> Duration
    decreases tools.len(),
{
    if tools.len() == 0 {
        Duration { nanos: 0 }
    } else {
        let best = longest(tools.drop_last(), now);
        let time = tools.last().elapsed(now);
        if time.nanos < best.nanos {
            best
        } else {
            time
        }
    }
}

/// The time that a group of calls took: from the earliest start to the latest end; the
/// longest time of one of them where that is no time.
pub open spec fn group_time(tools: Seq<ToolModel>, now: Instant) -> Duration {
    let live = match (earliest(tools), latest(tools, now)) {
        (Some(started), Some(finished)) => clock::between(started, finished),
        _ => Duration { nanos: 0 },
    };
    if live.nanos == 0 {
        longest(tools, now)
    } else {
        live
    }
}

/// Some call of the group has failed.
pub open spec fn any_failed(tools: Seq<ToolModel>) -> bool {
    exists|i: int| 0 <= i < tools.len() && (#[trigger] tools[i]).state is Failed
}

/// The heading of a group of calls.
pub open spec fn group_heading(tools: Seq<ToolModel>, now: Instant) -> Seq<char> {
    (if any_failed(tools) {
        "×"@
    } else if ui::has_pending(MessageModel::Tools(tools)) {
        "○"@
    } else {
        "●"@
    }) + " "@ + text::decimal(tools.len()) + " tool call"@ + host::plural(tools.len()) + " · "@ + clock::shown(
        group_time(tools, now),
    )
}

/// The spans of the line of a call: its branch, whether it is open, its label, and what is
/// known of it.
pub open spec fn call_spans(tool: ToolModel, is_last: bool, now: Instant) -> Seq<SpanModel> {
    seq![
        line::span_of(
            if is_last {
                "└ "@
            } else {
                "├ "@
            },
            TextStyle::gray(),
        ),
        line::span_of(
            if tool.open {
                "▾ "@
            } else {
                "▸ "@
            },
            TextStyle::gray(),
        ),
        line::span_of(
            tool.label,
            if tool.state is Failed {
                TextStyle::bold()
            } else {
                TextStyle::gray_bold()
            },
        ),
    ] + (if tool.detail.len() > 0 {
        seq![line::span_of(" · "@, TextStyle::gray()), line::span_of(tool.detail, TextStyle::gray())]
    } else {
        Seq::empty()
    }) + match tool.status {
        Some(status) => seq![
            line::span_of(" · "@, TextStyle::gray()),
            line::span_of(truncate::inlined(status), TextStyle::gray()),
        ],
        None => Seq::empty(),
    } + seq![line::span_of(" · "@ + clock::shown(tool.elapsed(now)), TextStyle::gray())]
}

/// The lines of a text below a call, each behind the branch `child` and `indent`.
pub open spec fn nested_lines(child: Seq<char>, indent: Seq<char>, text: Seq<char>) -> Seq<
    LineModel,
> {
    let pieces = text::lines(text);
    Seq::new(
        pieces.len(),
        |i: int|
            line::line_of(seq![line::span_of(child, TextStyle::gray()), line::span_of(indent + pieces[i], TextStyle::gray())]),
    )
}

/// The lines of an error below a call.
pub open spec fn error_lines(child: Seq<char>, error: Seq<char>) -> Seq<LineModel> {
    let pieces = text::lines(error);
    Seq::new(
        pieces.len(),
        |i: int|
            line::line_of(
                seq![
                    line::span_of(child, TextStyle::gray()),
                    line::span_of(
                        if i == 0 {
                            "└ failed: "@
                        } else {
                            "  "@
                        },
                        TextStyle::bold(),
                    ),
                    line::span_of(pieces[i], TextStyle::plain()),
                ],
            ),
    )
}

/// What stands before the lines below a call.
pub open spec fn child_branch(is_last: bool) -> Seq<char> {
    if is_last {
        "   "@
    } else {
        "│  "@
    }
}

/// The rows of the output of a call: its heading, and what is shown of it where it is open.
pub open spec fn output_rows(tool: ToolModel, child: Seq<char>, index: usize) -> Seq<
    (LineModel, Option<ChatRow>),
> {
    let row = Some(ChatRow::ToolOutput(index));
    seq![
        (
            line::line_of(
                seq![
                    line::span_of(child, TextStyle::gray()),
                    line::span_of(
                        if tool.output_open {
                            "  ▾ Output"@
                        } else {
                            "  ▸ Output"@
                        },
                        TextStyle::gray_bold(),
                    ),
                ],
            ),
            row,
        ),
    ] + match tool.output_preview {
        Some(preview) => if tool.output_open {
            rows_of(nested_lines(child, "    "@, preview), row)
        } else {
            Seq::empty()
        },
        None => Seq::empty(),
    }
}

/// The rows of call `index`, when `args` is the preview of its arguments: its line, below it
/// its arguments and its output where it is open, and its error if it has failed.
pub open spec fn call_rows(
    tool: ToolModel,
    args: Seq<char>,
    is_last: bool,
    index: usize,
    now: Instant,
) -> Seq<(LineModel, Option<ChatRow>)> {
    let child = child_branch(is_last);
    let row = Some(ChatRow::Tool(index));
    seq![(line::line_of(call_spans(tool, is_last, now)), row)] + (if tool.open {
        rows_of(nested_lines(child, "  "@, args), row) + if tool.output is Some {
            output_rows(tool, child, index)
        } else {
            Seq::empty()
        }
    } else {
        Seq::empty()
    }) + match tool.state {
        StateModel::Failed(error, _) => rows_of(error_lines(child, error), row),
        _ => Seq::empty(),
    }
}

/// Adds the lines of a text below a call.
fn push_nested(
    rows: &mut Vec<Row>,
    child: &str,
    indent: &str,
    text: &str,
    row: Option<ChatRow>,
)
    ensures
        row_models(final(rows)@) == row_models(old(rows)@) + rows_of(
            nested_lines(child@, indent@, text@),
            row,
        ),
{
    let ghost start = row_models(rows@);
    let pieces = lines_of(text);
    let ghost views = text::lines(text@);
    let ghost all = rows_of(nested_lines(child@, indent@, text@), row);
    let mut i: usize = 0;
    assert(row_models(rows@) =~= start + all.take(0));
    while i < pieces.len()
        invariant
            i <= pieces@.len(),
            views == text::texts(pieces@),
            views == text::lines(text@),
            all == rows_of(nested_lines(child@, indent@, text@), row),
            row_models(rows@) == start + all.take(i as int),
        decreases pieces.len() - i,
    {
        assert(views[i as int] == pieces@[i as int]@);
        let mut body = indent.to_owned();
        body.append(pieces[i].as_str());
        push_row(rows, line2(span(child, gray()), span(body.as_str(), gray())), row);
        i += 1;
        assert(row_models(rows@) =~= start + all.take(i as int));
    }
    assert(all.take(i as int) =~= all);
}

/// Adds the lines of an error below a call.
fn push_error(rows: &mut Vec<Row>, child: &str, error: &str, row: Option<ChatRow>)
    ensures
        row_models(final(rows)@) == row_models(old(rows)@) + rows_of(
            error_lines(child@, error@),
            row,
        ),
{
    let ghost start = row_models(rows@);
    let pieces = lines_of(error);
    let ghost views = text::lines(error@);
    let ghost all = rows_of(error_lines(child@, error@), row);
    let mut i: usize = 0;
    assert(row_models(rows@) =~= start + all.take(0));
    while i < pieces.len()
        invariant
            i <= pieces@.len(),
            views == text::texts(pieces@),
            views == text::lines(error@),
            all == rows_of(error_lines(child@, error@), row),
            row_models(rows@) == start + all.take(i as int),
        decreases pieces.len() - i,
    {
        assert(views[i as int] == pieces@[i as int]@);
        let lead = if i == 0 {
            "└ failed: "
        } else {
            "  "
        };
        push_row(
            rows,
            line3(span(child, gray()), span(lead, bold()), span(pieces[i].as_str(), plain())),
            row,
        );
        i += 1;
        assert(row_models(rows@) =~= start + all.take(i as int));
    }
    assert(all.take(i as int) =~= all);
}

/// The line of a call.
fn call_line(tool: &ToolView, is_last: bool, now: Instant) -> (r: Line)
    ensures
        r@ == line::line_of(call_spans(tool@, is_last, now)),
{
    let branch = if is_last {
        "└ "
    } else {
        "├ "
    };
    let marker = if tool.open {
        "▾ "
    } else {
        "▸ "
    };
    let style = match &tool.state {
        ToolState::Failed(_, _) => bold(),
        _ => gray_bold(),
    };
    let mut spans: Vec<Span> = Vec::new();
    spans.push(span(branch, gray()));
    spans.push(span(marker, gray()));
    spans.push(span(tool.label.as_str(), style));
    let ghost head = seq![spans@[0]@, spans@[1]@, spans@[2]@];
    assert(line::span_models(spans@) =~= head);
    if tool.detail.as_str().unicode_len() > 0 {
        spans.push(span(" · ", gray()));
        spans.push(span(tool.detail.as_str(), gray()));
        assert(line::span_models(spans@) =~= head + seq![
            line::span_of(" · "@, TextStyle::gray()),
            line::span_of(tool.detail@, TextStyle::gray()),
        ]);
    } else {
        assert(line::span_models(spans@) =~= head + Seq::empty());
    }
    let ghost head = line::span_models(spans@);
    match &tool.status {
        Some(status) => {
            spans.push(span(" · ", gray()));
            spans.push(span(crate::truncate::inline(status.as_str()).as_str(), gray()));
            assert(line::span_models(spans@) =~= head + seq![
                line::span_of(" · "@, TextStyle::gray()),
                line::span_of(truncate::inlined(status@), TextStyle::gray()),
            ]);
        },
        None => {
            assert(line::span_models(spans@) =~= head + Seq::empty());
        },
    }
    let ghost head = line::span_models(spans@);
    let mut time = " · ".to_owned();
    time.append(compact_duration(tool.elapsed(now)).as_str());
    spans.push(span(time.as_str(), gray()));
    assert(line::span_models(spans@) =~= head + seq![
        line::span_of(" · "@ + clock::shown(tool@.elapsed(now)), TextStyle::gray()),
    ]);
    line(spans)
}

/// Adds the rows of the output of a call.
fn push_output(rows: &mut Vec<Row>, tool: &ToolView, child: &str, index: usize)
    ensures
        row_models(final(rows)@) == row_models(old(rows)@) + output_rows(tool@, child@, index),
{
    let ghost start = row_models(rows@);
    let row = Some(ChatRow::ToolOutput(index));
    let heading = if tool.output_open {
        "  ▾ Output"
    } else {
        "  ▸ Output"
    };
    let head = line2(span(child, gray()), span(heading, gray_bold()));
    let ghost first = (head@, row);
    push_row(rows, head, row);
    assert(row_models(rows@) =~= start + seq![first]);
    if tool.output_open {
        if let Some(preview) = &tool.output_preview {
            push_nested(rows, child, "    ", preview.as_str(), row);
        }
    }
    assert(row_models(rows@) =~= start + output_rows(tool@, child@, index));
}

/// Adds the rows of call `index`, when `args` is the preview of its arguments.
pub fn push_tool(
    rows: &mut Vec<Row>,
    tool: &ToolView,
    args: &str,
    is_last: bool,
    index: usize,
    now: Instant,
)
    ensures
        row_models(final(rows)@) == row_models(old(rows)@) + call_rows(
            tool@,
            args@,
            is_last,
            index,
            now,
        ),
{
    let ghost start = row_models(rows@);
    let row = Some(ChatRow::Tool(index));
    let child = if is_last {
        "   "
    } else {
        "│  "
    };
    let head = call_line(tool, is_last, now);
    let ghost first = seq![(head@, row)];
    push_row(rows, head, row);
    assert(row_models(rows@) =~= start + first);
    let ghost mut opened: Seq<(LineModel, Option<ChatRow>)> = Seq::empty();
    if tool.open {
        push_nested(rows, child, "  ", args, row);
        proof {
            opened = rows_of(nested_lines(child@, "  "@, args@), row);
        }
        assert(row_models(rows@) =~= start + first + opened);
        if tool.output.is_some() {
            push_output(rows, tool, child, index);
            proof {
                opened = opened + output_rows(tool@, child@, index);
            }
        } else {
            assert(opened + Seq::empty() =~= opened);
        }
    }
    assert(row_models(rows@) =~= start + (first + opened));
    if let ToolState::Failed(error, _) = &tool.state {
        push_error(rows, child, error.as_str(), row);
        assert(row_models(rows@) =~= start + call_rows(tool@, args@, is_last, index, now));
    } else {
        assert(row_models(rows@) =~= start + call_rows(tool@, args@, is_last, index, now));
    }
}

/// The number `count` places after `index`, up to the greatest.
pub open spec fn place_after(index: usize, count: nat) -> usize {
    if index + count <= usize::MAX {
        (index + count) as usize
    } else {
        usize::MAX
    }
}

/// The rows of the first `n` calls of a group, of which the first is call `index`.
pub open spec fn calls_rows(tools: Seq<ToolModel>, n: nat, index: usize, now: Instant) -> Seq<
    (LineModel, Option<ChatRow>),
>
    decreases n,
{
    if n == 0 {
        Seq::empty()
    } else {
        calls_rows(tools, (n - 1) as nat, index, now) + call_rows(
            tools[n - 1],
            detail::preview(json::json_pretty(tools[n - 1].args)),
            n == tools.len(),
            place_after(index, (n - 1) as nat),
            now,
        )
    }
}

/// The rows of a group of calls, of which the first is call `index`.
pub open spec fn group_rows(tools: Seq<ToolModel>, index: usize, now: Instant) -> Seq<
    (LineModel, Option<ChatRow>),
> {
    seq![
        (
            line::line_of(
                seq![
                    line::span_of(
                        group_heading(tools, now),
                        if any_failed(tools) {
                            TextStyle::bold()
                        } else {
                            TextStyle::gray_bold()
                        },
                    ),
                ],
            ),
            None::<ChatRow>,
        ),
    ] + calls_rows(tools, tools.len(), index, now)
}

/// The time that a group of calls took.
fn time_of_group(tools: &Vec<ToolView>, now: Instant) -> (r: Duration)
    ensures
        r == group_time(message::tool_models(tools@), now),
{
    let ghost models = message::tool_models(tools@);
    let mut first: Option<Instant> = None;
    let mut last: Option<Instant> = None;
    let mut most = Duration { nanos: 0 };
    let mut i: usize = 0;
    assert(models.take(0) =~= Seq::empty());
    while i < tools.len()
        invariant
            i <= tools@.len(),
            models == message::tool_models(tools@),
            first == earliest(models.take(i as int)),
            last == latest(models.take(i as int), now),
            most == longest(models.take(i as int), now),
        decreases tools.len() - i,
    {
        proof {
            assert(models.take(i + 1).drop_last() =~= models.take(i as int));
            assert(models.take(i + 1).last() == tools@[i as int]@);
        }
        if let Some(started) = tools[i].started {
            first =
            match first {
                Some(best) => Some(
                    if started.nanos < best.nanos {
                        started
                    } else {
                        best
                    },
                ),
                None => Some(started),
            };
        }
        if let Some(finished) = tools[i].finished_at(now) {
            last =
            match last {
                Some(best) => Some(
                    if finished.nanos < best.nanos {
                        best
                    } else {
                        finished
                    },
                ),
                None => Some(finished),
            };
        }
        let time = tools[i].elapsed(now);
        if time.nanos >= most.nanos {
            most = time;
        }
        i += 1;
    }
    assert(models.take(i as int) =~= models);
    let live = match (first, last) {
        (Some(started), Some(finished)) => finished.duration_since(started),
        _ => Duration { nanos: 0 },
    };
    if live.nanos == 0 {
        most
    } else {
        live
    }
}

/// Whether some call of a group has failed, and whether some is pending.
fn states_of(tools: &Vec<ToolView>) -> (r: (bool, bool))
    ensures
        r.0 == any_failed(message::tool_models(tools@)),
        r.1 == ui::has_pending(MessageModel::Tools(message::tool_models(tools@))),
{
    let ghost models = message::tool_models(tools@);
    let mut failed = false;
    let mut pending = false;
    let mut i: usize = 0;
    while i < tools.len()
        invariant
            i <= tools@.len(),
            models == message::tool_models(tools@),
            failed ==> any_failed(models),
            !failed ==> forall|k: int| 0 <= k < i ==> !((#[trigger] models[k]).state is Failed),
            pending ==> ui::has_pending(MessageModel::Tools(models)),
            !pending ==> forall|k: int| 0 <= k < i ==> !((#[trigger] models[k]).state is Pending),
        decreases tools.len() - i,
    {
        assert(models[i as int] == tools@[i as int]@);
        match &tools[i].state {
            ToolState::Pending => {
                assert(models[i as int].state is Pending);
                pending = true;
            },
            ToolState::Done(_) => {},
            ToolState::Failed(_, _) => {
                assert(models[i as int].state is Failed);
                failed = true;
            },
        }
        i += 1;
    }
    (failed, pending)
}

/// Adds the rows of a group of calls; `tool_index` is the number of its first call, and
/// becomes that of the next.
pub fn tool_group_content(
    rows: &mut Vec<Row>,
    tools: &Vec<ToolView>,
    tool_index: &mut usize,
    now: Instant,
)
    ensures
        row_models(final(rows)@) == row_models(old(rows)@) + group_rows(
            message::tool_models(tools@),
            *old(tool_index),
            now,
        ),
        *final(tool_index) == place_after(*old(tool_index), tools@.len()),
{
    let ghost start = row_models(rows@);
    let ghost models = message::tool_models(tools@);
    let ghost first_index = *tool_index;
    let (failed, pending) = states_of(tools);
    let mut heading = (if failed {
        "×"
    } else if pending {
        "○"
    } else {
        "●"
    }).to_owned();
    heading.append(" ");
    push_decimal(&mut heading, tools.len() as u128);
    heading.append(" tool call");
    heading.append(
        if tools.len() == 1 {
            ""
        } else {
            "s"
        },
    );
    heading.append(" · ");
    heading.append(compact_duration(time_of_group(tools, now)).as_str());
    let style = if failed {
        bold()
    } else {
        gray_bold()
    };
    let head = line1(span(heading.as_str(), style));
    let ghost first = seq![(head@, None::<ChatRow>)];
    push_row(rows, head, None);
    let mut i: usize = 0;
    assert(row_models(rows@) =~= start + (first + calls_rows(models, 0, first_index, now)));
    while i < tools.len()
        invariant
            i <= tools@.len(),
            models == message::tool_models(tools@),
            *tool_index == place_after(first_index, i as nat),
            row_models(rows@) == start + (first + calls_rows(models, i as nat, first_index, now)),
        decreases tools.len() - i,
    {
        let ghost before = calls_rows(models, i as nat, first_index, now);
        assert(models[i as int] == tools@[i as int]@);
        let index: usize = *tool_index;
        let args = tool_output_preview(&tools[i].args);
        let is_last = i + 1 == tools.len();
        push_tool(rows, &tools[i], args.as_str(), is_last, index, now);
        *tool_index = index.saturating_add(1);
        i += 1;
        assert(row_models(rows@) =~= start + (first + calls_rows(
            models,
            i as nat,
            first_index,
            now,
        )));
    }
}

// ---------- The chat ----------

/// The lines of an error.
pub open spec fn error_view(text: Seq<char>) -> Seq<LineModel> {
    let pieces = text::lines(text);
    Seq::new(
        pieces.len(),
        |i: int|
            line::line_of(
                seq![
                    line::span_of(
                        if i == 0 {
                            "× "@
                        } else {
                            "  "@
                        },
                        TextStyle::bold(),
                    ),
                    line::span_of(pieces[i], TextStyle::plain()),
                ],
            ),
    )
}

/// The rows of message `at`, when `first` is the number of its first call, `markdown` is what
/// its text is rendered as, and the chat has `width` columns.
pub open spec fn message_rows(
    message: MessageModel,
    at: usize,
    first: usize,
    markdown: Seq<LineModel>,
    width: u16,
    now: Instant,
) -> Seq<(LineModel, Option<ChatRow>)> {
    match message {
        MessageModel::User(text) => rows_of(bubble::user_rows(text, width as nat), None),
        MessageModel::Assistant { text, metrics } => rows_of(markdown, None) + match metrics {
            Some(metrics) => rows_of(
                seq![line::empty_line(), line::line_of(seq![line::span_of(metrics, TextStyle::gray())])],
                None,
            ),
            None => Seq::empty(),
        },
        MessageModel::Thinking { id, text, started, duration, open } => rows_of(
            thinking_view(text, open, started, duration, now),
            if thinking::parts(text).1 is Some {
                Some(ChatRow::Thinking(at))
            } else {
                None
            },
        ),
        MessageModel::Tools(tools) => group_rows(tools, first, now),
        MessageModel::Info(text) => seq![
            (
                line::line_of(
                    seq![line::span_of("✓ "@, TextStyle::plain()), line::span_of(text, TextStyle::gray())],
                ),
                None::<ChatRow>,
            ),
        ],
        MessageModel::Error(text) => rows_of(error_view(text), None),
    }
}

/// The rows of the first `n` messages, with an empty row after each.
pub open spec fn chat_rows(
    messages: Seq<MessageModel>,
    width: u16,
    now: Instant,
    n: nat,
) -> Seq<(LineModel, Option<ChatRow>)>
    decreases n,
{
    if n == 0 {
        Seq::empty()
    } else {
        (chat_rows(messages, width, now, (n - 1) as nat) + message_rows(
            messages[n - 1],
            (n - 1) as usize,
            place_after(0, ui::calls(messages.take(n - 1))),
            answer_lines(messages[n - 1]),
            width,
            now,
        )).push((line::empty_line(), None))
    }
}

/// What the text of a message is rendered as: an answer is Markdown.
pub open spec fn answer_lines(message: MessageModel) -> Seq<LineModel> {
    match message {
        MessageModel::Assistant { text, metrics } => markdown::markdown_lines(text),
        _ => Seq::empty(),
    }
}

/// Adds the lines of an error.
fn push_error_message(rows: &mut Vec<Row>, text: &str)
    ensures
        row_models(final(rows)@) == row_models(old(rows)@) + rows_of(error_view(text@), None),
{
    let ghost start = row_models(rows@);
    let pieces = lines_of(text);
    let ghost views = text::lines(text@);
    let ghost all = rows_of(error_view(text@), None);
    let mut i: usize = 0;
    assert(row_models(rows@) =~= start + all.take(0));
    while i < pieces.len()
        invariant
            i <= pieces@.len(),
            views == text::texts(pieces@),
            views == text::lines(text@),
            all == rows_of(error_view(text@), None),
            row_models(rows@) == start + all.take(i as int),
        decreases pieces.len() - i,
    {
        assert(views[i as int] == pieces@[i as int]@);
        let lead = if i == 0 {
            "× "
        } else {
            "  "
        };
        push_row(rows, line2(span(lead, bold()), span(pieces[i].as_str(), plain())), None);
        i += 1;
        assert(row_models(rows@) =~= start + all.take(i as int));
    }
    assert(all.take(i as int) =~= all);
}

/// Adds the rows of message `at`.
pub fn push_message_rows(
    rows: &mut Vec<Row>,
    message: &Message,
    at: usize,
    tool_index: &mut usize,
    markdown: &Vec<Line>,
    width: u16,
    now: Instant,
)
    ensures
        row_models(final(rows)@) == row_models(old(rows)@) + message_rows(
            message@,
            at,
            *old(tool_index),
            line::line_models(markdown@),
            width,
            now,
        ),
        *final(tool_index) == place_after(
            *old(tool_index),
            match message@ {
                MessageModel::Tools(tools) => tools.len(),
                _ => 0,
            },
        ),
{
    let ghost start = row_models(rows@);
    match message {
        Message::User(text) => {
            let lines = user_message_lines(text.as_str(), width);
            push_rows(rows, &lines, None);
        },
        Message::Assistant { text, metrics } => {
            push_rows(rows, markdown, None);
            let ghost body = rows_of(line::line_models(markdown@), None::<ChatRow>);
            match metrics {
                Some(metrics) => {
                    let account = line1(span(metrics.as_str(), gray()));
                    let ghost last = account@;
                    push_row(rows, blank_line(), None);
                    push_row(rows, account, None);
                    assert(row_models(rows@) =~= start + (body + rows_of(
                        seq![line::empty_line(), last],
                        None,
                    )));
                },
                None => {
                    assert(row_models(rows@) =~= start + (body + Seq::empty()));
                },
            }
        },
        Message::Thinking { id, text, started, duration, open } => {
            let text = match text {
                Some(text) => Some(text.as_str()),
                None => None,
            };
            let collapsible = thinking_parts(text).1.is_some();
            let lines = thinking_lines(text, *open, *started, *duration, now);
            push_rows(
                rows,
                &lines,
                if collapsible {
                    Some(ChatRow::Thinking(at))
                } else {
                    None
                },
            );
        },
        Message::Tools(tools) => {
            tool_group_content(rows, tools, tool_index, now);
        },
        Message::Info(text) => {
            let info = line2(span("✓ ", plain()), span(text.as_str(), gray()));
            let ghost only = info@;
            push_row(rows, info, None);
            assert(row_models(rows@) =~= start + seq![(only, None::<ChatRow>)]);
        },
        Message::Error(text) => {
            push_error_message(rows, text.as_str());
        },
    }
}

/// What each row of the chat on the screen belongs to, when its lines are wrapped at `width`
/// columns: a line that takes several rows has all of them.
pub open spec fn screen_rows(rows: Seq<(LineModel, Option<ChatRow>)>, width: u16) -> Seq<
    Option<ChatRow>,
>
    decreases rows.len(),
{
    if rows.len() == 0 {
        Seq::empty()
    } else {
        let height = line::paragraph_rows(seq![line::contents(rows.last().0)], width);
        screen_rows(rows.drop_last(), width) + Seq::new(
            if height >= 1 {
                height as nat
            } else {
                1
            },
            |i: int| rows.last().1,
        )
    }
}

/// The lines of rows.
pub open spec fn row_lines(rows: Seq<(LineModel, Option<ChatRow>)>) -> Seq<LineModel> {
    Seq::new(rows.len(), |i: int| rows[i].0)
}

/// The columns that lines are wrapped at, when the chat has `width` columns.
pub open spec fn wrap_width(width: u16) -> u16 {
    if width >= 1 {
        width
    } else {
        1
    }
}

/// What each row of the chat on the screen belongs to, when `heights` are the rows that its
/// lines take.
pub fn place_rows(rows: &Vec<Row>, heights: &Vec<usize>) -> (r: Vec<Option<ChatRow>>)
    requires
        heights@.len() == rows@.len(),
    ensures
        r@ == placed(rows@, heights@, rows@.len()),
{
    let mut out: Vec<Option<ChatRow>> = Vec::new();
    let mut i: usize = 0;
    while i < rows.len()
        invariant
            i <= rows@.len(),
            heights@.len() == rows@.len(),
            out@ == placed(rows@, heights@, i as nat),
        decreases rows.len() - i,
    {
        let height: usize = if heights[i] >= 1 {
            heights[i]
        } else {
            1
        };
        let ghost start = out@;
        let mut k: usize = 0;
        let row = rows[i].1;
        assert(out@ =~= start + Seq::new(0, |j: int| row));
        while k < height
            invariant
                k <= height,
                out@ == start + Seq::new(k as nat, |j: int| row),
            decreases height - k,
        {
            out.push(row);
            k += 1;
            assert(out@ =~= start + Seq::new(k as nat, |j: int| row));
        }
        i += 1;
        assert(out@ =~= placed(rows@, heights@, i as nat));
    }
    out
}

/// What each row of the first `n` rows of the chat belongs to on the screen.
pub open spec fn placed(rows: Seq<Row>, heights: Seq<usize>, n: nat) -> Seq<Option<ChatRow>>
    decreases n,
{
    if n == 0 {
        Seq::empty()
    } else {
        placed(rows, heights, (n - 1) as nat) + Seq::new(
            if heights[n - 1] >= 1 {
                heights[n - 1] as nat
            } else {
                1
            },
            |i: int| rows[n - 1].1,
        )
    }
}

proof fn lemma_placed(rows: Seq<Row>, heights: Seq<usize>, width: u16, n: nat)
    requires
        n <= rows.len(),
        heights.len() == rows.len(),
        forall|i: int|
            0 <= i < rows.len() ==> #[trigger] heights[i] == line::paragraph_rows(
                seq![line::contents(rows[i].0@)],
                width,
            ),
    ensures
        placed(rows, heights, n) == screen_rows(row_models(rows).take(n as int), width),
    decreases n,
{
    let models = row_models(rows);
    if n > 0 {
        lemma_placed(rows, heights, width, (n - 1) as nat);
        assert(models.take(n as int).drop_last() =~= models.take(n - 1));
        assert(models.take(n as int).last() == row_model(rows[n - 1]));
        assert(heights[n - 1] == line::paragraph_rows(seq![line::contents(rows[n - 1].0@)], width));
        assert(placed(rows, heights, n) =~= screen_rows(models.take(n as int), width));
    } else {
        assert(models.take(0) =~= Seq::empty());
    }
}

/// Every answer among `messages` can be rendered.
pub open spec fn are_renderable(messages: Seq<MessageModel>) -> bool {
    forall|i: int|
        0 <= i < messages.len() ==> (#[trigger] messages[i] matches MessageModel::Assistant {
            text,
            metrics,
        } ==> markdown::nests_shallowly(text))
}

/// Tells whether every answer among `messages` can be rendered.
pub fn can_render(messages: &Vec<Message>) -> (r: bool)
    ensures
        r == are_renderable(message::message_models(messages@)),
{
    let ghost models = message::message_models(messages@);
    let mut i: usize = 0;
    while i < messages.len()
        invariant
            i <= messages@.len(),
            models == message::message_models(messages@),
            forall|k: int|
                0 <= k < i ==> (#[trigger] models[k] matches MessageModel::Assistant {
                    text,
                    metrics,
                } ==> markdown::nests_shallowly(text)),
        decreases messages.len() - i,
    {
        assert(models[i as int] == messages@[i as int]@);
        if let Message::Assistant { text, metrics } = &messages[i] {
            if !lists_are_shallow(text.as_str()) {
                return false;
            }
        }
        i += 1;
    }
    true
}

/// What the text of a message is rendered as.
fn rendered_lines(message: &Message) -> (r: Vec<Line>)
    requires
        message@ matches MessageModel::Assistant { text, metrics } ==> markdown::nests_shallowly(text),
    ensures
        line::line_models(r@) == answer_lines(message@),
{
    match message {
        Message::Assistant { text, metrics } => assistant_message_lines(text.as_str()),
        _ => {
            let none: Vec<Line> = Vec::new();
            assert(line::line_models(none@) =~= Seq::empty());
            none
        },
    }
}

/// The lines of the chat, and what each row of it on the screen belongs to.
pub fn history_content(ui: &Ui, width: u16, now: Instant) -> (r: (
    Vec<Line>,
    Vec<Option<ChatRow>>,
))
    requires
        width <= MAX_COLUMNS,
        are_renderable(ui@.messages),
    ensures
        ({
            let rows = chat_rows(ui@.messages, width, now, ui@.messages.len());
            &&& line::line_models(r.0@) == row_lines(rows)
            &&& r.1@ == screen_rows(rows, wrap_width(width))
        }),
{
    let ghost models = ui@.messages;
    let mut rows: Vec<Row> = Vec::new();
    let mut tool_index: usize = 0;
    let mut i: usize = 0;
    assert(row_models(rows@) =~= Seq::empty());
    assert(models.take(0) =~= Seq::empty());
    while i < ui.messages.len()
        invariant
            i <= ui.messages@.len(),
            models == message::message_models(ui.messages@),
            are_renderable(models),
            tool_index == place_after(0, ui::calls(models.take(i as int))),
            row_models(rows@) == chat_rows(models, width, now, i as nat),
        decreases ui.messages.len() - i,
    {
        proof {
            assert(models.take(i + 1).drop_last() =~= models.take(i as int));
            assert(models.take(i + 1).last() == ui.messages@[i as int]@);
            assert(models[i as int] == ui.messages@[i as int]@);
        }
        let markdown = rendered_lines(&ui.messages[i]);
        push_message_rows(
            &mut rows,
            &ui.messages[i],
            i,
            &mut tool_index,
            &markdown,
            width,
            now,
        );
        push_row(&mut rows, blank_line(), None);
        i += 1;
    }
    let columns: u16 = if width >= 1 {
        width
    } else {
        1
    };
    let mut heights: Vec<usize> = Vec::new();
    let mut lines: Vec<Line> = Vec::new();
    let mut k: usize = 0;
    while k < rows.len()
        invariant
            k <= rows@.len(),
            columns <= MAX_COLUMNS,
            heights@.len() == k,
            lines@.len() == k,
            forall|j: int|
                0 <= j < k ==> #[trigger] heights@[j] == line::paragraph_rows(
                    seq![line::contents(rows@[j].0@)],
                    columns,
                ),
            forall|j: int| 0 <= j < k ==> (#[trigger] lines@[j])@ == rows@[j].0@,
        decreases rows.len() - k,
    {
        heights.push(line_height(&rows[k].0, columns));
        lines.push(copy_line(&rows[k].0));
        k += 1;
    }
    let places = place_rows(&rows, &heights);
    proof {
        lemma_placed(rows@, heights@, columns, rows@.len());
        assert(row_models(rows@).take(rows@.len() as int) =~= row_models(rows@));
        assert(line::line_models(lines@) =~= row_lines(row_models(rows@)));
    }
    (lines, places)
}

// ---------- Laws ----------

/// The starts and ends of calls that started together.
proof fn lemma_started_together(tools: Seq<ToolModel>, started: Instant, now: Instant)
    requires
        started.nanos <= now.nanos,
        forall|i: int| #![trigger tools[i]]
            0 <= i < tools.len() ==> tools[i].started == Some(started) && started.nanos
                + tools[i].elapsed(now).nanos <= u128::MAX,
    ensures
        tools.len() > 0 ==> earliest(tools) == Some(started),
        tools.len() > 0 ==> latest(tools, now) == Some(
            Instant { nanos: (started.nanos + longest(tools, now).nanos) as u128 },
        ),
        started.nanos + longest(tools, now).nanos <= u128::MAX,
    decreases tools.len(),
{
    if tools.len() > 0 {
        let rest = tools.drop_last();
        assert forall|i: int| #![trigger rest[i]] 0 <= i < rest.len() implies rest[i].started
            == Some(started) && started.nanos + rest[i].elapsed(now).nanos <= u128::MAX by {
            assert(rest[i] == tools[i]);
        }
        lemma_started_together(rest, started, now);
        assert(tools.last() == tools[tools.len() - 1]);
    }
}

/// Calls that started together take as long as the longest of them, not as long as all of them
/// one after the other.
pub proof fn parallel_calls_take_as_long_as_the_longest(
    tools: Seq<ToolModel>,
    started: Instant,
    now: Instant,
)
    requires
        started.nanos <= now.nanos,
        forall|i: int| #![trigger tools[i]]
            0 <= i < tools.len() ==> tools[i].started == Some(started) && started.nanos
                + tools[i].elapsed(now).nanos <= u128::MAX,
    ensures
        group_time(tools, now) == longest(tools, now),
{
    lemma_started_together(tools, started, now);
}

/// What a row of the chat belongs to is there: a reasoning that can be opened, or a call.
pub open spec fn leads_somewhere(messages: Seq<MessageModel>, row: Option<ChatRow>) -> bool {
    match row {
        Some(ChatRow::Thinking(at)) => at < messages.len() && (
        messages[at as int] matches MessageModel::Thinking { text, .. } && thinking::parts(text).1 is Some),
        Some(ChatRow::Tool(index)) => index < ui::calls(messages),
        Some(ChatRow::ToolOutput(index)) => index < ui::calls(messages),
        None => true,
    }
}

/// The rows of the first `n` calls of a group belong to those calls.
proof fn lemma_calls_rows(tools: Seq<ToolModel>, n: nat, index: usize, now: Instant, i: int)
    requires
        n <= tools.len(),
        0 <= i < calls_rows(tools, n, index, now).len(),
    ensures
        exists|k: nat|
            k < n && (calls_rows(tools, n, index, now)[i].1 == Some(
                ChatRow::Tool(#[trigger] place_after(index, k)),
            ) || calls_rows(tools, n, index, now)[i].1 == Some(
                ChatRow::ToolOutput(place_after(index, k)),
            )),
    decreases n,
{
    let before = calls_rows(tools, (n - 1) as nat, index, now);
    if i < before.len() {
        lemma_calls_rows(tools, (n - 1) as nat, index, now, i);
        let k = choose|k: nat|
            k < n - 1 && (before[i].1 == Some(ChatRow::Tool(#[trigger] place_after(index, k)))
                || before[i].1 == Some(ChatRow::ToolOutput(place_after(index, k))));
        assert(k < n && place_after(index, k) == place_after(index, k));
    } else {
        let k = (n - 1) as nat;
        assert(place_after(index, k) == place_after(index, k));
    }
}

/// The calls of the first messages are among those of all.
proof fn lemma_calls_grow(messages: Seq<MessageModel>, n: nat)
    requires
        n <= messages.len(),
    ensures
        ui::calls(messages.take(n as int)) <= ui::calls(messages),
    decreases messages.len(),
{
    if n < messages.len() {
        let rest = messages.drop_last();
        lemma_calls_grow(rest, n);
        assert(rest.take(n as int) =~= messages.take(n as int));
    } else {
        assert(messages.take(n as int) =~= messages);
    }
}

/// The rows of the first `n` messages lead somewhere.
proof fn lemma_chat_rows_lead_somewhere(
    messages: Seq<MessageModel>,
    width: u16,
    now: Instant,
    n: nat,
    i: int,
)
    requires
        n <= messages.len() <= usize::MAX,
        ui::calls(messages) <= usize::MAX,
        0 <= i < chat_rows(messages, width, now, n).len(),
    ensures
        leads_somewhere(messages, chat_rows(messages, width, now, n)[i].1),
    decreases n,
{
    let at = (n - 1) as nat;
    let before = chat_rows(messages, width, now, at);
    let first = place_after(0, ui::calls(messages.take(at as int)));
    let rows = message_rows(messages[at as int], at as usize, first, answer_lines(messages[at as int]), width, now);
    if i < before.len() {
        lemma_chat_rows_lead_somewhere(messages, width, now, at, i);
    } else if i < before.len() + rows.len() {
        assert(chat_rows(messages, width, now, n)[i] == rows[i - before.len()]);
        if let MessageModel::Tools(tools) = messages[at as int] {
            let j = i - before.len();
            if j > 0 {
                lemma_calls_rows(tools, tools.len(), first, now, j - 1);
                let row = calls_rows(tools, tools.len(), first, now)[j - 1].1;
                assert(rows[j].1 == row);
                let k = choose|k: nat|
                    k < tools.len() && (row == Some(
                        ChatRow::Tool(#[trigger] place_after(first, k)),
                    ) || row == Some(ChatRow::ToolOutput(place_after(first, k))));
                lemma_calls_grow(messages, n);
                assert(messages.take(n as int).drop_last() =~= messages.take(at as int));
                assert(messages.take(n as int).last() == messages[at as int]);
            }
        }
    }
}

/// Every row of the chat on the screen that can be clicked leads to a reasoning that can be
/// opened or to a call.
pub proof fn rows_lead_somewhere(
    messages: Seq<MessageModel>,
    width: u16,
    now: Instant,
    i: int,
)
    requires
        messages.len() <= usize::MAX,
        ui::calls(messages) <= usize::MAX,
        0 <= i < screen_rows(
            chat_rows(messages, width, now, messages.len()),
            wrap_width(width),
        ).len(),
    ensures
        leads_somewhere(
            messages,
            screen_rows(
                chat_rows(messages, width, now, messages.len()),
                wrap_width(width),
            )[i],
        ),
{
    let rows = chat_rows(messages, width, now, messages.len());
    let j = lemma_screen_row(rows, wrap_width(width), i);
    lemma_chat_rows_lead_somewhere(messages, width, now, messages.len(), j);
}

/// A row on the screen belongs to what a line of the chat belongs to.
proof fn lemma_screen_row(
    rows: Seq<(LineModel, Option<ChatRow>)>,
    width: u16,
    i: int,
) -> (j: int)
    requires
        0 <= i < screen_rows(rows, width).len(),
    ensures
        0 <= j < rows.len(),
        screen_rows(rows, width)[i] == rows[j].1,
    decreases rows.len(),
{
    let before = screen_rows(rows.drop_last(), width);
    if i < before.len() {
        lemma_screen_row(rows.drop_last(), width, i)
    } else {
        rows.len() - 1
    }
}

// ---------- Which row shows what ----------

/// The rows of the first messages are the first rows of the chat.
proof fn lemma_message_rows_at(
    messages: Seq<MessageModel>,
    width: u16,
    now: Instant,
    n: nat,
    m: nat,
    i: int,
)
    requires
        m < n <= messages.len(),
        0 <= i < message_rows(
            messages[m as int],
            m as usize,
            place_after(0, ui::calls(messages.take(m as int))),
            answer_lines(messages[m as int]),
            width,
            now,
        ).len(),
    ensures
        ({
            let rows = message_rows(
                messages[m as int],
                m as usize,
                place_after(0, ui::calls(messages.take(m as int))),
                answer_lines(messages[m as int]),
                width,
                now,
            );
            let at = chat_rows(messages, width, now, m).len() + i;
            at < chat_rows(messages, width, now, n).len() && chat_rows(messages, width, now, n)[at]
                == rows[i]
        }),
    decreases n,
{
    let at = chat_rows(messages, width, now, m).len() + i;
    let before = chat_rows(messages, width, now, (n - 1) as nat);
    if m < n - 1 {
        lemma_message_rows_at(messages, width, now, (n - 1) as nat, m, i);
        assert(chat_rows(messages, width, now, n)[at] == before[at]);
    }
}

/// The rows of a call stand behind those of the calls before it in its group.
proof fn lemma_call_rows_at(
    tools: Seq<ToolModel>,
    n: nat,
    k: nat,
    index: usize,
    now: Instant,
    i: int,
)
    requires
        k < n <= tools.len(),
        0 <= i < call_rows(
            tools[k as int],
            detail::preview(json::json_pretty(tools[k as int].args)),
            k + 1 == tools.len(),
            place_after(index, k),
            now,
        ).len(),
    ensures
        ({
            let rows = call_rows(
                tools[k as int],
                detail::preview(json::json_pretty(tools[k as int].args)),
                k + 1 == tools.len(),
                place_after(index, k),
                now,
            );
            let at = calls_rows(tools, k, index, now).len() + i;
            at < calls_rows(tools, n, index, now).len() && calls_rows(tools, n, index, now)[at]
                == rows[i]
        }),
    decreases n,
{
    if k < n - 1 {
        lemma_call_rows_at(tools, (n - 1) as nat, k, index, now, i);
    }
}

/// The row of the chat that a call starts at: behind those of the messages before it, the
/// heading of its group, and the calls before it there.
pub open spec fn call_start(
    messages: Seq<MessageModel>,
    width: u16,
    now: Instant,
    place: (int, int),
) -> int {
    1int + chat_rows(messages, width, now, place.0 as nat).len() + calls_rows(
        messages[place.0]->Tools_0,
        place.1 as nat,
        place_after(0, ui::calls(messages.take(place.0))),
        now,
    ).len()
}

/// The number of a call in the conversation.
pub open spec fn call_number(messages: Seq<MessageModel>, place: (int, int)) -> usize {
    (ui::calls(messages.take(place.0)) + place.1) as usize
}

/// The row shows `text` behind what leads it, and a click on it reaches `target`.
pub open spec fn reaches(
    row: (LineModel, Option<ChatRow>),
    text: Seq<char>,
    target: ChatRow,
) -> bool {
    row.0.spans.len() > 0 && row.0.spans.last().content == text && row.1 == Some(target)
}

/// The lines of the arguments that are shown of a call: those of an open call.
pub open spec fn shown_args(tool: ToolModel) -> Seq<Seq<char>> {
    if tool.open {
        text::lines(detail::preview(json::json_pretty(tool.args)))
    } else {
        Seq::empty()
    }
}

/// The lines of the output that are shown of a call: those of an open call with an open output.
pub open spec fn shown_output(tool: ToolModel) -> Seq<Seq<char>> {
    match tool.output_preview {
        Some(text) => if tool.open && tool.output is Some && tool.output_open {
            text::lines(text)
        } else {
            Seq::empty()
        },
        None => Seq::empty(),
    }
}

/// The lines of the error that are shown of a call that has failed.
pub open spec fn shown_error(tool: ToolModel) -> Seq<Seq<char>> {
    match tool.state {
        StateModel::Failed(error, _) => text::lines(error),
        _ => Seq::empty(),
    }
}

/// `rows` show a call from row `at` on, row by row: its line with its label, below it its
/// arguments where it is open, the heading of its output where it has one, the output where
/// that is open too, and its error where it has failed. A click on the heading or on a row of
/// the output reaches the output of call `number`, a click on any other row the call itself.
pub open spec fn shows_call(
    rows: Seq<(LineModel, Option<ChatRow>)>,
    at: int,
    tool: ToolModel,
    number: usize,
) -> bool {
    let args = shown_args(tool);
    let output = shown_output(tool);
    let error = shown_error(tool);
    let headed = tool.open && tool.output is Some;
    let below = at + 1 + args.len();
    let end = below + if headed {
        1 + output.len()
    } else {
        0
    };
    &&& 0 <= at && end + error.len() <= rows.len()
    &&& rows[at].1 == Some(ChatRow::Tool(number))
    &&& rows[at].0.spans.len() > 2 && rows[at].0.spans[2].content == tool.label
    &&& forall|i: int|
        #![trigger args[i]]
        0 <= i < args.len() ==> reaches(rows[at + 1 + i], "  "@ + args[i], ChatRow::Tool(number))
    &&& headed ==> reaches(
        rows[below],
        if tool.output_open {
            "  ▾ Output"@
        } else {
            "  ▸ Output"@
        },
        ChatRow::ToolOutput(number),
    )
    &&& forall|i: int|
        #![trigger output[i]]
        0 <= i < output.len() ==> reaches(
            rows[below + 1 + i],
            "    "@ + output[i],
            ChatRow::ToolOutput(number),
        )
    &&& forall|i: int|
        #![trigger error[i]]
        0 <= i < error.len() ==> reaches(rows[end + i], error[i], ChatRow::Tool(number))
}

/// How many rows a call takes.
spec fn call_height(tool: ToolModel) -> nat {
    1 + shown_args(tool).len() + shown_error(tool).len() + if tool.open && tool.output is Some {
        1 + shown_output(tool).len()
    } else {
        0
    }
}

/// The rows of a call, in their parts.
proof fn lemma_call_parts(tool: ToolModel, is_last: bool, number: usize, now: Instant)
    ensures
        ({
            let own = call_rows(tool, detail::preview(json::json_pretty(tool.args)), is_last, number, now);
            let child = child_branch(is_last);
            let row = Some(ChatRow::Tool(number));
            let asked = rows_of(nested_lines(child, "  "@, detail::preview(json::json_pretty(tool.args))), row);
            let output = output_rows(tool, child, number);
            let first = seq![(line::line_of(call_spans(tool, is_last, now)), row)];
            let failed = match tool.state {
                StateModel::Failed(error, _) => rows_of(error_lines(child, error), row),
                _ => Seq::empty(),
            };
            &&& own == first + (if tool.open {
                if tool.output is Some {
                    asked + output
                } else {
                    asked
                }
            } else {
                Seq::empty()
            }) + failed
            &&& own.len() == call_height(tool)
            &&& tool.open && tool.output is Some ==> output.len() == 1 + shown_output(tool).len()
            &&& asked.len() == text::lines(detail::preview(json::json_pretty(tool.args))).len()
            &&& failed.len() == shown_error(tool).len()
        }),
{
    let child = child_branch(is_last);
    let row = Some(ChatRow::Tool(number));
    let asked = rows_of(nested_lines(child, "  "@, detail::preview(json::json_pretty(tool.args))), row);
    assert(asked + Seq::empty() =~= asked);
}

proof fn lemma_own_rows(tool: ToolModel, is_last: bool, number: usize, now: Instant)
    ensures
        shows_call(
            call_rows(tool, detail::preview(json::json_pretty(tool.args)), is_last, number, now),
            0,
            tool,
            number,
        ),
{
    lemma_call_parts(tool, is_last, number, now);
    let own = call_rows(tool, detail::preview(json::json_pretty(tool.args)), is_last, number, now);
    let child = child_branch(is_last);
    let row = Some(ChatRow::Tool(number));
    let text = detail::preview(json::json_pretty(tool.args));
    let asked = rows_of(nested_lines(child, "  "@, text), row);
    let below_rows = output_rows(tool, child, number);
    let args = shown_args(tool);
    let output = shown_output(tool);
    let error = shown_error(tool);
    let headed = tool.open && tool.output is Some;
    let below = 1 + args.len();
    let end = below + if headed {
        1 + output.len()
    } else {
        0
    };
    assert(own[0] == (line::line_of(call_spans(tool, is_last, now)), row));
    assert(call_spans(tool, is_last, now)[2].content == tool.label);
    assert forall|i: int| #![trigger args[i]] 0 <= i < args.len() implies reaches(
        own[0 + 1 + i],
        "  "@ + args[i],
        ChatRow::Tool(number),
    ) by {
        assert(own[1 + i] == asked[i]);
        assert(asked[i].0 == nested_lines(child, "  "@, text)[i]);
    }
    if headed {
        assert(own[below as int] == below_rows[0]);
        assert forall|i: int| #![trigger output[i]] 0 <= i < output.len() implies reaches(
            own[0 + below + 1 + i],
            "    "@ + output[i],
            ChatRow::ToolOutput(number),
        ) by {
            let line = nested_lines(child, "    "@, tool.output_preview->0)[i];
            assert(own[below + 1 + i] == below_rows[1 + i]);
            assert(below_rows[1 + i] == (line, Some(ChatRow::ToolOutput(number))));
        }
    }
    assert forall|i: int| #![trigger error[i]] 0 <= i < error.len() implies reaches(
        own[0 + end + i],
        error[i],
        ChatRow::Tool(number),
    ) by {
        let failed = rows_of(error_lines(child, tool.state->Failed_0), row);
        assert(own[end + i] == failed[i]);
        assert(failed[i].0 == error_lines(child, tool.state->Failed_0)[i]);
    }
}

proof fn lemma_shown_there(
    own: Seq<(LineModel, Option<ChatRow>)>,
    rows: Seq<(LineModel, Option<ChatRow>)>,
    at: int,
    tool: ToolModel,
    number: usize,
)
    requires
        shows_call(own, 0, tool, number),
        0 <= at,
        at + own.len() <= rows.len(),
        forall|i: int| 0 <= i < own.len() ==> #[trigger] own[i] == rows[at + i],
    ensures
        shows_call(rows, at, tool, number),
{
    let args = shown_args(tool);
    let output = shown_output(tool);
    let error = shown_error(tool);
    let headed = tool.open && tool.output is Some;
    let below = 1 + args.len();
    let end = below + if headed {
        1 + output.len()
    } else {
        0
    };
    assert(own[0] == rows[at + 0]);
    assert forall|i: int| #![trigger args[i]] 0 <= i < args.len() implies reaches(
        rows[at + 1 + i],
        "  "@ + args[i],
        ChatRow::Tool(number),
    ) by {
        assert(own[0 + 1 + i] == rows[at + (1 + i)]);
    }
    if headed {
        assert(own[0int + below] == rows[at + below]);
    }
    assert forall|i: int| #![trigger output[i]] 0 <= i < output.len() implies reaches(
        rows[at + below + 1 + i],
        "    "@ + output[i],
        ChatRow::ToolOutput(number),
    ) by {
        assert(own[0 + below + 1 + i] == rows[at + (below + 1 + i)]);
    }
    assert forall|i: int| #![trigger error[i]] 0 <= i < error.len() implies reaches(
        rows[at + end + i],
        error[i],
        ChatRow::Tool(number),
    ) by {
        assert(own[0 + end + i] == rows[at + (end + i)]);
    }
}

/// Every call is shown row by row, and each of its rows reaches that very call or its output.
pub proof fn calls_are_shown_row_by_row(
    messages: Seq<MessageModel>,
    width: u16,
    now: Instant,
    place: (int, int),
)
    requires
        ui::holds_call(messages, place),
        messages.len() <= usize::MAX,
        ui::calls(messages) <= usize::MAX,
    ensures
        shows_call(
            chat_rows(messages, width, now, messages.len()),
            call_start(messages, width, now, place),
            ui::call_in(messages, place),
            call_number(messages, place),
        ),
{
    let (m, k) = place;
    let tools = messages[m]->Tools_0;
    let tool = tools[k];
    let first = place_after(0, ui::calls(messages.take(m)));
    let number = call_number(messages, place);
    ui::calls_are_numbered_in_order(messages, place);
    assert(place_after(first, k as nat) == number);
    let rows = chat_rows(messages, width, now, messages.len());
    let at = call_start(messages, width, now, place);
    let is_last = k + 1 == tools.len();
    let own = call_rows(tool, detail::preview(json::json_pretty(tool.args)), is_last, number, now);
    let group = group_rows(tools, first, now);
    let before = calls_rows(tools, k as nat, first, now).len();
    lemma_own_rows(tool, is_last, number, now);
    assert forall|i: int| 0 <= i < own.len() implies at + i < rows.len() && #[trigger] own[i]
        == rows[at + i] by {
        lemma_call_rows_at(tools, tools.len(), k as nat, first, now, i);
        assert(group[1 + before + i] == own[i]);
        lemma_message_rows_at(messages, width, now, messages.len(), m as nat, 1 + before + i);
    }
    assert(own[own.len() - 1] == rows[at + (own.len() - 1)]);
    lemma_shown_there(own, rows, at, tool, number);
}

/// A reasoning is shown row by row: its heading, and its body where it is open. A click on any
/// of its rows reaches this very reasoning, where it has a body; else nothing.
pub proof fn reasonings_are_shown_row_by_row(
    messages: Seq<MessageModel>,
    width: u16,
    now: Instant,
    m: int,
)
    requires
        0 <= m < messages.len() <= usize::MAX,
        messages[m] is Thinking,
    ensures
        ({
            let rows = chat_rows(messages, width, now, messages.len());
            let at = chat_rows(messages, width, now, m as nat).len() as int;
            let body = thinking::parts(messages[m]->Thinking_text).1;
            let open = messages[m]->Thinking_open && body is Some;
            let pieces = if open {
                text::lines(body->0)
            } else {
                Seq::empty()
            };
            &&& at + (if open {
                2 + pieces.len()
            } else {
                1
            }) < rows.len()
            &&& rows[at].1 == (if body is Some {
                Some(ChatRow::Thinking(m as usize))
            } else {
                None
            })
            &&& open ==> rows[at + 1].1 == Some(ChatRow::Thinking(m as usize))
            &&& forall|i: int|
                #![trigger pieces[i]]
                0 <= i < pieces.len() ==> reaches(
                    rows[at + 2 + i],
                    pieces[i],
                    ChatRow::Thinking(m as usize),
                )
        }),
{
    let rows = chat_rows(messages, width, now, messages.len());
    let at = chat_rows(messages, width, now, m as nat).len() as int;
    let first = place_after(0, ui::calls(messages.take(m)));
    let own = message_rows(messages[m], m as usize, first, answer_lines(messages[m]), width, now);
    let body = thinking::parts(messages[m]->Thinking_text).1;
    let open = messages[m]->Thinking_open && body is Some;
    let pieces = if open {
        text::lines(body->0)
    } else {
        Seq::empty()
    };
    assert(own.len() == (if open {
        2 + pieces.len()
    } else {
        1
    }));
    assert forall|i: int| 0 <= i < own.len() implies #[trigger] own[i] == rows[at + i] by {
        lemma_message_rows_at(messages, width, now, messages.len(), m as nat, i);
    }
    lemma_row_behind(messages, width, now, messages.len(), m as nat);
    assert(own[0] == rows[at + 0]);
    if open {
        assert(own[1] == rows[at + 1]);
    }
    assert forall|i: int| #![trigger pieces[i]] 0 <= i < pieces.len() implies reaches(
        rows[at + 2 + i],
        pieces[i],
        ChatRow::Thinking(m as usize),
    ) by {
        assert(own[2 + i].0 == body_line(pieces[i]));
        assert(own[2 + i] == rows[at + (2 + i)]);
    }
}

/// There is a row behind those of every message.
proof fn lemma_row_behind(
    messages: Seq<MessageModel>,
    width: u16,
    now: Instant,
    n: nat,
    m: nat,
)
    requires
        m < n <= messages.len(),
    ensures
        chat_rows(messages, width, now, m).len() + message_rows(
            messages[m as int],
            m as usize,
            place_after(0, ui::calls(messages.take(m as int))),
            answer_lines(messages[m as int]),
            width,
            now,
        ).len() < chat_rows(messages, width, now, n).len(),
    decreases n,
{
    if m < n - 1 {
        lemma_row_behind(messages, width, now, (n - 1) as nat, m);
    }
}

/// The rows that a line takes on the screen: as many as it is wrapped to, and one at least.
pub open spec fn rows_taken(line: LineModel, width: u16) -> nat {
    let height = line::paragraph_rows(seq![line::contents(line)], width);
    if height >= 1 {
        height as nat
    } else {
        1
    }
}

/// The rows that the first `n` lines take on the screen.
pub open spec fn rows_above(
    rows: Seq<(LineModel, Option<ChatRow>)>,
    width: u16,
    n: nat,
) -> nat
    decreases n,
{
    if n == 0 {
        0
    } else {
        rows_above(rows, width, (n - 1) as nat) + rows_taken(rows[n - 1].0, width)
    }
}

proof fn lemma_screen_rows_at(
    rows: Seq<(LineModel, Option<ChatRow>)>,
    width: u16,
    n: nat,
    j: nat,
    d: nat,
)
    requires
        j < n <= rows.len(),
        d < rows_taken(rows[j as int].0, width),
    ensures
        screen_rows(rows.take(n as int), width).len() == rows_above(rows, width, n),
        rows_above(rows, width, j) + d < rows_above(rows, width, n),
        screen_rows(rows.take(n as int), width)[(rows_above(rows, width, j) + d) as int]
            == rows[j as int].1,
    decreases n,
{
    let head = rows.take(n as int);
    assert(head.drop_last() =~= rows.take(n - 1));
    assert(head.last() == rows[n - 1]);
    lemma_screen_len(rows, width, (n - 1) as nat);
    if j < n - 1 {
        lemma_screen_rows_at(rows, width, (n - 1) as nat, j, d);
    }
}

proof fn lemma_screen_len(rows: Seq<(LineModel, Option<ChatRow>)>, width: u16, n: nat)
    requires
        n <= rows.len(),
    ensures
        screen_rows(rows.take(n as int), width).len() == rows_above(rows, width, n),
    decreases n,
{
    if n > 0 {
        lemma_screen_len(rows, width, (n - 1) as nat);
        assert(rows.take(n as int).drop_last() =~= rows.take(n - 1));
        assert(rows.take(n as int).last() == rows[n - 1]);
    } else {
        assert(rows.take(0) =~= Seq::empty());
    }
}

/// Every line has its rows on the screen below those of the lines before it, and a click on any
/// of them reaches what the line belongs to.
pub proof fn lines_have_their_rows_on_the_screen(
    rows: Seq<(LineModel, Option<ChatRow>)>,
    width: u16,
    j: nat,
    d: nat,
)
    requires
        j < rows.len(),
        d < rows_taken(rows[j as int].0, width),
    ensures
        screen_rows(rows, width).len() == rows_above(rows, width, rows.len()),
        rows_above(rows, width, j) + d < screen_rows(rows, width).len(),
        screen_rows(rows, width)[(rows_above(rows, width, j) + d) as int] == rows[j as int].1,
{
    assert(rows.take(rows.len() as int) =~= rows);
    lemma_screen_rows_at(rows, width, rows.len(), j, d);
}

// ---------- What rows tell ----------

/// What a line says: its texts, one after the other.
pub open spec fn line_text(spans: Seq<SpanModel>) -> Seq<char>
    decreases spans.len(),
{
    if spans.len() == 0 {
        Seq::empty()
    } else {
        line_text(spans.drop_last()) + spans.last().content
    }
}

proof fn lemma_line_text(a: Seq<SpanModel>, b: Seq<SpanModel>)
    ensures
        line_text(a + b) == line_text(a) + line_text(b),
    decreases b.len(),
{
    if b.len() == 0 {
        assert(a + b =~= a);
        assert(line_text(a) + line_text(b) =~= line_text(a));
    } else {
        lemma_line_text(a, b.drop_last());
        assert((a + b).drop_last() =~= a + b.drop_last());
        assert((a + b).last() == b.last());
        assert(line_text(a) + line_text(b.drop_last()) + b.last().content =~= line_text(a) + (
        line_text(b.drop_last()) + b.last().content));
    }
}

proof fn lemma_two_spans(a: SpanModel, b: SpanModel)
    ensures
        line_text(seq![a, b]) == a.content + b.content,
        line_text(seq![a]) == a.content,
{
    reveal_with_fuel(line_text, 3);
    assert(seq![a, b].drop_last() =~= seq![a]);
    assert(seq![a].drop_last() =~= Seq::empty());
    assert(Seq::<char>::empty() + a.content =~= a.content);
}

/// What the line of a call has to say: its label, its detail and its status where it has them,
/// and the time it took or has taken.
pub open spec fn call_told(tool: ToolModel, now: Instant) -> Seq<Seq<char>> {
    let label = seq![tool.label];
    let detailed = if tool.detail.len() > 0 {
        label.push(tool.detail)
    } else {
        label
    };
    let stated = match tool.status {
        Some(status) => detailed.push(truncate::inlined(status)),
        None => detailed,
    };
    stated.push(clock::shown(tool.elapsed(now)))
}

/// The line of a call tells all that is known of it, and whether it is open.
pub proof fn call_lines_tell_what_is_known(tool: ToolModel, is_last: bool, now: Instant)
    ensures
        text::holds_in_order(line_text(call_spans(tool, is_last, now)), call_told(tool, now)),
        call_spans(tool, is_last, now)[1].content == (if tool.open {
            "▾ "@
        } else {
            "▸ "@
        }),
        call_spans(tool, is_last, now)[2].content == tool.label,
        tool.state is Failed <==> call_spans(tool, is_last, now)[2].style == TextStyle::bold(),
{
    let spans = call_spans(tool, is_last, now);
    let start = spans.take(2);
    let named = spans.take(3);
    assert(named =~= start + seq![spans[2]]);
    lemma_line_text(start, seq![spans[2]]);
    lemma_two_spans(spans[2], spans[2]);
    text::lemma_holds_itself(tool.label);
    text::lemma_holds_behind(line_text(start), tool.label, seq![tool.label]);
    let dot = line::span_of(" · "@, TextStyle::gray());
    let detail = line::span_of(tool.detail, TextStyle::gray());
    let more = if tool.detail.len() > 0 {
        seq![dot, detail]
    } else {
        Seq::empty()
    };
    let detailed = named + more;
    let p = if tool.detail.len() > 0 {
        seq![tool.label].push(tool.detail)
    } else {
        seq![tool.label]
    };
    lemma_line_text(named, more);
    if tool.detail.len() > 0 {
        lemma_two_spans(dot, detail);
        text::lemma_holds_next(line_text(named), " · "@, tool.detail, seq![tool.label]);
        assert(line_text(named) + (" · "@ + tool.detail) =~= line_text(named) + " · "@
            + tool.detail);
    } else {
        assert(line_text(named) + line_text(more) =~= line_text(named));
    }
    let status = match tool.status {
        Some(status) => seq![dot, line::span_of(truncate::inlined(status), TextStyle::gray())],
        None => Seq::empty(),
    };
    let stated = detailed + status;
    let q = match tool.status {
        Some(status) => p.push(truncate::inlined(status)),
        None => p,
    };
    lemma_line_text(detailed, status);
    if let Some(text) = tool.status {
        let line = truncate::inlined(text);
        lemma_two_spans(dot, line::span_of(line, TextStyle::gray()));
        text::lemma_holds_next(line_text(detailed), " · "@, line, p);
        assert(line_text(detailed) + (" · "@ + line) =~= line_text(detailed) + " · "@ + line);
    } else {
        assert(line_text(detailed) + line_text(status) =~= line_text(detailed));
    }
    let time = clock::shown(tool.elapsed(now));
    let last = line::span_of(" · "@ + time, TextStyle::gray());
    lemma_line_text(stated, seq![last]);
    lemma_two_spans(last, last);
    text::lemma_holds_next(line_text(stated), " · "@, time, q);
    assert(line_text(stated) + (" · "@ + time) =~= line_text(stated) + " · "@ + time);
    assert(spans =~= stated + seq![last]);
}

/// The heading of a group tells how many calls it has and the time it takes, and whether one of
/// them has failed or is pending.
pub proof fn group_headings_tell_calls_and_time(tools: Seq<ToolModel>, now: Instant)
    ensures
        text::holds_in_order(
            group_heading(tools, now),
            seq![text::decimal(tools.len()), clock::shown(group_time(tools, now))],
        ),
        (exists|i: int| 0 <= i < tools.len() && (#[trigger] tools[i]).state is Failed)
            ==> group_heading(tools, now)[0] == '×',
        (forall|i: int| 0 <= i < tools.len() ==> (#[trigger] tools[i]).state is Done)
            ==> group_heading(tools, now)[0] == '●',
        (forall|i: int| 0 <= i < tools.len() ==> !((#[trigger] tools[i]).state is Failed)) && (
        exists|i: int| 0 <= i < tools.len() && (#[trigger] tools[i]).state is Pending)
            ==> group_heading(tools, now)[0] == '○',
{
    reveal_strlit("×");
    reveal_strlit("○");
    reveal_strlit("●");
    let mark = if any_failed(tools) {
        "×"@
    } else if ui::has_pending(MessageModel::Tools(tools)) {
        "○"@
    } else {
        "●"@
    };
    let none = Seq::<Seq<char>>::empty();
    let count = text::decimal(tools.len());
    let time = clock::shown(group_time(tools, now));
    text::lemma_holds_itself(mark);
    text::lemma_holds_next(mark, " "@, count, none);
    let a = mark + " "@ + count;
    let lead = " tool call"@ + host::plural(tools.len()) + " · "@;
    text::lemma_holds_next(a, lead, time, none.push(count));
    assert(group_heading(tools, now) =~= a + lead + time);
    assert(none.push(count).push(time) =~= seq![count, time]);
    assert(group_heading(tools, now)[0] == mark[0]);
}

proof fn lemma_group_ends(tools: Seq<ToolModel>, now: Instant, i: int)
    requires
        0 <= i < tools.len(),
    ensures
        tools[i].started matches Some(started) ==> (earliest(tools) matches Some(first)
            && first.nanos <= started.nanos),
        tools[i].finished_at(now) matches Some(finished) ==> (latest(tools, now) matches Some(last)
            && finished.nanos <= last.nanos),
        tools[i].elapsed(now).nanos <= longest(tools, now).nanos,
    decreases tools.len(),
{
    if i < tools.len() - 1 {
        lemma_group_ends(tools.drop_last(), now, i);
    }
}

proof fn lemma_group_bounds(tools: Seq<ToolModel>, now: Instant)
    ensures
        earliest(tools) matches Some(first) ==> exists|i: int|
            0 <= i < tools.len() && (#[trigger] tools[i]).started == Some(first),
        latest(tools, now) matches Some(last) ==> exists|i: int|
            0 <= i < tools.len() && (#[trigger] tools[i]).finished_at(now) == Some(last),
        tools.len() > 0 ==> exists|i: int|
            0 <= i < tools.len() && (#[trigger] tools[i]).elapsed(now) == longest(tools, now),
    decreases tools.len(),
{
    if tools.len() > 0 {
        let d = tools.drop_last();
        let last = tools.len() - 1;
        lemma_group_bounds(d, now);
        assert(tools[last] == tools.last());
        if earliest(d) is Some && earliest(tools) == earliest(d) {
            let i = choose|i: int|
                0 <= i < d.len() && (#[trigger] d[i]).started == Some(earliest(d)->0);
            assert(tools[i] == d[i]);
        }
        if latest(d, now) is Some && latest(tools, now) == latest(d, now) {
            let i = choose|i: int|
                0 <= i < d.len() && (#[trigger] d[i]).finished_at(now) == Some(latest(d, now)->0);
            assert(tools[i] == d[i]);
        }
        let time = tools[last].elapsed(now);
        let best = longest(d, now);
        assert(longest(tools, now) == (if time.nanos < best.nanos {
            best
        } else {
            time
        }));
        if time.nanos < best.nanos {
            assert(d.len() > 0);
            let i = choose|i: int| 0 <= i < d.len() && (#[trigger] d[i]).elapsed(now) == best;
            assert(tools[i] == d[i]);
            assert(tools[i].elapsed(now) == longest(tools, now));
        } else {
            assert(tools[last].elapsed(now) == longest(tools, now));
        }
    }
}

/// A group of calls whose starts are known takes from the first start to the last end; where
/// none is known, as long as the longest of them.
pub proof fn groups_take_from_first_start_to_last_end(
    tools: Seq<ToolModel>,
    now: Instant,
    first: int,
    last: int,
)
    requires
        0 <= first < tools.len() && 0 <= last < tools.len(),
        forall|i: int|
            0 <= i < tools.len() ==> (#[trigger] tools[i]).started is Some && tools[i].finished_at(
                now,
            ) is Some,
        forall|i: int|
            0 <= i < tools.len() ==> tools[first].started->0.nanos <= (#[trigger] tools[i]).started->0.nanos,
        forall|i: int|
            0 <= i < tools.len() ==> (#[trigger] tools[i]).finished_at(now)->0.nanos
                <= tools[last].finished_at(now)->0.nanos,
        tools[first].started->0.nanos < tools[last].finished_at(now)->0.nanos,
    ensures
        group_time(tools, now).nanos == tools[last].finished_at(now)->0.nanos
            - tools[first].started->0.nanos,
{
    lemma_group_ends(tools, now, first);
    lemma_group_ends(tools, now, last);
    lemma_group_bounds(tools, now);
    let i = choose|i: int|
        0 <= i < tools.len() && (#[trigger] tools[i]).started == Some(earliest(tools)->0);
    let j = choose|j: int|
        0 <= j < tools.len() && (#[trigger] tools[j]).finished_at(now) == Some(
            latest(tools, now)->0,
        );
    assert(tools[first].started->0.nanos <= tools[i].started->0.nanos);
    assert(tools[j].finished_at(now)->0.nanos <= tools[last].finished_at(now)->0.nanos);
}

/// The heading of a reasoning tells its title where it has one, and its time; its mark tells
/// whether there is a body, and whether that is open.
pub proof fn reasoning_headings_tell_title_and_time(
    title: Option<Seq<char>>,
    has_body: bool,
    open: bool,
    time: Duration,
)
    ensures
        title matches Some(text) ==> text::holds_in_order(
            thinking_heading(title, has_body, open, time),
            seq![text, clock::shown(time)],
        ),
        title is None ==> text::holds_in_order(
            thinking_heading(title, has_body, open, time),
            seq![clock::shown(time)],
        ),
        thinking_heading(title, has_body, open, time)[0] == (if !has_body {
            '•'
        } else if open {
            '▾'
        } else {
            '▸'
        }),
{
    reveal_strlit("•");
    reveal_strlit("▾");
    reveal_strlit("▸");
    let mark = if !has_body {
        "•"@
    } else if open {
        "▾"@
    } else {
        "▸"@
    };
    let none = Seq::<Seq<char>>::empty();
    text::lemma_holds_itself(mark);
    let all = thinking_heading(title, has_body, open, time);
    match title {
        Some(text) => {
            text::lemma_holds_next(mark, " "@ + "Thinking · "@, text, none);
            let a = mark + (" "@ + "Thinking · "@) + text;
            text::lemma_holds_next(a, " · "@, clock::shown(time), none.push(text));
            assert(all =~= a + " · "@ + clock::shown(time));
            assert(none.push(text).push(clock::shown(time)) =~= seq![text, clock::shown(time)]);
        },
        None => {
            text::lemma_holds_next(mark, " "@ + "Thinking"@ + " · "@, clock::shown(time), none);
            assert(all =~= mark + (" "@ + "Thinking"@ + " · "@) + clock::shown(time));
            assert(none.push(clock::shown(time)) =~= seq![clock::shown(time)]);
        },
    }
    assert(all[0] == mark[0]);
}

/// From row `at` on the rows are `shown_lines`, none of which can be clicked.
pub open spec fn are_lines(
    rows: Seq<(LineModel, Option<ChatRow>)>,
    at: int,
    shown_lines: Seq<LineModel>,
) -> bool {
    at + shown_lines.len() <= rows.len() && forall|i: int|
        #![trigger shown_lines[i]]
        0 <= i < shown_lines.len() ==> rows[at + i] == (shown_lines[i], None::<ChatRow>)
}

/// Row `at` says `text` behind what leads it, and cannot be clicked.
pub open spec fn is_plain_row(
    rows: Seq<(LineModel, Option<ChatRow>)>,
    at: int,
    text: Seq<char>,
) -> bool {
    0 <= at < rows.len() && rows[at].1 is None && rows[at].0.spans.len() > 0
        && rows[at].0.spans.last().content == text
}

/// From row `at` on the rows say `said`, one row each.
pub open spec fn are_plain_rows(
    rows: Seq<(LineModel, Option<ChatRow>)>,
    at: int,
    said: Seq<Seq<char>>,
) -> bool {
    forall|i: int| #![trigger said[i]] 0 <= i < said.len() ==> is_plain_row(rows, at + i, said[i])
}

/// Every message is shown as it is: what the user has said in a bubble, an answer as Markdown
/// with its metrics two rows below, information and errors line by line; none of their rows can
/// be clicked.
pub proof fn messages_are_shown_as_they_are(
    messages: Seq<MessageModel>,
    width: u16,
    now: Instant,
    m: int,
)
    requires
        0 <= m < messages.len() <= usize::MAX,
    ensures
        ({
            let rows = chat_rows(messages, width, now, messages.len());
            let at = chat_rows(messages, width, now, m as nat).len() as int;
            &&& messages[m] matches MessageModel::User(text) ==> are_lines(
                rows,
                at,
                bubble::user_rows(text, width as nat),
            )
            &&& messages[m] matches MessageModel::Assistant { text, metrics } ==> are_lines(
                rows,
                at,
                markdown::markdown_lines(text),
            ) && (metrics matches Some(account) ==> is_plain_row(
                rows,
                at + markdown::markdown_lines(text).len() + 1,
                account,
            ))
            &&& messages[m] matches MessageModel::Info(text) ==> is_plain_row(rows, at, text)
            &&& messages[m] matches MessageModel::Error(text) ==> are_plain_rows(
                rows,
                at,
                text::lines(text),
            )
        }),
{
    let rows = chat_rows(messages, width, now, messages.len());
    let at = chat_rows(messages, width, now, m as nat).len() as int;
    let first = place_after(0, ui::calls(messages.take(m)));
    let own = message_rows(messages[m], m as usize, first, answer_lines(messages[m]), width, now);
    lemma_row_behind(messages, width, now, messages.len(), m as nat);
    assert forall|i: int| 0 <= i < own.len() implies #[trigger] own[i] == rows[at + i] by {
        lemma_message_rows_at(messages, width, now, messages.len(), m as nat, i);
    }
    match messages[m] {
        MessageModel::User(text) => {
            let said = bubble::user_rows(text, width as nat);
            assert forall|i: int| #![trigger said[i]] 0 <= i < said.len() implies rows[at + i] == (
                said[i],
                None::<ChatRow>,
            ) by {
                assert(own[i] == rows[at + i]);
            }
        },
        MessageModel::Assistant { text, metrics } => {
            let said = markdown::markdown_lines(text);
            assert forall|i: int| #![trigger said[i]] 0 <= i < said.len() implies rows[at + i] == (
                said[i],
                None::<ChatRow>,
            ) by {
                assert(own[i] == rows[at + i]);
            }
            if let Some(account) = metrics {
                let i = said.len() as int + 1;
                assert(own[i] == rows[at + i]);
            }
        },
        MessageModel::Info(text) => {
            assert(own[0] == rows[at + 0]);
        },
        MessageModel::Error(text) => {
            let said = text::lines(text);
            assert forall|i: int| #![trigger said[i]] 0 <= i < said.len() implies is_plain_row(
                rows,
                at + i,
                said[i],
            ) by {
                assert(own[i].0 == error_view(text)[i]);
                assert(own[i] == rows[at + i]);
            }
        },
        _ => {},
    }
}

/// The line of every call in the chat tells all that is known of it.
pub proof fn the_chat_tells_what_is_known_of_calls(
    messages: Seq<MessageModel>,
    width: u16,
    now: Instant,
    place: (int, int),
)
    requires
        ui::holds_call(messages, place),
        messages.len() <= usize::MAX,
        ui::calls(messages) <= usize::MAX,
    ensures
        ({
            let rows = chat_rows(messages, width, now, messages.len());
            let tools = messages[place.0]->Tools_0;
            let heading = chat_rows(messages, width, now, place.0 as nat).len() as int;
            let at = call_start(messages, width, now, place);
            &&& 0 <= heading < rows.len() && rows[heading].1 is None && text::holds_in_order(
                line_text(rows[heading].0.spans),
                seq![text::decimal(tools.len()), clock::shown(group_time(tools, now))],
            )
            &&& 0 <= at < rows.len() && text::holds_in_order(
                line_text(rows[at].0.spans),
                call_told(tools[place.1], now),
            )
        }),
{
    let (m, k) = place;
    let tools = messages[m]->Tools_0;
    let first = place_after(0, ui::calls(messages.take(m)));
    let rows = chat_rows(messages, width, now, messages.len());
    let group = group_rows(tools, first, now);
    let before = calls_rows(tools, k as nat, first, now).len() as int;
    let is_last = k + 1 == tools.len();
    lemma_call_rows_at(tools, tools.len(), k as nat, first, now, 0);
    lemma_message_rows_at(messages, width, now, messages.len(), m as nat, 0);
    lemma_message_rows_at(messages, width, now, messages.len(), m as nat, 1 + before);
    call_lines_tell_what_is_known(tools[k], is_last, now);
    group_headings_tell_calls_and_time(tools, now);
    assert(group[1 + before].0 == line::line_of(call_spans(tools[k], is_last, now)));
    let heading = group[0].0.spans;
    lemma_two_spans(heading[0], heading[0]);
    assert(heading =~= seq![heading[0]]);
    assert(line_text(heading) == group_heading(tools, now));
}

/// The heading of every reasoning in the chat tells its title, where it has one, and how long it
/// took, or has taken since its start.
pub proof fn the_chat_tells_title_and_time_of_reasonings(
    messages: Seq<MessageModel>,
    width: u16,
    now: Instant,
    m: int,
)
    requires
        0 <= m < messages.len() <= usize::MAX,
        messages[m] is Thinking,
    ensures
        ({
            let rows = chat_rows(messages, width, now, messages.len());
            let at = chat_rows(messages, width, now, m as nat).len() as int;
            let said = line_text(rows[at].0.spans);
            let title = thinking::parts(messages[m]->Thinking_text).0;
            &&& 0 <= at < rows.len()
            &&& messages[m]->Thinking_duration matches Some(time) ==> text::holds_in_order(
                said,
                seq![clock::shown(time)],
            ) && (title matches Some(text) ==> text::holds_in_order(said, seq![text, clock::shown(time)]))
            &&& messages[m]->Thinking_duration is None ==> (
            messages[m]->Thinking_started matches Some(started) ==> text::holds_in_order(
                said,
                seq![clock::shown(clock::between(started, now))],
            ) && (title matches Some(text) ==> text::holds_in_order(
                said,
                seq![text, clock::shown(clock::between(started, now))],
            )))
        }),
{
    let rows = chat_rows(messages, width, now, messages.len());
    let at = chat_rows(messages, width, now, m as nat).len() as int;
    let first = place_after(0, ui::calls(messages.take(m)));
    let own = message_rows(messages[m], m as usize, first, answer_lines(messages[m]), width, now);
    let text = messages[m]->Thinking_text;
    let open = messages[m]->Thinking_open;
    let time = thinking_time(
        messages[m]->Thinking_started,
        messages[m]->Thinking_duration,
        now,
    );
    let (title, body) = thinking::parts(text);
    reasoning_headings_tell_title_and_time(title, body is Some, open, time);
    let heading = thinking_heading(title, body is Some, open, time);
    lemma_message_rows_at(messages, width, now, messages.len(), m as nat, 0);
    let spans = own[0].0.spans;
    lemma_two_spans(spans[0], spans[0]);
    assert(spans =~= seq![spans[0]]);
    assert(line_text(spans) == heading);
    if let Some(told) = title {
        text::lemma_holds_one(heading, seq![told, clock::shown(time)], 1);
    }
}

} // verus!
