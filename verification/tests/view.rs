use thx::bubble::{user_message_lines, wrap_cells};
use thx::clock::{Duration, Instant};
use thx::detail::tool_output_preview;
use thx::json::Json;
use thx::line::{line1, line_height, span, Line, TextColor, TextStyle, BOLD, MAX_COLUMNS};
use thx::markdown::{assistant_message_lines, lists_are_shallow};
use thx::message::{Message, ToolState, ToolView};
use thx::rows::{history_content, push_message_rows, thinking_lines, tool_group_content, Row};
use thx::scene::{
    activity_line, can_show, empty_logo, header_areas, history_max_scroll, inner, input_height,
    place_input, render, render_in, render_input, screen_areas, Areas,
};
use thx::screen::Rect;
use thx::ui::{ChatRow, Ui};
use unicode_width::UnicodeWidthStr;

fn from_value(value: &serde_json::Value) -> Json {
    match value {
        serde_json::Value::Null => Json::Null,
        serde_json::Value::Bool(value) => Json::Bool(*value),
        serde_json::Value::Number(value) => Json::Number(value.to_string()),
        serde_json::Value::String(value) => Json::Text(value.clone()),
        serde_json::Value::Array(values) => Json::Array(values.iter().map(from_value).collect()),
        serde_json::Value::Object(fields) => Json::Object(
            fields.iter().map(|(name, value)| (name.clone(), from_value(value))).collect(),
        ),
    }
}

fn json(text: &str) -> Json {
    from_value(&serde_json::from_str(text).expect("valid JSON"))
}

fn at(nanos: u128) -> Instant {
    Instant { nanos }
}

fn tool(id: u64, action: &str, state: ToolState) -> ToolView {
    ToolView {
        id,
        started: Some(at(0)),
        label: format!("server/{action}"),
        detail: String::new(),
        status: None,
        args: json("{}"),
        output: None,
        output_open: false,
        output_preview: None,
        open: false,
        state,
    }
}

fn line_text(line: &Line) -> String {
    line.spans.iter().map(|span| span.content.as_str()).collect()
}

fn plain_text(lines: &[Line]) -> String {
    lines.iter().map(line_text).collect::<Vec<_>>().join("\n")
}

fn tool_rows(tools: &Vec<ToolView>, now: Instant) -> Vec<Row> {
    let mut rows: Vec<Row> = Vec::new();
    let mut index = 0;
    tool_group_content(&mut rows, tools, &mut index, now);
    assert_eq!(index, tools.len());
    rows
}

fn tool_group_text(tools: &Vec<ToolView>) -> String {
    tool_rows(tools, at(0)).iter().map(|(line, _)| line_text(line)).collect::<Vec<_>>().join("\n")
}

fn gray() -> TextStyle {
    TextStyle { fg: Some(TextColor::Rgb(120, 120, 120)), bg: None, added: 0, removed: 0 }
}

// ---------- Calls ----------

#[test]
fn parallel_tool_group_uses_wall_clock_max_not_sum() {
    let tools = vec![
        tool(1, "a", ToolState::Done(Duration::from_secs(2))),
        tool(2, "b", ToolState::Done(Duration::from_secs(3))),
    ];
    let rendered = tool_group_text(&tools);
    assert!(rendered.starts_with("● 2 tool calls · 3.0s"), "{rendered}");
    assert!(!rendered.contains("5.0s"), "{rendered}");
}

#[test]
fn task_status_is_visible_on_its_tool() {
    let mut tool = tool(1, "build", ToolState::Pending);
    tool.status = Some("Compiling 47/83".into());
    let rendered = tool_group_text(&vec![tool]);
    assert!(rendered.contains("Compiling 47/83"), "{rendered}");
}

#[test]
fn tool_output_is_nested_and_bounded() {
    let view = |open: bool| {
        let mut tool = tool(1, "fetch", ToolState::Done(Duration::from_millis(7)));
        tool.args = json(r#"{"url":"https://example.com"}"#);
        tool.output = Some(json(r#"{"status":200,"body":"ok"}"#));
        tool.open = true;
        if open {
            tool.output_preview = tool.output.as_ref().map(tool_output_preview);
            tool.output_open = true;
        }
        tool
    };
    let collapsed = tool_group_text(&vec![view(false)]);
    assert!(collapsed.contains("▸ Output"));
    assert!(!collapsed.contains("\"status\""));
    let expanded = tool_group_text(&vec![view(true)]);
    assert!(expanded.contains("\"status\": 200"));
}

#[test]
fn groups_of_calls_are_drawn_as_trees() {
    let mut first = tool(1, "a", ToolState::Failed("bad\nworse".into(), Duration::from_secs(1)));
    first.detail = "path /x".into();
    first.open = true;
    let mut second = tool(2, "b", ToolState::Pending);
    second.status = Some(" running \n now ".into());
    let rows = tool_rows(&vec![first, second], at(2_500_000_000));
    let texts: Vec<String> = rows.iter().map(|(line, _)| line_text(line)).collect();
    assert_eq!(
        texts,
        [
            "× 2 tool calls · 2.5s",
            "├ ▾ server/a · path /x · 1.0s",
            "│    {}",
            "│  └ failed: bad",
            "│    worse",
            "└ ▸ server/b · running now · 2.5s",
        ]
    );
    let places: Vec<Option<ChatRow>> = rows.iter().map(|(_, row)| *row).collect();
    assert_eq!(
        places,
        [
            None,
            Some(ChatRow::Tool(0)),
            Some(ChatRow::Tool(0)),
            Some(ChatRow::Tool(0)),
            Some(ChatRow::Tool(0)),
            Some(ChatRow::Tool(1)),
        ]
    );
    assert_eq!(rows[0].0.spans[0].style, TextStyle { fg: None, added: BOLD, ..gray() });
    assert_eq!(rows[5].0.spans[2].style, TextStyle { added: BOLD, ..gray() });
    assert_eq!(rows[5].0.spans[3].style, gray());
}

#[test]
fn groups_without_a_start_take_their_longest_call() {
    let mut a = tool(1, "a", ToolState::Done(Duration::from_secs(2)));
    a.started = None;
    let mut b = tool(2, "b", ToolState::Done(Duration::from_secs(1)));
    b.started = None;
    assert!(tool_group_text(&vec![a, b]).starts_with("● 2 tool calls · 2.0s"));
    let pending = vec![tool(1, "a", ToolState::Pending)];
    assert!(tool_group_text(&pending).starts_with("○ 1 tool call · 0.0s"));
}

// ---------- Messages ----------

#[test]
fn user_messages_wrap_by_terminal_cell_width() {
    let lines = user_message_lines("hello world", 8);
    assert!(lines.len() >= 3);
    for line in lines {
        let width =
            line.spans.iter().map(|span| UnicodeWidthStr::width(span.content.as_str())).sum::<usize>();
        assert_eq!(width, 8);
    }
}

#[test]
fn user_message_bubble_is_dark_gray_backed_with_white_text() {
    let lines = user_message_lines("hello", 12);
    assert!(lines.iter().all(|line| {
        let (indent, bubble) = line.spans.split_at(1);
        let indent = &indent[0];
        indent.style.bg.is_none()
            && bubble.iter().all(|span| {
                span.style.bg == Some(TextColor::Rgb(60, 60, 60)) && span.style.fg == Some(TextColor::White)
            })
            && UnicodeWidthStr::width(indent.content.as_str()) > 0
    }));
}

#[test]
fn bubbles_hold_wrapped_lines() {
    let lines = user_message_lines("hello\nhi", 12);
    assert_eq!(
        plain_text(&lines),
        "            \n     hello  \n     hi     \n            "
    );
    assert!(user_message_lines("x", 0).is_empty());
    assert_eq!(plain_text(&user_message_lines("ab", 1)), " \na\nb\n ");
}

#[test]
fn wrapping_counts_cells() {
    assert_eq!(wrap_cells("", 3), [""]);
    assert_eq!(wrap_cells("abcdef", 3), ["abc", "def"]);
    assert_eq!(wrap_cells("日本語", 3), ["日", "本", "語"]);
    assert_eq!(wrap_cells("日本語", 4), ["日本", "語"]);
    assert_eq!(wrap_cells("日", 1), ["日"]);
    assert_eq!(wrap_cells("a日", 1), ["a", "日"]);
    assert_eq!(wrap_cells("a\tb", 2), ["a\tb"]);
    assert_eq!(wrap_cells("e\u{301}x", 1), ["e\u{301}", "x"]);
}

#[test]
fn wrapping_is_greedy() {
    for text in ["a日b本c語d", "日日日a", "e\u{301}\u{301}xy", "\u{301}日", "abcdefgh"] {
        for width in 0..6 {
            let lines = wrap_cells(text, width);
            assert_eq!(lines.concat(), text);
            for line in &lines {
                assert!(line.width() <= width || line.chars().count() == 1, "{text} {width}");
            }
            for pair in lines.windows(2) {
                let first: String = pair[1].chars().take(1).collect();
                assert!(pair[0].width() + first.width() > width, "{text} {width}");
            }
        }
    }
}

#[test]
fn bubbles_are_as_wide_as_their_text() {
    for (text, width) in [("日本", 8), ("e\u{301}", 5), ("ab", 6)] {
        for line in user_message_lines(text, 30) {
            assert_eq!(UnicodeWidthStr::width(line.spans[1].content.as_str()), width);
        }
    }
}

#[test]
fn reasoning_shows_its_body_when_it_is_open() {
    let text = Some("**Plan**\nfirst\nsecond");
    let closed = thinking_lines(text, false, Some(at(0)), None, at(1_200_000_000));
    assert_eq!(plain_text(&closed), "▸ Thinking · Plan · 1.2s");
    let open = thinking_lines(text, true, None, Some(Duration::from_secs(70)), at(0));
    assert_eq!(plain_text(&open), "▾ Thinking · Plan · 1m 10s\n\n    first\n    second");
    assert_eq!(open[2].spans[1].style, gray());
    let bare = thinking_lines(None, true, None, None, at(5));
    assert_eq!(plain_text(&bare), "• Thinking · 0.0s");
}

#[test]
fn assistant_inline_code_is_light_gray() {
    let lines = assistant_message_lines("Use `code` here");
    let code = lines
        .iter()
        .flat_map(|line| &line.spans)
        .find(|span| span.content == "code")
        .expect("inline code span");
    assert_eq!(code.style.fg, Some(TextColor::Rgb(120, 120, 120)));
}

#[test]
fn answers_are_rendered() {
    let lines = assistant_message_lines("# Title\n\nsome **bold** text");
    let texts: Vec<String> = lines.iter().map(line_text).collect();
    assert_eq!(texts.last().map(String::as_str), Some("some bold text"));
    let bold = lines
        .iter()
        .flat_map(|line| &line.spans)
        .find(|span| span.content == "bold")
        .expect("bold span");
    assert_eq!(bold.style.added & BOLD, BOLD);
    assert!(assistant_message_lines("").is_empty());
}

#[test]
fn messages_are_shown_as_they_are_rendered() {
    let answer = Message::Assistant { text: "`x`".into(), metrics: Some("1s".into()) };
    let given = vec![line1(span("given", gray()))];
    let mut rows: Vec<Row> = Vec::new();
    let mut index = 4;
    push_message_rows(&mut rows, &answer, 0, &mut index, &given, 20, at(0));
    let texts: Vec<String> = rows.iter().map(|(line, _)| line_text(line)).collect();
    assert_eq!(texts, ["given", "", "1s"]);
    assert_eq!(index, 4);
    let calls = Message::Tools(vec![tool(1, "a", ToolState::Done(Duration::from_secs(1)))]);
    push_message_rows(&mut rows, &calls, 1, &mut index, &given, 20, at(0));
    assert_eq!(rows[4].1, Some(ChatRow::Tool(4)));
    assert_eq!(index, 5);
}

#[test]
fn the_chat_shows_every_message() {
    let mut ui = Ui::new("m".into(), None);
    ui.push(Message::User("hi".into()));
    ui.push(Message::Assistant { text: "answer".into(), metrics: Some("1s".into()) });
    ui.reasoning_delta("r", "thought", at(0));
    ui.push(Message::Tools(vec![tool(1, "a", ToolState::Done(Duration::from_secs(1)))]));
    ui.push(Message::Info("note".into()));
    ui.push(Message::Tools(vec![tool(2, "b", ToolState::Done(Duration::from_secs(1)))]));
    ui.push(Message::Error("bad\nworse".into()));
    let (lines, rows) = history_content(&ui, 20, at(0));
    assert_eq!(
        lines.iter().map(|line| line_text(line).trim_end().to_owned()).collect::<Vec<_>>(),
        [
            "", "                hi", "", "", "answer", "", "1s", "",
            "▸ Thinking · 0.0s", "", "● 1 tool call · 1.0s", "└ ▸ server/a · 1.0s", "", "✓ note",
            "", "● 1 tool call · 1.0s", "└ ▸ server/b · 1.0s", "", "× bad", "  worse", "",
        ]
    );
    assert_eq!(rows.len(), lines.len());
    assert_eq!(rows[8], Some(ChatRow::Thinking(2)));
    assert_eq!(rows[11], Some(ChatRow::Tool(0)));
    assert_eq!(rows[16], Some(ChatRow::Tool(1)));
    assert_eq!(rows.iter().filter(|row| row.is_some()).count(), 3);
    let (narrow_lines, narrow_rows) = history_content(&ui, 10, at(0));
    assert!(narrow_rows.len() > narrow_lines.len());
    assert!(narrow_rows.iter().filter(|row| **row == Some(ChatRow::Tool(1))).count() > 1);
}

// ---------- The screen ----------

#[test]
fn areas_lose_their_margins() {
    let area = Rect { x: 2, y: 3, width: 10, height: 4 };
    assert_eq!(inner(area, 3), Rect { x: 5, y: 3, width: 4, height: 4 });
    assert_eq!(inner(area, 5), Rect { x: 7, y: 3, width: 0, height: 4 });
    assert_eq!(inner(area, 6), Rect::empty());
}

#[test]
fn the_input_grows_up_to_six_lines() {
    for (value, rows) in [("", 5), ("a\nb", 6), ("\n\n\n\n\n", 10), ("\n\n\n\n\n\n\n\n", 10)] {
        assert_eq!(input_height(value), rows);
    }
}

#[test]
fn the_screen_is_split_from_the_top_down() {
    let area = Rect { x: 0, y: 0, width: 100, height: 30 };
    let idle = screen_areas(area, false, "");
    assert_eq!(
        idle,
        Areas {
            header: Rect { x: 3, y: 1, width: 94, height: 2 },
            chat: Rect { x: 3, y: 3, width: 94, height: 22 },
            activity: Rect { x: 3, y: 25, width: 94, height: 0 },
            input: Rect { x: 2, y: 25, width: 96, height: 5 },
        }
    );
    let busy = screen_areas(area, true, "a\nb");
    assert_eq!(busy.chat.height, 19);
    assert_eq!(busy.activity.height, 2);
    assert_eq!(busy.input.height, 6);
}

#[test]
fn screens_with_room_are_filled() {
    for (x, y) in [(0, 0), (7, 3), (500, 1_000)] {
        for activity in [false, true] {
            for breaks in [0, 1, 4, 5, 9] {
                let value = "\n".repeat(breaks);
                let rows = input_height(&value);
                let busy = if activity { 2 } else { 0 };
                for height in (6 + busy + rows..120).chain([1_000, 32_767]) {
                    let area = Rect { x, y, width: 20, height };
                    let areas = screen_areas(area, activity, &value);
                    let bottom = y + height;
                    assert_eq!((areas.header.y, areas.header.height), (y + 1, 2));
                    assert_eq!(areas.chat.y, y + 3);
                    assert_eq!(areas.chat.height, height - 3 - busy - rows);
                    assert_eq!(areas.activity.y, bottom - rows - busy);
                    assert_eq!(areas.activity.height, busy);
                    assert_eq!((areas.input.y, areas.input.height), (bottom - rows, rows));
                    assert_eq!((areas.chat.x, areas.chat.width), (x + 3, 14));
                    assert_eq!((areas.input.x, areas.input.width), (x + 2, 16));
                }
            }
        }
    }
}

#[test]
fn headers_with_room_are_filled() {
    for x in [0, 3, 900] {
        for width in (4..200).chain([32_767]) {
            let header = Rect { x, y: 1, width, height: 2 };
            let (title, label) = header_areas(header);
            assert_eq!(title, Rect { x, y: 1, width: 3, height: 2 });
            assert_eq!(label, Rect { x: x + 3, y: 1, width: width - 3, height: 2 });
        }
    }
    let (title, label) = header_areas(Rect { x: 0, y: 5, width: 2, height: 1 });
    assert_eq!((title.y, title.height, label.y, label.height), (5, 1, 5, 1));
}

#[test]
fn the_logo_stands_in_the_middle() {
    let area = Rect { x: 0, y: 0, width: 19, height: 7 };
    assert_eq!(
        plain_text(&empty_logo(&area)),
        "\n\n     ╺┳╸╻ ╻╻ ╻\n      ┃ ┣━┫┏╋┛\n      ╹ ╹ ╹╹ ╹"
    );
    let small = Rect { x: 0, y: 0, width: 4, height: 2 };
    assert_eq!(plain_text(&empty_logo(&small)), "╺┳╸╻ ╻╻ ╻\n ┃ ┣━┫┏╋┛\n ╹ ╹ ╹╹ ╹");
}

#[test]
fn the_activity_names_its_phase() {
    let mut ui = Ui::new("m".into(), None);
    assert_eq!(line_text(&activity_line(&ui, at(0))), "");
    ui.begin(at(0));
    assert_eq!(line_text(&activity_line(&ui, at(1_280_000_000))), "⠦ Thinking 1.2s");
}

#[test]
fn the_chat_scrolls_as_far_as_its_rows() {
    let ui_lines = |count: usize| -> Vec<Line> {
        (0..count)
            .map(|n| line1(span(&format!("line {n}"), gray())))
            .collect()
    };
    let area = Rect { x: 0, y: 0, width: 20, height: 5 };
    assert_eq!(history_max_scroll(&area, &ui_lines(4)), 0);
    assert_eq!(history_max_scroll(&area, &ui_lines(9)), 4);
    let mut lines = ui_lines(9);
    lines.push(thx::line::blank_line());
    assert_eq!(history_max_scroll(&area, &lines), 4);
    let narrow = Rect { width: 4, ..area };
    assert_eq!(history_max_scroll(&narrow, &ui_lines(9)), 13);
}

#[test]
fn the_input_keeps_its_cursor_in_sight() {
    let mut ui = Ui::new("m".into(), None);
    let area = Rect { x: 0, y: 0, width: 12, height: 5 };
    let scene = render_input(&ui, area);
    assert_eq!(scene.area, Rect { x: 2, y: 2, width: 8, height: 1 });
    assert_eq!((scene.scroll, scene.cursor, scene.title), ((0, 0), Some((2, 2)), None));
    ui.insert_input("0123456789\n日本");
    ui.context = 1_000;
    let scene = render_input(&ui, area);
    assert_eq!(scene.scroll, (1, 0));
    assert_eq!(scene.cursor, Some((6, 2)));
    assert_eq!(scene.title.as_deref(), Some(" ctx 1k "));
    ui.input.position = 10;
    let scene = render_input(&ui, area);
    assert_eq!((scene.scroll, scene.cursor), ((0, 3), Some((9, 2))));
    ui.begin(at(0));
    assert_eq!(render_input(&ui, area).cursor, None);
    let tiny = place_input(&ui, Rect { x: 0, y: 0, width: 3, height: 3 }, 7);
    assert_eq!((tiny.scroll, tiny.cursor), ((0, 0), None));
    assert!(tiny.area.width == 0);
}

#[test]
fn rows_are_counted_up_to_the_widest_area() {
    let line = line1(span(&"word ".repeat(6_600), gray()));
    assert_eq!(line_height(&line, MAX_COLUMNS), 3);
    let line = line1(span(&"x".repeat(70_000), gray()));
    assert_eq!(line_height(&line, MAX_COLUMNS), 5);
}

#[test]
fn lists_nest_up_to_a_depth() {
    assert!(lists_are_shallow("1. one\n   1. two\n"));
    assert!(lists_are_shallow(&"1. ".repeat(16_384)));
    assert!(!lists_are_shallow(&"1. ".repeat(16_385)));
    assert!(lists_are_shallow(&"- item\n".repeat(20_000)));
    assert!(lists_are_shallow(&"so - and - so ".repeat(8_000)));
    assert!(!lists_are_shallow(&"so - and - so ".repeat(8_193)));
    let lines = assistant_message_lines(&"1. ".repeat(300));
    assert!(lines.iter().any(|line| line_text(line).len() > 1_190));
}

#[test]
fn what_can_be_drawn_is_told() {
    let mut ui = Ui::new("m".into(), None);
    assert!(can_show(&ui, 0) && can_show(&ui, MAX_COLUMNS));
    assert!(!can_show(&ui, MAX_COLUMNS + 1));
    ui.push(Message::Assistant { text: "1. one".into(), metrics: None });
    assert!(can_show(&ui, 80));
    ui.push(Message::Assistant { text: "- ".repeat(16_385), metrics: None });
    assert!(!can_show(&ui, 80));
    assert!(!can_show(&Ui::new("m".into(), Some(0)), 80));
    assert!(can_show(&Ui::new("m".into(), Some(1)), 80));
}

#[test]
fn drawing_follows_the_tail() {
    let mut ui = Ui::new("m".into(), None);
    let area = Rect { x: 0, y: 0, width: 40, height: 20 };
    let scene = render(&mut ui, area, at(0));
    assert!(plain_text(&scene.lines).contains("╺┳╸"));
    assert!(scene.activity.is_none());
    assert_eq!(ui.chat_area, scene.areas.chat);
    for n in 0..30 {
        ui.push(Message::Info(format!("note {n}")));
    }
    ui.selection = Some(((0, 0), (1, 0)));
    ui.begin(at(0));
    let areas = scene.areas;
    let scene = render_in(&mut ui, area, areas, at(0));
    assert_eq!(scene.lines.len(), 60);
    assert_eq!(ui.scroll_max, 59 - areas.chat.height);
    assert_eq!((scene.scroll, ui.chat_scroll), (ui.scroll_max, ui.scroll_max));
    assert_eq!(scene.highlighted, [(0, 0), (1, 0)]);
    assert!(scene.activity.is_some());
    ui.scroll_up(7);
    let scene = render_in(&mut ui, area, areas, at(0));
    assert_eq!(scene.scroll, ui.scroll_max - 7);
    assert_eq!(ui.chat_rows.len(), 60);
}
