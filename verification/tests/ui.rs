use thx::chat::{
    copied, end_turn, exported, handle_busy_event, handle_command, handle_common_key,
    handle_mouse, handle_queued_scroll, BusyAction, ChatAction, CommandAction, MouseKind,
    TerminalEvent, TurnEnd, COMMAND_HELP,
};
use thx::clock::{Duration, Instant};
use thx::count::Usage;
use thx::host::McpHost;
use thx::input::{Input, Key, KeyName};
use thx::json::Json;
use thx::message::{Message, SavedMessage, ToolState, ToolView};
use thx::screen::{highlighted, selected_text, selection_bounds, Rect, Screen};
use thx::session::{completed_session, keep_turn, ChatState};
use thx::thinking::ReasoningContent;
use thx::turn::{
    drain_tool_events, finalize_stream, StreamItem, ToolEvent, Turn, TurnAction, TurnEvent,
};
use thx::ui::{ChatRow, Phase, Ui};

fn from_value(value: &serde_json::Value) -> Json {
    match value {
        serde_json::Value::Null => Json::Null,
        serde_json::Value::Bool(value) => Json::Bool(*value),
        serde_json::Value::Number(value) => Json::Number(value.to_string()),
        serde_json::Value::String(value) => Json::Text(value.clone()),
        serde_json::Value::Array(values) => Json::Array(values.iter().map(from_value).collect()),
        serde_json::Value::Object(fields) => Json::Object(
            fields.iter().map(|(name, value)| (name.clone(), from_value(value))).collect(),
        ),
    }
}

fn json(text: &str) -> Json {
    from_value(&serde_json::from_str(text).expect("valid JSON"))
}

fn at(nanos: u128) -> Instant {
    Instant { nanos }
}

fn key(code: KeyName) -> Key {
    Key { code, shift: false, control: false, other: false }
}

fn shift(code: KeyName) -> Key {
    Key { shift: true, ..key(code) }
}

fn control(c: char) -> Key {
    Key { control: true, ..key(KeyName::Char(c)) }
}

fn tool(id: u64, action: &str, state: ToolState) -> ToolView {
    ToolView {
        id,
        started: Some(at(0)),
        label: format!("server/{action}"),
        detail: String::new(),
        status: None,
        args: json("{}"),
        output: None,
        output_open: false,
        output_preview: None,
        open: false,
        state,
    }
}

fn chat() -> ChatState<&'static str> {
    let mut next = 1;
    ChatState::new("test-model".into(), None, None, &mut next)
}

// ---------- Input ----------

#[test]
fn input_insert_preserves_multiline_paste() {
    let mut ui = Ui::new("test".into(), None);
    ui.insert_input("first\r\nsecond\rthird");
    assert_eq!(ui.input.value, "first\nsecond\nthird");
}

#[test]
fn input_insert_respects_cursor_position() {
    let mut ui = Ui::new("test".into(), None);
    ui.insert_input("ac");
    ui.input.handle_key_event(&key(KeyName::Left));
    ui.insert_input("b");
    assert_eq!(ui.input.value, "abc");
}

#[test]
fn keys_edit_as_the_prompt_editor_does() {
    let codes = [
        KeyName::Enter, KeyName::Esc, KeyName::Up, KeyName::Down, KeyName::PageUp,
        KeyName::PageDown, KeyName::Left, KeyName::Right, KeyName::Home, KeyName::End,
        KeyName::Backspace, KeyName::Delete, KeyName::Char('a'), KeyName::Char('b'),
        KeyName::Char('d'), KeyName::Char('e'), KeyName::Char('f'), KeyName::Char('h'),
        KeyName::Char('k'), KeyName::Char('u'), KeyName::Char('é'), KeyName::Other,
    ];
    let outcome = |value: &str, position: usize, key: &Key| {
        let mut input = Input { value: value.into(), position };
        input.handle_key_event(key);
        (input.value, input.position)
    };
    for code in codes {
        for position in 0..=3usize {
            let plain = outcome("xyz", position, &key(code));
            let left: String = "xyz".chars().take(position).collect();
            let right: String = "xyz".chars().skip(position).collect();
            let expected = match code {
                KeyName::Left => ("xyz".to_owned(), position.saturating_sub(1)),
                KeyName::Right => ("xyz".to_owned(), (position + 1).min(3)),
                KeyName::Home => ("xyz".to_owned(), 0),
                KeyName::End => ("xyz".to_owned(), 3),
                KeyName::Backspace if position > 0 => {
                    (format!("{}{right}", &left[..position - 1]), position - 1)
                }
                KeyName::Delete if position < 3 => (format!("{left}{}", &right[1..]), position),
                KeyName::Char(c) => (format!("{left}{c}{right}"), position + 1),
                _ => ("xyz".to_owned(), position),
            };
            assert_eq!(plain, expected, "{code:?} at {position}");
        }
    }
    assert_eq!(outcome("xyz", 1, &control('k')), ("x".to_owned(), 1));
    assert_eq!(outcome("xyz", 1, &control('u')), (String::new(), 0));
    assert_eq!(outcome("xyz", 2, &control('h')), ("xz".to_owned(), 1));
    assert_eq!(outcome("xyz", 2, &control('d')), ("xy".to_owned(), 2));
    assert_eq!(outcome("xyz", 2, &control('a')), ("xyz".to_owned(), 0));
    assert_eq!(outcome("xyz", 2, &control('e')), ("xyz".to_owned(), 3));
    assert_eq!(outcome("xyz", 2, &control('b')), ("xyz".to_owned(), 1));
    assert_eq!(outcome("xyz", 2, &control('f')), ("xyz".to_owned(), 3));
    assert_eq!(outcome("xyz", 2, &control('x')), ("xyz".to_owned(), 2));
    assert_eq!(outcome("xyz", 1, &shift(KeyName::Char('Q'))), ("xQyz".to_owned(), 2));
    assert_eq!(outcome("éa", 2, &control('k')), ("é".to_owned(), 2));
    assert_eq!(outcome("é", 5, &key(KeyName::Char('b'))), ("éb".to_owned(), 6));
    assert_eq!(outcome("é", 5, &key(KeyName::Backspace)), ("é".to_owned(), 4));
    let alt = Key { other: true, ..key(KeyName::Char('q')) };
    assert_eq!(outcome("xyz", 1, &alt), ("xyz".to_owned(), 1));
}

#[test]
fn the_cursor_stays_inside_but_for_cutting() {
    let mut input = Input { value: "日本\nab".into(), position: 2 };
    for code in [KeyName::Right, KeyName::Char('x'), KeyName::Backspace, KeyName::Delete] {
        input.handle_key_event(&key(code));
        assert!(input.position <= input.value.chars().count());
    }
    let mut input = Input { value: "éa".into(), position: 2 };
    input.handle_key_event(&control('k'));
    assert_eq!((input.value.as_str(), input.position), ("é", 2));
}

#[test]
fn the_cursor_moves_between_lines() {
    let mut ui = Ui::new("test".into(), None);
    assert!(!ui.move_input_vertical(true));
    ui.insert_input("long line\nab\nthird");
    assert_eq!(ui.input.position, 18);
    assert!(ui.move_input_vertical(false));
    assert_eq!(ui.input.position, 12);
    assert!(ui.move_input_vertical(false));
    assert_eq!(ui.input.position, 2);
    assert!(ui.move_input_vertical(false));
    assert_eq!(ui.input.position, 2);
    ui.input.position = 9;
    assert!(ui.move_input_vertical(true));
    assert_eq!(ui.input.position, 12);
    assert!(ui.move_input_vertical(true));
    assert_eq!(ui.input.position, 15);
    assert!(ui.move_input_vertical(true));
    assert_eq!(ui.input.position, 15);
}

#[test]
fn shift_enter_inserts_newline_and_enter_submits() {
    let mut state = chat();
    let mcp = McpHost::new();
    let events = [
        TerminalEvent::Paste("first".into()),
        TerminalEvent::Key(shift(KeyName::Enter)),
        TerminalEvent::Paste("second".into()),
    ];
    for event in &events {
        assert_eq!(state.handle_event(event, &mcp), ChatAction::Continue);
    }
    assert_eq!(
        state.handle_event(&TerminalEvent::Key(key(KeyName::Enter)), &mcp),
        ChatAction::Prompt("first\nsecond".into())
    );
    assert!(matches!(&state.ui.messages[0], Message::User(text) if text == "first\nsecond"));
    assert_eq!(state.ui.input.value, "");
    assert_eq!(state.ui.input.position, 0);
    assert_eq!(
        state.handle_event(&TerminalEvent::Key(control('c')), &mcp),
        ChatAction::Exit
    );
}

#[test]
fn bracketed_paste_never_submits() {
    let mut state = chat();
    let mcp = McpHost::new();
    let paste = TerminalEvent::Paste("first\r\nsecond".into());
    assert_eq!(state.handle_event(&paste, &mcp), ChatAction::Continue);
    let ctrl_c = TerminalEvent::Key(control('c'));
    assert_eq!(state.handle_event(&ctrl_c, &mcp), ChatAction::Continue);
    assert_eq!(state.ui.input.value, "");
    assert_eq!(state.handle_event(&ctrl_c, &mcp), ChatAction::Exit);
    assert!(completed_session(state.history, &state.ui).unwrap().is_none());
}

// ---------- Commands ----------

#[test]
fn command_dispatch_distinguishes_prompts_and_commands() {
    let mut ui = Ui::new("test-model".into(), None);
    let mut history: Vec<()> = Vec::new();
    let mcp = McpHost::new();

    assert_eq!(
        handle_command("hello", &mut ui, &mut history, &mcp),
        CommandAction::Prompt
    );
    assert_eq!(
        handle_command("/mcp", &mut ui, &mut history, &mcp),
        CommandAction::Handled
    );
    assert_eq!(
        handle_command("/exit", &mut ui, &mut history, &mcp),
        CommandAction::Exit
    );
}

fn last(ui: &Ui) -> String {
    match ui.messages.last().expect("a message") {
        Message::Assistant { text, .. } => format!("answer {text}"),
        Message::Info(text) => format!("info {text}"),
        Message::Error(text) => format!("error {text}"),
        _ => panic!("expected an answer or a notice"),
    }
}

#[test]
fn commands_are_carried_out() {
    let mut state = chat();
    let mcp = McpHost::new();
    let mut run = |state: &mut ChatState<&'static str>, command: &str| {
        state.ui.insert_input(command);
        state.handle_event(&TerminalEvent::Key(key(KeyName::Enter)), &mcp)
    };
    assert_eq!(run(&mut state, " /copy "), ChatAction::Continue);
    assert_eq!(last(&state.ui), "error Nothing to copy yet.");
    assert_eq!(run(&mut state, "/export"), ChatAction::Continue);
    assert_eq!(last(&state.ui), "error Nothing to export yet.");
    assert_eq!(run(&mut state, "/nope x"), ChatAction::Continue);
    assert_eq!(
        last(&state.ui),
        "error Unknown command `/nope x`. Type `/help` for available commands."
    );
    assert_eq!(run(&mut state, "/mcp"), ChatAction::Continue);
    assert_eq!(last(&state.ui), "answer No MCP servers connected.");
    assert_eq!(run(&mut state, "/help"), ChatAction::Continue);
    assert_eq!(last(&state.ui), format!("answer {COMMAND_HELP}"));
    assert_eq!(run(&mut state, "/copy"), ChatAction::CopyAnswer(COMMAND_HELP.into()));
    copied(&mut state.ui, Ok(()));
    assert_eq!(last(&state.ui), "info Copied last assistant response.");
    copied(&mut state.ui, Err("no clipboard".into()));
    assert_eq!(last(&state.ui), "error Clipboard copy failed: no clipboard");
    assert!(matches!(run(&mut state, "/export"), ChatAction::Export(text)
        if text.starts_with("## Assistant (test-model)\n\nNo MCP")));
    exported(&mut state.ui, Ok("thx-export.md".into()));
    assert_eq!(last(&state.ui), "info Exported conversation to thx-export.md.");
    exported(&mut state.ui, Err("full".into()));
    assert_eq!(last(&state.ui), "error Conversation export failed: full");
    state.history.push("kept");
    assert_eq!(run(&mut state, "/quit"), ChatAction::Exit);
    assert_eq!(state.history, ["kept"]);
    assert_eq!(run(&mut state, "/clear"), ChatAction::Continue);
    assert!(state.ui.messages.is_empty() && state.history.is_empty());
    assert_eq!(run(&mut state, "  \n "), ChatAction::Continue);
    assert!(state.ui.messages.is_empty());
}

#[test]
fn common_keys_scroll_where_there_is_one_line() {
    let mut ui = Ui::new("test".into(), None);
    ui.scroll_max = 20;
    assert!(handle_common_key(&mut ui, &key(KeyName::PageUp)));
    assert_eq!((ui.scroll, ui.follow_tail), (12, false));
    assert!(handle_common_key(&mut ui, &key(KeyName::Up)));
    assert_eq!(ui.scroll, 11);
    assert!(handle_common_key(&mut ui, &key(KeyName::Down)));
    assert!(handle_common_key(&mut ui, &key(KeyName::PageDown)));
    assert_eq!((ui.scroll, ui.follow_tail), (20, true));
    assert!(!handle_common_key(&mut ui, &key(KeyName::Enter)));
    assert!(handle_common_key(&mut ui, &shift(KeyName::Char('\r'))));
    assert_eq!(ui.input.value, "\n");
    assert!(!handle_common_key(&mut ui, &key(KeyName::Up)));
    assert_eq!((ui.input.position, ui.scroll), (0, 20));
}

#[test]
fn scrolling_stays_within_its_limits() {
    let mut ui = Ui::new("test".into(), None);
    ui.scroll_up(3);
    assert!(ui.follow_tail);
    ui.scroll_max = 10;
    ui.scroll_up(4);
    assert_eq!(ui.scroll, 6);
    ui.scroll_down(4);
    assert_eq!((ui.scroll, ui.follow_tail), (10, true));
    ui.scroll_up(100);
    assert_eq!(ui.scroll, 0);
    ui.scroll_down(u16::MAX);
    assert_eq!(ui.scroll, 10);
    ui.scroll_up(1);
    ui.follow_tail();
    assert_eq!((ui.scroll, ui.follow_tail), (10, true));
}

#[test]
fn escape_twice_stops_a_turn_but_typing_between_does_not() {
    let mut ui = Ui::new("test".into(), None);
    let mut escape = false;
    let mut press = |ui: &mut Ui, key: Key, escape: &mut bool| {
        handle_busy_event(ui, &TerminalEvent::Key(key), escape)
    };
    assert_eq!(press(&mut ui, key(KeyName::Esc), &mut escape), BusyAction::Continue);
    assert!(escape);
    assert_eq!(press(&mut ui, key(KeyName::Char('x')), &mut escape), BusyAction::Continue);
    assert!(!escape);
    assert_eq!(press(&mut ui, key(KeyName::Esc), &mut escape), BusyAction::Continue);
    assert_eq!(press(&mut ui, key(KeyName::Esc), &mut escape), BusyAction::Stop);
    assert_eq!(press(&mut ui, key(KeyName::Enter), &mut escape), BusyAction::Continue);
    assert_eq!(ui.input.value, "x");
    assert_eq!(press(&mut ui, control('c'), &mut escape), BusyAction::Continue);
    assert_eq!(ui.input.value, "");
    assert_eq!(press(&mut ui, control('c'), &mut escape), BusyAction::Stop);
    let mut other = |event: TerminalEvent| handle_busy_event(&mut ui, &event, &mut escape);
    assert_eq!(other(TerminalEvent::Resize), BusyAction::Resize);
    assert_eq!(other(TerminalEvent::Other), BusyAction::Continue);
    assert_eq!(other(TerminalEvent::Paste("p".into())), BusyAction::Continue);
    assert_eq!(ui.input.value, "p");
}

// ---------- The mouse ----------

#[test]
fn selection_is_order_independent() {
    assert_eq!(selection_bounds((5, 3), (2, 1)), ((2, 1), (5, 3)));
    assert_eq!(selection_bounds((1, 1), (2, 2)), ((1, 1), (2, 2)));
}

fn screen(rows: &[&str]) -> Screen {
    let width = rows[0].chars().count();
    Screen {
        area: Rect { x: 0, y: 0, width: width as u16, height: rows.len() as u16 },
        cells: rows.iter().flat_map(|row| row.chars()).map(|c| c.to_string()).collect(),
    }
}

#[test]
fn selected_text_reads_buffer_region() {
    let screen = screen(&["hello   ", "world   "]);
    assert_eq!(selected_text(&screen, (0, 0), (7, 1)), "hello\nworld");
}

#[test]
fn selections_leave_the_gutter_out() {
    let screen = screen(&["   one  ", "   two  ", "    x   "]);
    assert_eq!(selected_text(&screen, (7, 2), (0, 0)), "one\ntwo\n x");
    assert_eq!(selected_text(&screen, (4, 0), (4, 1)), "ne\ntw");
    assert_eq!(selected_text(&screen, (6, 0), (7, 0)), "");
    assert_eq!(selected_text(&Screen::empty(), (0, 0), (5, 5)), "");
    assert_eq!(selected_text(&screen, (0, 1), (99, 99)), "two\n x");
}

#[test]
fn highlights_cover_the_selection() {
    let area = Rect { x: 1, y: 1, width: 3, height: 3 };
    assert_eq!(
        highlighted(area, (2, 2), (3, 1)),
        [(3, 1), (1, 2), (2, 2)]
    );
    assert_eq!(highlighted(area, (0, 0), (1, 1)), [(1, 1)]);
    assert!(highlighted(Rect::empty(), (0, 0), (9, 9)).is_empty());
}

#[test]
fn the_mouse_selects_scrolls_and_clicks() {
    let mut ui = Ui::new("test".into(), None);
    ui.push(Message::Tools(vec![tool(1, "a", ToolState::Done(Duration::from_millis(1)))]));
    ui.reasoning_delta("r", "body", at(0));
    ui.chat_area = Rect { x: 0, y: 0, width: 10, height: 5 };
    ui.chat_rows = vec![
        None,
        Some(ChatRow::Tool(0)),
        Some(ChatRow::ToolOutput(0)),
        Some(ChatRow::Thinking(1)),
    ];
    let mut click = |ui: &mut Ui, row: u16| {
        assert!(handle_mouse(ui, MouseKind::LeftDown, 2, row).is_none());
        assert!(handle_mouse(ui, MouseKind::LeftUp, 2, row).is_none());
        assert!(ui.selection.is_none());
    };
    let opened = |ui: &Ui| match &ui.messages[0] {
        Message::Tools(tools) => (tools[0].open, tools[0].output_open),
        _ => panic!("expected tools"),
    };
    click(&mut ui, 0);
    assert_eq!(opened(&ui), (false, false));
    click(&mut ui, 1);
    assert_eq!(opened(&ui), (true, false));
    click(&mut ui, 2);
    assert_eq!(opened(&ui), (true, false));
    ui.finish_tool(1, None, Some(json("{\"a\":1}")), Duration::from_millis(1));
    click(&mut ui, 2);
    assert_eq!(opened(&ui), (true, true));
    assert!(matches!(&ui.messages[0], Message::Tools(tools)
        if tools[0].output_preview.as_deref() == Some("{\n  \"a\": 1\n}")));
    click(&mut ui, 3);
    assert!(matches!(&ui.messages[1], Message::Thinking { open: true, .. }));
    ui.chat_scroll = 3;
    click(&mut ui, 0);
    assert!(matches!(&ui.messages[1], Message::Thinking { open: false, .. }));

    ui.screen = screen(&["hello   ", "world   "]);
    handle_mouse(&mut ui, MouseKind::LeftDown, 0, 0);
    handle_mouse(&mut ui, MouseKind::LeftDrag, 4, 0);
    assert_eq!(ui.selection, Some(((0, 0), (4, 0))));
    assert_eq!(handle_mouse(&mut ui, MouseKind::LeftUp, 4, 0).as_deref(), Some("hello"));
    assert!(handle_mouse(&mut ui, MouseKind::LeftUp, 4, 0).is_none());
    handle_mouse(&mut ui, MouseKind::LeftDrag, 4, 0);
    assert!(ui.selection.is_none());

    ui.scroll_max = 9;
    let wheel = TerminalEvent::Mouse { kind: MouseKind::ScrollUp, column: 0, row: 0 };
    assert!(handle_queued_scroll(&mut ui, &wheel));
    assert_eq!(ui.scroll, 6);
    assert!(!handle_queued_scroll(&mut ui, &TerminalEvent::Resize));
    let mut state = chat();
    assert_eq!(state.handle_event(&wheel, &McpHost::new()), ChatAction::DrainScroll);
}

#[test]
fn only_one_output_is_open() {
    let mut ui = Ui::new("test".into(), None);
    for id in 1..=3 {
        ui.add_tool(tool(id, "a", ToolState::Pending));
        ui.finish_tool(id, None, Some(json("1")), Duration::from_millis(1));
        ui.push(Message::Info("between".into()));
    }
    for index in 0..3 {
        assert!(!ui.toggle_tool_output(index));
        assert!(ui.toggle_tool(index));
        assert!(ui.toggle_tool_output(index));
        let open: Vec<bool> = ui
            .messages
            .iter()
            .filter_map(|message| match message {
                Message::Tools(tools) => Some(tools[0].output_open),
                _ => None,
            })
            .collect();
        let expected: Vec<bool> = (0..3).map(|k| k == index).collect();
        assert_eq!(open, expected);
    }
    assert!(ui.toggle_tool_output(2));
    assert!(matches!(&ui.messages[4], Message::Tools(tools) if !tools[0].output_open));
    assert!(!ui.toggle_tool(3));
    assert!(!ui.toggle_thinking(0));
    assert!(!ui.toggle_thinking(99));
}

// ---------- Calls ----------

#[test]
fn tool_events_are_correlated_by_id_and_can_finish_out_of_order() {
    let mut ui = Ui::new("test-model".into(), None);
    let started = at(0);
    let events = vec![
        ToolEvent::Start {
            id: 10,
            label: "server/first".into(),
            args: json(r#"{"path":"/a"}"#),
            started,
        },
        ToolEvent::Start {
            id: 20,
            label: "server/second".into(),
            args: json(r#"{"path":"/b"}"#),
            started,
        },
        ToolEvent::Status { id: 20, status: Some("Building 3/10".into()) },
        ToolEvent::Finish {
            id: 10,
            error: None,
            output: Some(json(r#"{"ok":true}"#)),
            duration: Duration::from_millis(40),
            finished: at(40_000_000),
        },
    ];
    let mut message = None;
    drain_tool_events(&mut ui, &events, &mut message);

    let Message::Tools(tools) = &ui.messages[0] else {
        panic!("expected tool group");
    };
    let first = tools.iter().find(|tool| tool.id == 10).unwrap();
    let second = tools.iter().find(|tool| tool.id == 20).unwrap();
    assert!(matches!(&first.state, ToolState::Done(_)));
    assert!(matches!(&second.state, ToolState::Pending));
    assert_eq!(second.status.as_deref(), Some("Building 3/10"));
    assert!(ui.has_pending_tools());
}

#[test]
fn finishing_one_parallel_tool_does_not_finish_another() {
    let mut ui = Ui::new("test-model".into(), None);
    ui.push(Message::Tools(vec![
        tool(1, "a", ToolState::Pending),
        tool(2, "b", ToolState::Pending),
    ]));
    ui.finish_tool(2, None, Some(json("2")), Duration::from_millis(10));

    let Message::Tools(tools) = &ui.messages[0] else { unreachable!() };
    assert!(matches!(&tools[0].state, ToolState::Pending));
    assert!(matches!(&tools[1].state, ToolState::Done(_)));
}

#[test]
fn cancelling_marks_every_pending_tool() {
    let mut ui = Ui::new("test-model".into(), None);
    ui.push(Message::Tools(vec![
        tool(1, "a", ToolState::Pending),
        tool(2, "b", ToolState::Done(Duration::from_millis(1))),
        tool(3, "c", ToolState::Pending),
    ]));
    ui.fail_pending_tools("cancelled", at(7));

    let Message::Tools(tools) = &ui.messages[0] else { unreachable!() };
    assert!(matches!(&tools[0].state, ToolState::Failed(error, _) if error == "cancelled"));
    assert!(matches!(&tools[1].state, ToolState::Done(_)));
    assert!(matches!(&tools[2].state, ToolState::Failed(error, duration)
        if error == "cancelled" && *duration == Duration { nanos: 7 }));
    assert!(!ui.has_pending_tools());
}

// ---------- Turns ----------

#[test]
fn finalize_stream_requires_final_response() {
    let mut ui = Ui::new("test-model".into(), None);
    let mut message = None;
    assert!(!finalize_stream(false, &mut ui, &Vec::new(), &mut message, at(0)));
    assert!(finalize_stream(true, &mut ui, &Vec::new(), &mut message, at(0)));
    assert_eq!(thx::turn::no_response_message(), "stream ended without a final response");
}

#[test]
fn assistant_delta_builds_one_message() {
    let mut ui = Ui::new("test-model".into(), None);
    let mut index = None;
    ui.assistant_delta(&mut index, "hel");
    ui.assistant_delta(&mut index, "lo");
    assert_eq!(ui.last_assistant(), Some("hello"));
}

fn usage(input: u64, output: u64) -> Usage {
    Usage {
        input_tokens: input,
        output_tokens: output,
        total_tokens: input + output,
        cached_input_tokens: 0,
        cache_creation_input_tokens: 0,
        tool_use_prompt_tokens: 0,
        reasoning_tokens: 0,
    }
}

#[test]
fn run_turn_updates_ui_and_history() {
    let mut ui = Ui::new("test-model".into(), None);
    let mut history: Vec<&str> = Vec::new();
    ui.push(Message::User("hi".into()));
    let start = ui.messages.len();
    let mut turn = Turn::begin(&mut ui, at(0));
    assert_eq!(ui.activity, Some((Phase::Thinking, at(0))));
    let none = || Vec::new();
    let item = |item: StreamItem| TurnEvent::Item { item, reports: Vec::new() };
    assert_eq!(
        turn.step(&mut ui, &TurnEvent::Tick { reports: none() }, at(1)),
        TurnAction::PollAndDraw
    );
    let thought = StreamItem::ReasoningDelta { id: "r".into(), reasoning: "hm".into() };
    assert_eq!(turn.step(&mut ui, &item(thought), at(2_000_000)), TurnAction::Draw);
    let whole = StreamItem::Reasoning {
        id: "r".into(),
        content: vec![ReasoningContent::Summary("**Plan**\nwork".into())],
    };
    turn.step(&mut ui, &item(whole), at(3_000_000));
    turn.step(&mut ui, &item(StreamItem::Text("hel".into())), at(5_000_000));
    assert_eq!(ui.activity, Some((Phase::Responding, at(0))));
    turn.step(&mut ui, &item(StreamItem::Text("lo".into())), at(6_000_000));
    turn.step(&mut ui, &item(StreamItem::Usage { input_tokens: 77 }), at(7));
    assert_eq!(ui.context, 77);
    turn.step(&mut ui, &item(StreamItem::Usage { input_tokens: 0 }), at(7));
    turn.step(&mut ui, &item(StreamItem::Other), at(7));
    assert_eq!(ui.context, 77);
    assert_eq!(turn.step(&mut ui, &TurnEvent::FinalResponse, at(8)), TurnAction::Wait);
    assert_eq!(
        turn.step(&mut ui, &TurnEvent::Ended { reports: none() }, at(9)),
        TurnAction::Finish
    );
    assert_eq!(ui.messages.len(), 3);
    assert!(matches!(&ui.messages[1], Message::Thinking { text: Some(text), duration: Some(d), .. }
        if text == "**Plan**\nwork" && *d == Duration::from_millis(5)));
    assert_eq!(ui.last_assistant(), Some("hello"));
    let done = TurnEnd::Done {
        usage: usage(12, 3),
        last_input: None,
        elapsed: Duration::from_millis(1_500),
    };
    keep_turn(&mut history, Some(vec!["hi", "hello"]));
    assert_eq!(history, ["hi", "hello"]);
    end_turn(&mut ui, start, &done, at(10));
    assert!(ui.activity.is_none());
    assert_eq!(ui.context, 12);
    assert!(matches!(&ui.messages[2], Message::Assistant { metrics: Some(metrics), .. }
        if metrics == "input-total 12 · output-total 3 · ⧖ 1.5s"));
}

#[test]
fn run_turn_surfaces_model_errors() {
    let mut ui = Ui::new("test-model".into(), None);
    let mut turn = Turn::begin(&mut ui, at(0));
    let start_call = ToolEvent::Start {
        id: 1,
        label: "a/b".into(),
        args: Json::Null,
        started: at(4),
    };
    let failed = TurnEvent::Failed { reports: vec![start_call] };
    assert_eq!(turn.step(&mut ui, &failed, at(5)), TurnAction::Fail);
    let end = TurnEnd::Failed { error: "boom".into() };
    end_turn(&mut ui, 0, &end, at(6));
    assert!(matches!(&ui.messages[0], Message::Tools(tools)
        if matches!(&tools[0].state, ToolState::Failed(error, _) if error == "aborted")));
    assert_eq!(last(&ui), "error boom");

    let mut ui = Ui::new("test-model".into(), None);
    let mut turn = Turn::begin(&mut ui, at(0));
    assert_eq!(
        turn.step(&mut ui, &TurnEvent::Ended { reports: Vec::new() }, at(1)),
        TurnAction::FailWithoutResponse
    );
    end_turn(&mut ui, 0, &TurnEnd::Stopped, at(2));
    assert_eq!(last(&ui), "info Stopped current turn.");
    end_turn(&mut ui, 0, &TurnEnd::DrawFailed, at(2));
    assert_eq!(ui.messages.len(), 1);
}

#[test]
fn a_session_is_saved_after_a_turn_that_was_stopped() {
    for (end, duration) in [(TurnEnd::Stopped, 4), (TurnEnd::Failed { error: "boom".into() }, 4)] {
        for command in ["/exit", "/quit"] {
            let mut state = chat();
            let mcp = McpHost::new();
            keep_turn(&mut state.history, Some(vec!["question", "answer"]));
            state.ui.push(Message::User("again".into()));
            let start = state.ui.messages.len();
            let mut turn = Turn::begin(&mut state.ui, at(0));
            let thought = StreamItem::ReasoningDelta { id: "r".into(), reasoning: "hm".into() };
            let event = TurnEvent::Item { item: thought, reports: Vec::new() };
            turn.step(&mut state.ui, &event, at(1_000_000));
            let escape = TerminalEvent::Key(key(KeyName::Esc));
            assert_eq!(
                handle_busy_event(&mut state.ui, &escape, &mut turn.escape),
                BusyAction::Continue
            );
            assert_eq!(
                handle_busy_event(&mut state.ui, &escape, &mut turn.escape),
                BusyAction::Stop
            );
            end_turn(&mut state.ui, start, &end, at(4_000_000));
            state.ui.insert_input(command);
            assert_eq!(
                state.handle_event(&TerminalEvent::Key(key(KeyName::Enter)), &mcp),
                ChatAction::Exit
            );
            let session = completed_session(state.history, &state.ui).unwrap().unwrap();
            assert_eq!(session.history, ["question", "answer"]);
            assert!(matches!(&session.messages[1], SavedMessage::Thinking { duration_ms, .. }
                if *duration_ms == duration));
        }
    }
}

#[test]
fn calls_interrupt_the_answer_and_the_phase() {
    let mut ui = Ui::new("test-model".into(), None);
    let mut turn = Turn::begin(&mut ui, at(0));
    let text = |text: &str| TurnEvent::Item {
        item: StreamItem::Text(text.into()),
        reports: Vec::new(),
    };
    turn.step(&mut ui, &text("before"), at(1));
    let start = ToolEvent::Start { id: 1, label: "a/b".into(), args: json("{}"), started: at(2) };
    turn.step(&mut ui, &TurnEvent::Tick { reports: vec![start] }, at(3));
    assert_eq!(ui.activity, Some((Phase::Working, at(0))));
    assert_eq!(turn.message, None);
    let finish = ToolEvent::Finish {
        id: 1,
        error: None,
        output: None,
        duration: Duration { nanos: 2 },
        finished: at(4),
    };
    turn.step(&mut ui, &TurnEvent::Tick { reports: vec![finish] }, at(5));
    assert_eq!(ui.activity, Some((Phase::Thinking, at(0))));
    assert_eq!(ui.thinking_since, Some(at(4)));
    turn.step(&mut ui, &text("after"), at(6));
    let texts: Vec<&str> = ui
        .messages
        .iter()
        .filter_map(|message| match message {
            Message::Assistant { text, .. } => Some(text.as_str()),
            _ => None,
        })
        .collect();
    assert_eq!(texts, ["before", "after"]);
}

#[test]
fn a_new_reasoning_ends_the_one_before() {
    let mut ui = Ui::new("test-model".into(), None);
    ui.begin(at(1_000_000));
    ui.reasoning_delta("a", "", at(2_000_000));
    assert!(ui.messages.is_empty());
    ui.reasoning_delta("a", "one", at(2_000_000));
    ui.reasoning_delta("b", "two", at(9_000_000));
    ui.reasoning_delta("b", " more", at(10_000_000));
    assert!(matches!(&ui.messages[0], Message::Thinking { started: Some(s), duration: Some(d), .. }
        if *s == at(1_000_000) && *d == Duration::from_millis(8)));
    assert!(matches!(&ui.messages[1], Message::Thinking { started: Some(s), text: Some(text), .. }
        if *s == at(9_000_000) && text == "two more"));
}

#[test]
fn context_title_uses_configured_window() {
    let mut ui = Ui::new("test-model".into(), Some(400_000));
    ui.context = 100_000;
    assert_eq!(ui.context_title(), "ctx 100.0K (25%)");
}

#[test]
fn context_title_without_window_omits_percentage() {
    let mut ui = Ui::new("test-model".into(), None);
    ui.context = 100_000;
    assert_eq!(ui.context_title(), "ctx 100k");
}

// ---------- Transcripts ----------

#[test]
fn transcript_contains_user_assistant_and_tools() {
    let mut ui = Ui::new("test-model".into(), None);
    ui.push(Message::User("question".into()));
    ui.assistant("answer");
    let mut view = tool(1, "read", ToolState::Done(Duration::from_millis(2)));
    view.args = json(r#"{"path":"/tmp/a"}"#);
    view.output = Some(json(r#"{"text":"ok"}"#));
    ui.push(Message::Tools(vec![view]));

    let text = ui.transcript().unwrap();
    assert!(text.contains("## User\n\nquestion"));
    assert!(text.contains("## Assistant (test-model)\n\nanswer"));
    assert!(text.contains("**Tool: server/read**"));
    assert!(text.contains("/tmp/a"));
    assert!(text.contains("bounded UI projection, not an exact model-request trace"));
}

#[test]
fn notices_are_left_out_of_transcripts() {
    let mut ui = Ui::new("m".into(), None);
    assert_eq!(ui.transcript(), None);
    ui.push(Message::Info("note".into()));
    assert_eq!(ui.transcript(), None);
    ui.push(Message::User("q".into()));
    ui.push(Message::Error("oops".into()));
    ui.assistant("");
    ui.push(Message::Assistant { text: "a".into(), metrics: Some("1s".into()) });
    ui.reasoning_delta("r", "hm", at(0));
    ui.finish_thinking_at(at(2_000_000_000));
    let mut failed = tool(1, "x", ToolState::Failed("why".into(), Duration { nanos: 0 }));
    failed.args = json("[]");
    ui.push(Message::Tools(vec![failed, tool(2, "y", ToolState::Pending)]));
    assert_eq!(
        ui.transcript().unwrap(),
        "## User\n\nq\n\n---\n\n## Assistant (m · 1s)\n\na\n\n---\n\n## Assistant Thinking (2.0s)\n\nhm\n\n---\n\n**Tool: server/x**\n\n**Input:**\n```json\n[]\n```\n\n**Error:**\n```text\nwhy\n```\n\n**Tool: server/y**\n\n**Input:**\n```json\n{}\n```"
    );
}
