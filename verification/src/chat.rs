//! What the user does: commands, keys and the mouse.
use vstd::prelude::*;
use vstd::string::*;
use crate::clock::{Duration, Instant};
use crate::config;
use crate::count::Usage;
use crate::detail;
use crate::host;
use crate::host::{HostModel, McpHost};
use crate::input;
use crate::input::{InputModel, Key, KeyName};
use crate::json;
use crate::message;
use crate::message::{Message, MessageModel};
use crate::rows;
use crate::scene;
use crate::screen::{selected_text, Rect, ScreenModel};
use crate::session::ChatState;
use crate::text;
use crate::text::{blank, has_prefix, same_text, trimmed};
use crate::thinking;
use crate::transcript;
use crate::turn;
use crate::turn::{Turn, TurnEvent};
use crate::ui;
use crate::ui::{ChatRow, Ui, UiModel};

verus! {

/// The help on commands and keys.
pub const COMMAND_HELP: &'static str = "\
## Commands

| Command | Action |
| --- | --- |
| `/copy` | copy the latest assistant response |
| `/export` | save the conversation as Markdown |
| `/clear` | clear the conversation |
| `/help` | show this help |
| `/mcp` | show MCP servers/tools |
| `/exit` `/quit` | save the session and exit |

## Keys

| Key | Action |
| --- | --- |
| `Enter` | send |
| `Shift+Enter` | new line |
| `▸` | toggle its details |
| `drag` | copy selection |
| `↑/↓` | scroll |
| `Esc Esc` | stop the current turn |
| `Ctrl+C` | clear input, or exit when empty";

// ---------- Commands ----------

/// What follows from a command.
#[derive(Debug, PartialEq, Eq)]
pub enum CommandAction {
    /// It is none, but a prompt.
    Prompt,
    /// Nothing more.
    Handled,
    /// The end of the chat.
    Exit,
    /// A text is to be copied to the clipboard.
    Copy(String),
    /// A text is to be exported.
    Export(String),
}

/// What a `CommandAction` holds.
pub enum ActionModel {
    Prompt,
    Handled,
    Exit,
    Copy(Seq<char>),
    Export(Seq<char>),
}

impl View for CommandAction {
    type V = ActionModel;

    open spec fn view(&self) -> ActionModel {
        match self {
            CommandAction::Prompt => ActionModel::Prompt,
            CommandAction::Handled => ActionModel::Handled,
            CommandAction::Exit => ActionModel::Exit,
            CommandAction::Copy(text) => ActionModel::Copy(text@),
            CommandAction::Export(text) => ActionModel::Export(text@),
        }
    }
}

/// A command.
pub enum Command {
    Exit,
    Clear,
    Help,
    Mcp,
    Copy,
    Export,
    Unknown,
    Prompt,
}

/// The command that `text` is: words behind a slash are commands, all else is a prompt.
pub open spec fn command_in(text: Seq<char>) -> Command {
    if text == "/exit"@ || text == "/quit"@ {
        Command::Exit
    } else if text == "/clear"@ {
        Command::Clear
    } else if text == "/help"@ {
        Command::Help
    } else if text == "/mcp"@ {
        Command::Mcp
    } else if text == "/copy"@ {
        Command::Copy
    } else if text == "/export"@ {
        Command::Export
    } else if text::starts(text, "/"@) {
        Command::Unknown
    } else {
        Command::Prompt
    }
}

/// A message of the assistant without metrics.
pub open spec fn answer(text: Seq<char>) -> MessageModel {
    MessageModel::Assistant { text, metrics: None }
}

/// The user interface after a command.
pub open spec fn ui_after_command(ui: UiModel, text: Seq<char>, host: HostModel) -> UiModel {
    match command_in(text) {
        Command::Exit => ui,
        Command::Clear => UiModel {
            messages: Seq::empty(),
            activity: None,
            thinking_since: None,
            ..ui
        },
        Command::Help => ui.pushed(answer(COMMAND_HELP@)),
        Command::Mcp => ui.pushed(answer(host::host_summary(host))),
        Command::Copy => if ui.last_text() is Some {
            ui
        } else {
            ui.pushed(MessageModel::Error("Nothing to copy yet."@))
        },
        Command::Export => if transcript::transcript_of(ui) is Some {
            ui
        } else {
            ui.pushed(MessageModel::Error("Nothing to export yet."@))
        },
        Command::Unknown => ui.pushed(
            MessageModel::Error(
                "Unknown command `"@ + text + "`. Type `/help` for available commands."@,
            ),
        ),
        Command::Prompt => ui,
    }
}

/// What follows from a command.
pub open spec fn action_of_command(ui: UiModel, text: Seq<char>) -> ActionModel {
    match command_in(text) {
        Command::Exit => ActionModel::Exit,
        Command::Copy => match ui.last_text() {
            Some(answer) => ActionModel::Copy(answer),
            None => ActionModel::Handled,
        },
        Command::Export => match transcript::transcript_of(ui) {
            Some(transcript) => ActionModel::Export(transcript),
            None => ActionModel::Handled,
        },
        Command::Prompt => ActionModel::Prompt,
        _ => ActionModel::Handled,
    }
}

/// Handles a command. What is to be copied or exported is given out; `copied` and `exported`
/// take in how that went.
pub fn handle_command<H>(
    command: &str,
    ui: &mut Ui,
    history: &mut Vec<H>,
    mcp: &McpHost,
) -> (r: CommandAction)
    ensures
        r@ == action_of_command(old(ui)@, command@),
        final(ui)@ == ui_after_command(old(ui)@, command@, mcp@),
        command_in(command@) == Command::Clear ==> final(history)@.len() == 0,
        command_in(command@) != Command::Clear ==> final(history)@ == old(history)@,
{
    if same_text(command, "/exit") || same_text(command, "/quit") {
        CommandAction::Exit
    } else if same_text(command, "/clear") {
        ui.messages = Vec::new();
        assert(message::message_models(ui.messages@) =~= Seq::empty());
        history.clear();
        ui.activity = None;
        ui.thinking_since = None;
        CommandAction::Handled
    } else if same_text(command, "/help") {
        ui.assistant(COMMAND_HELP);
        CommandAction::Handled
    } else if same_text(command, "/mcp") {
        let summary = mcp.summary();
        ui.assistant(summary.as_str());
        CommandAction::Handled
    } else if same_text(command, "/copy") {
        let text = match ui.last_assistant() {
            Some(text) => Some(text.to_owned()),
            None => None,
        };
        match text {
            Some(text) => CommandAction::Copy(text),
            None => {
                ui.push(Message::Error("Nothing to copy yet.".to_owned()));
                CommandAction::Handled
            },
        }
    } else if same_text(command, "/export") {
        match ui.transcript() {
            Some(text) => CommandAction::Export(text),
            None => {
                ui.push(Message::Error("Nothing to export yet.".to_owned()));
                CommandAction::Handled
            },
        }
    } else if has_prefix(command, "/") {
        let mut error = "Unknown command `".to_owned();
        error.append(command);
        error.append("`. Type `/help` for available commands.");
        ui.push(Message::Error(error));
        CommandAction::Handled
    } else {
        CommandAction::Prompt
    }
}

/// What the user is told of a copy.
pub open spec fn copy_notice(result: Result<(), Seq<char>>) -> MessageModel {
    match result {
        Ok(()) => MessageModel::Info("Copied last assistant response."@),
        Err(error) => MessageModel::Error("Clipboard copy failed: "@ + error),
    }
}

/// Tells the user how a copy went.
pub fn copied(ui: &mut Ui, result: Result<(), String>)
    ensures
        final(ui)@ == old(ui)@.pushed(
            copy_notice(
                match result {
                    Ok(()) => Ok(()),
                    Err(error) => Err(error@),
                },
            ),
        ),
{
    match result {
        Ok(()) => {
            ui.push(Message::Info("Copied last assistant response.".to_owned()));
        },
        Err(error) => {
            let mut text = "Clipboard copy failed: ".to_owned();
            text.append(error.as_str());
            ui.push(Message::Error(text));
        },
    }
}

/// What the user is told of an export to the file `result`.
pub open spec fn export_notice(result: Result<Seq<char>, Seq<char>>) -> MessageModel {
    match result {
        Ok(file) => MessageModel::Info("Exported conversation to "@ + file + "."@),
        Err(error) => MessageModel::Error("Conversation export failed: "@ + error),
    }
}

/// Tells the user how an export went.
pub fn exported(ui: &mut Ui, result: Result<String, String>)
    ensures
        final(ui)@ == old(ui)@.pushed(export_notice(config::text_result(result))),
{
    match result {
        Ok(file) => {
            let mut text = "Exported conversation to ".to_owned();
            text.append(file.as_str());
            text.append(".");
            ui.push(Message::Info(text));
        },
        Err(error) => {
            let mut text = "Conversation export failed: ".to_owned();
            text.append(error.as_str());
            ui.push(Message::Error(text));
        },
    }
}

/// Handles Control and `c`: clears the input, or ends the chat where there is none.
pub fn handle_ctrl_c(ui: &mut Ui) -> (r: CommandAction)
    ensures
        r@ == (if old(ui)@.input.value.len() == 0 {
            ActionModel::Exit
        } else {
            ActionModel::Handled
        }),
        final(ui)@ == (if old(ui)@.input.value.len() == 0 {
            old(ui)@
        } else {
            old(ui)@.with_input(InputModel::empty())
        }),
{
    if ui.input.value.as_str().unicode_len() == 0 {
        CommandAction::Exit
    } else {
        ui.clear_input();
        CommandAction::Handled
    }
}

// ---------- Keys ----------

/// Shift and Enter, or a line break typed with Shift.
pub open spec fn is_line_break(key: Key) -> bool {
    key.shift && (key.code == KeyName::Enter || key.code == KeyName::Char('\n') || key.code
        == KeyName::Char('\r'))
}

/// The key is done with once it has moved the cursor, scrolled or broken the line; up and
/// down go on to the editor where they have moved the cursor.
pub open spec fn is_common_key(ui: UiModel, key: Key) -> bool {
    match key.code {
        KeyName::Up => !ui.input.value.contains('\n'),
        KeyName::Down => !ui.input.value.contains('\n'),
        KeyName::PageUp => true,
        KeyName::PageDown => true,
        _ => is_line_break(key),
    }
}

/// The user interface after a key that moves the cursor between lines, scrolls, or breaks
/// the line.
pub open spec fn after_common_key(ui: UiModel, key: Key) -> UiModel {
    match key.code {
        KeyName::Up => if ui.input.value.contains('\n') {
            ui.with_input(ui.input.moved_vertically(false))
        } else {
            ui.scrolled_up(1)
        },
        KeyName::Down => if ui.input.value.contains('\n') {
            ui.with_input(ui.input.moved_vertically(true))
        } else {
            ui.scrolled_down(1)
        },
        KeyName::PageUp => ui.scrolled_up(8),
        KeyName::PageDown => ui.scrolled_down(8),
        _ => if is_line_break(key) {
            ui.with_input(ui.input.inserted("\n"@))
        } else {
            ui
        },
    }
}

/// The key can be handled by the input.
pub open spec fn takes_key(ui: UiModel, key: Key) -> bool {
    &&& key.code == KeyName::Up || key.code == KeyName::Down ==> ui.input.can_move()
    &&& ui.input.takes(key)
}

/// Handles a key that moves the cursor between lines, scrolls, or breaks the line, and tells
/// whether the key is done with.
pub fn handle_common_key(ui: &mut Ui, key: &Key) -> (r: bool)
    requires
        key.code == KeyName::Up || key.code == KeyName::Down ==> old(ui)@.input.can_move(),
    ensures
        r == is_common_key(old(ui)@, *key),
        final(ui)@ == after_common_key(old(ui)@, *key),
{
    match key.code {
        KeyName::Up => {
            if ui.move_input_vertical(false) {
                return false;
            }
            ui.scroll_up(1);
            true
        },
        KeyName::Down => {
            if ui.move_input_vertical(true) {
                return false;
            }
            ui.scroll_down(1);
            true
        },
        KeyName::PageUp => {
            ui.scroll_up(8);
            true
        },
        KeyName::PageDown => {
            ui.scroll_down(8);
            true
        },
        _ => {
            let breaks = match key.code {
                KeyName::Enter => true,
                KeyName::Char(c) => c == '\n' || c == '\r',
                _ => false,
            };
            if breaks && key.shift {
                ui.insert_input("\n");
                true
            } else {
                false
            }
        },
    }
}

// ---------- The mouse ----------

/// What the mouse does.
#[derive(Debug, Clone, Copy, PartialEq, Eq, Structural)]
pub enum MouseKind {
    ScrollUp,
    ScrollDown,
    LeftDown,
    LeftDrag,
    LeftUp,
    Other,
}

/// The user interface after a click on the row of the chat at a position.
pub open spec fn clicked(ui: UiModel, column: u16, row: u16) -> UiModel {
    match ui.row_at(column, row) {
        Some(ChatRow::Thinking(index)) => ui.thinking_toggled(index as nat),
        Some(ChatRow::Tool(index)) => ui.tool_toggled(index as nat),
        Some(ChatRow::ToolOutput(index)) => ui.output_toggled(index as nat),
        None => ui,
    }
}

/// The user interface after what the mouse does: it scrolls, it selects, and it opens and
/// closes what is clicked.
pub open spec fn after_mouse(ui: UiModel, kind: MouseKind, column: u16, row: u16) -> UiModel {
    match kind {
        MouseKind::ScrollUp => ui.scrolled_up(3),
        MouseKind::ScrollDown => ui.scrolled_down(3),
        MouseKind::LeftDown => UiModel { selection: Some(((column, row), (column, row))), ..ui },
        MouseKind::LeftDrag => match ui.selection {
            Some((start, end)) => UiModel { selection: Some((start, (column, row))), ..ui },
            None => ui,
        },
        MouseKind::LeftUp => match ui.selection {
            Some((start, end)) => {
                let free = UiModel { selection: None, ..ui };
                if start == end {
                    clicked(free, column, row)
                } else {
                    free
                }
            },
            None => ui,
        },
        MouseKind::Other => ui,
    }
}

/// The text to copy after what the mouse does: what is selected, where something is.
pub open spec fn copied_by_mouse(ui: UiModel, kind: MouseKind) -> Option<Seq<char>> {
    match (kind, ui.selection) {
        (MouseKind::LeftUp, Some((start, end))) => {
            let text = ui.screen.selected(start, end);
            if start != end && text.len() > 0 {
                Some(text)
            } else {
                None
            }
        },
        _ => None,
    }
}

/// Handles what the mouse does, and gives out the text to copy, if any.
pub fn handle_mouse(ui: &mut Ui, kind: MouseKind, column: u16, row: u16) -> (r: Option<String>)
    ensures
        thinking::optional(r) == copied_by_mouse(old(ui)@, kind),
        final(ui)@ == after_mouse(old(ui)@, kind, column, row),
{
    match kind {
        MouseKind::ScrollUp => {
            ui.scroll_up(3);
            None
        },
        MouseKind::ScrollDown => {
            ui.scroll_down(3);
            None
        },
        MouseKind::LeftDown => {
            ui.selection = Some(((column, row), (column, row)));
            None
        },
        MouseKind::LeftDrag => {
            if let Some((start, _)) = ui.selection {
                ui.selection = Some((start, (column, row)));
            }
            None
        },
        MouseKind::LeftUp => {
            if let Some((start, end)) = ui.selection {
                ui.selection = None;
                if start.0 == end.0 && start.1 == end.1 {
                    match ui.chat_row_at(column, row) {
                        Some(ChatRow::Thinking(index)) => {
                            ui.toggle_thinking(index);
                        },
                        Some(ChatRow::Tool(index)) => {
                            ui.toggle_tool(index);
                        },
                        Some(ChatRow::ToolOutput(index)) => {
                            ui.toggle_tool_output(index);
                        },
                        None => {},
                    }
                    None
                } else {
                    let text = selected_text(&ui.screen, start, end);
                    if text.as_str().unicode_len() > 0 {
                        Some(text)
                    } else {
                        None
                    }
                }
            } else {
                None
            }
        },
        MouseKind::Other => None,
    }
}

// ---------- Events ----------

/// What happens at the terminal.
#[derive(Debug)]
pub enum TerminalEvent {
    Paste(String),
    /// A key is pressed.
    Key(Key),
    Mouse { kind: MouseKind, column: u16, row: u16 },
    Resize,
    Other,
}

/// The event scrolls by the mouse.
pub open spec fn is_scroll(event: TerminalEvent) -> bool {
    event matches TerminalEvent::Mouse { kind, column, row } && (kind == MouseKind::ScrollUp || kind
        == MouseKind::ScrollDown)
}

/// Handles an event that is queued behind another if it scrolls by the mouse too, and tells
/// whether it does; any other stays for later.
pub fn handle_queued_scroll(ui: &mut Ui, event: &TerminalEvent) -> (r: bool)
    ensures
        r == is_scroll(*event),
        final(ui)@ == (match *event {
            TerminalEvent::Mouse { kind, column, row } => if is_scroll(*event) {
                after_mouse(old(ui)@, kind, column, row)
            } else {
                old(ui)@
            },
            _ => old(ui)@,
        }),
{
    match event {
        TerminalEvent::Mouse { kind, column, row } => match kind {
            MouseKind::ScrollUp => {
                handle_mouse(ui, *kind, *column, *row);
                true
            },
            MouseKind::ScrollDown => {
                handle_mouse(ui, *kind, *column, *row);
                true
            },
            _ => false,
        },
        _ => false,
    }
}

// ---------- During a turn ----------

/// The most events that are handled at a time during a turn.
pub const MAX_BUSY_EVENTS: usize = 64;

/// What follows from an event during a turn.
#[derive(Debug, PartialEq, Eq)]
pub enum BusyAction {
    Continue,
    /// The turn is to be stopped.
    Stop,
    /// A text is to be copied to the clipboard.
    Copy(String),
    /// The terminal has another size.
    Resize,
}

/// What a `BusyAction` holds.
pub enum BusyModel {
    Continue,
    Stop,
    Copy(Seq<char>),
    Resize,
}

impl View for BusyAction {
    type V = BusyModel;

    open spec fn view(&self) -> BusyModel {
        match self {
            BusyAction::Continue => BusyModel::Continue,
            BusyAction::Stop => BusyModel::Stop,
            BusyAction::Copy(text) => BusyModel::Copy(text@),
            BusyAction::Resize => BusyModel::Resize,
        }
    }
}

/// Control and `c`.
pub open spec fn is_ctrl_c(key: Key) -> bool {
    key.code == KeyName::Char('c') && key.control
}

/// The user interface after a key press during a turn.
pub open spec fn after_busy_key(ui: UiModel, key: Key) -> UiModel {
    if key.code == KeyName::Enter || key.code == KeyName::Esc {
        ui
    } else if is_ctrl_c(key) {
        if ui.input.value.len() == 0 {
            ui
        } else {
            ui.with_input(InputModel::empty())
        }
    } else {
        let common = after_common_key(ui, key);
        if is_common_key(ui, key) {
            common
        } else {
            common.with_input(common.input.edited(key))
        }
    }
}

/// A key press stops the turn: Escape for the second time in a row, or Control and `c` where
/// nothing is typed.
pub open spec fn stops_turn(ui: UiModel, key: Key, escape: bool) -> bool {
    (key.code == KeyName::Esc && escape) || (is_ctrl_c(key) && ui.input.value.len() == 0)
}

/// The user interface after an event during a turn.
pub open spec fn after_busy_event(ui: UiModel, event: TerminalEvent) -> UiModel {
    match event {
        TerminalEvent::Paste(text) => ui.with_input(ui.input.inserted(text@)),
        TerminalEvent::Key(key) => after_busy_key(ui, key),
        TerminalEvent::Mouse { kind, column, row } => after_mouse(ui, kind, column, row),
        TerminalEvent::Resize => ui,
        TerminalEvent::Other => ui,
    }
}

/// Whether Escape was the last key, after an event during a turn.
pub open spec fn escape_after(event: TerminalEvent, escape: bool) -> bool {
    match event {
        TerminalEvent::Key(key) => key.code == KeyName::Esc,
        _ => escape,
    }
}

/// What follows from an event during a turn.
pub open spec fn busy_action(ui: UiModel, event: TerminalEvent, escape: bool) -> BusyModel {
    match event {
        TerminalEvent::Paste(text) => BusyModel::Continue,
        TerminalEvent::Key(key) => if stops_turn(ui, key, escape) {
            BusyModel::Stop
        } else {
            BusyModel::Continue
        },
        TerminalEvent::Mouse { kind, column, row } => match copied_by_mouse(ui, kind) {
            Some(text) => BusyModel::Copy(text),
            None => BusyModel::Continue,
        },
        TerminalEvent::Resize => BusyModel::Resize,
        TerminalEvent::Other => BusyModel::Continue,
    }
}

/// Moving the cursor between lines, scrolling and breaking lines keep what the editor needs
/// for the key.
proof fn lemma_still_takes(ui: UiModel, key: Key)
    requires
        takes_key(ui, key),
        !is_common_key(ui, key),
    ensures
        after_common_key(ui, key).input.takes(key),
{
}

/// Handles an event during a turn.
pub fn handle_busy_event(ui: &mut Ui, event: &TerminalEvent, escape: &mut bool) -> (r: BusyAction)
    requires
        *event matches TerminalEvent::Key(key) ==> takes_key(old(ui)@, key),
    ensures
        r@ == busy_action(old(ui)@, *event, *old(escape)),
        final(ui)@ == after_busy_event(old(ui)@, *event),
        *final(escape) == escape_after(*event, *old(escape)),
{
    match event {
        TerminalEvent::Paste(text) => {
            ui.insert_input(text.as_str());
            BusyAction::Continue
        },
        TerminalEvent::Key(key) => {
            let before = *escape;
            *escape = false;
            match key.code {
                KeyName::Enter => BusyAction::Continue,
                KeyName::Esc => {
                    *escape = true;
                    if before {
                        BusyAction::Stop
                    } else {
                        BusyAction::Continue
                    }
                },
                _ => {
                    let interrupt = match key.code {
                        KeyName::Char(c) => c == 'c' && key.control,
                        _ => false,
                    };
                    if interrupt {
                        if ui.input.value.as_str().unicode_len() == 0 {
                            return BusyAction::Stop;
                        }
                        ui.clear_input();
                        return BusyAction::Continue;
                    }
                    proof {
                        if !is_common_key(ui@, *key) {
                            lemma_still_takes(ui@, *key);
                        }
                    }
                    if !handle_common_key(ui, key) {
                        ui.input.handle_key_event(key);
                    }
                    BusyAction::Continue
                },
            }
        },
        TerminalEvent::Mouse { kind, column, row } => match handle_mouse(ui, *kind, *column, *row) {
            Some(text) => BusyAction::Copy(text),
            None => BusyAction::Continue,
        },
        TerminalEvent::Resize => BusyAction::Resize,
        TerminalEvent::Other => BusyAction::Continue,
    }
}

// ---------- Between turns ----------

/// What follows from an event between turns.
#[derive(Debug, PartialEq, Eq)]
pub enum ChatAction {
    Continue,
    /// The chat has ended.
    Exit,
    /// A text that the mouse has selected is to be copied to the clipboard.
    CopySelection(String),
    /// The last answer is to be copied to the clipboard.
    CopyAnswer(String),
    /// The transcript is to be exported.
    Export(String),
    /// Events that scroll too are to be handled before the next drawing.
    DrainScroll,
    /// The terminal has another size.
    Resize,
    /// A turn is to be run with the prompt.
    Prompt(String),
}

/// What a `ChatAction` holds.
pub enum ChatActionModel {
    Continue,
    Exit,
    CopySelection(Seq<char>),
    CopyAnswer(Seq<char>),
    Export(Seq<char>),
    DrainScroll,
    Resize,
    Prompt(Seq<char>),
}

impl View for ChatAction {
    type V = ChatActionModel;

    open spec fn view(&self) -> ChatActionModel {
        match self {
            ChatAction::Continue => ChatActionModel::Continue,
            ChatAction::Exit => ChatActionModel::Exit,
            ChatAction::CopySelection(text) => ChatActionModel::CopySelection(text@),
            ChatAction::CopyAnswer(text) => ChatActionModel::CopyAnswer(text@),
            ChatAction::Export(text) => ChatActionModel::Export(text@),
            ChatAction::DrainScroll => ChatActionModel::DrainScroll,
            ChatAction::Resize => ChatActionModel::Resize,
            ChatAction::Prompt(text) => ChatActionModel::Prompt(text@),
        }
    }
}

/// The key submits what is typed: Enter, where more than white space is.
pub open spec fn submits(ui: UiModel, key: Key) -> bool {
    key.code == KeyName::Enter && !text::is_blank(ui.input.value) && !is_common_key(ui, key)
}

/// The user interface once what is typed is taken, at the tail.
pub open spec fn taken(ui: UiModel) -> UiModel {
    ui.with_input(InputModel::empty()).at_tail()
}

/// The user interface after what is typed is submitted: a command is carried out, a prompt
/// becomes a message of the user.
pub open spec fn after_submission(ui: UiModel, host: HostModel) -> UiModel {
    let command = text::trim(ui.input.value);
    let done = ui_after_command(taken(ui), command, host);
    if command_in(command) == Command::Prompt {
        done.pushed(MessageModel::User(ui.input.value))
    } else {
        done
    }
}

/// What follows from a submission.
pub open spec fn submission_action(ui: UiModel) -> ChatActionModel {
    match action_of_command(taken(ui), text::trim(ui.input.value)) {
        ActionModel::Exit => ChatActionModel::Exit,
        ActionModel::Handled => ChatActionModel::Continue,
        ActionModel::Copy(text) => ChatActionModel::CopyAnswer(text),
        ActionModel::Export(text) => ChatActionModel::Export(text),
        ActionModel::Prompt => ChatActionModel::Prompt(ui.input.value),
    }
}

/// The user interface after a key press between turns.
pub open spec fn after_chat_key(ui: UiModel, key: Key, host: HostModel) -> UiModel {
    if key.code == KeyName::Esc {
        ui
    } else if is_ctrl_c(key) {
        if ui.input.value.len() == 0 {
            ui
        } else {
            ui.with_input(InputModel::empty())
        }
    } else if submits(ui, key) {
        after_submission(ui, host)
    } else {
        let common = after_common_key(ui, key);
        if is_common_key(ui, key) {
            common
        } else {
            common.with_input(common.input.edited(key))
        }
    }
}

/// The user interface after an event between turns.
pub open spec fn after_chat_event(ui: UiModel, event: TerminalEvent, host: HostModel) -> UiModel {
    match event {
        TerminalEvent::Paste(text) => ui.with_input(ui.input.inserted(text@)),
        TerminalEvent::Key(key) => after_chat_key(ui, key, host),
        TerminalEvent::Mouse { kind, column, row } => after_mouse(ui, kind, column, row),
        TerminalEvent::Resize => ui,
        TerminalEvent::Other => ui,
    }
}

/// What follows from an event between turns.
pub open spec fn chat_action(ui: UiModel, event: TerminalEvent) -> ChatActionModel {
    match event {
        TerminalEvent::Paste(text) => ChatActionModel::Continue,
        TerminalEvent::Key(key) => if is_ctrl_c(key) {
            if ui.input.value.len() == 0 {
                ChatActionModel::Exit
            } else {
                ChatActionModel::Continue
            }
        } else if submits(ui, key) {
            submission_action(ui)
        } else {
            ChatActionModel::Continue
        },
        TerminalEvent::Mouse { kind, column, row } => if is_scroll(event) {
            ChatActionModel::DrainScroll
        } else {
            match copied_by_mouse(ui, kind) {
                Some(text) => ChatActionModel::CopySelection(text),
                None => ChatActionModel::Continue,
            }
        },
        TerminalEvent::Resize => ChatActionModel::Resize,
        TerminalEvent::Other => ChatActionModel::Continue,
    }
}

/// The event clears the conversation.
pub open spec fn clears(ui: UiModel, event: TerminalEvent) -> bool {
    event matches TerminalEvent::Key(key) && submits(ui, key) && !is_ctrl_c(key) && command_in(
        text::trim(ui.input.value),
    ) == Command::Clear
}

impl<H> ChatState<H> {
    /// Handles an event between turns.
    pub fn handle_event(&mut self, event: &TerminalEvent, mcp: &McpHost) -> (r: ChatAction)
        requires
            *event matches TerminalEvent::Key(key) ==> takes_key(old(self).ui@, key),
        ensures
            r@ == chat_action(old(self).ui@, *event),
            final(self).ui@ == after_chat_event(old(self).ui@, *event, mcp@),
            clears(old(self).ui@, *event) ==> final(self).history@.len() == 0,
            !clears(old(self).ui@, *event) ==> final(self).history@ == old(self).history@,
    {
        match event {
            TerminalEvent::Paste(text) => {
                self.ui.insert_input(text.as_str());
                ChatAction::Continue
            },
            TerminalEvent::Key(key) => self.handle_key(key, mcp),
            TerminalEvent::Mouse { kind, column, row } => {
                let text = handle_mouse(&mut self.ui, *kind, *column, *row);
                match kind {
                    MouseKind::ScrollUp => ChatAction::DrainScroll,
                    MouseKind::ScrollDown => ChatAction::DrainScroll,
                    _ => match text {
                        Some(text) => ChatAction::CopySelection(text),
                        None => ChatAction::Continue,
                    },
                }
            },
            TerminalEvent::Resize => ChatAction::Resize,
            TerminalEvent::Other => ChatAction::Continue,
        }
    }

    /// Handles a key press between turns.
    fn handle_key(&mut self, key: &Key, mcp: &McpHost) -> (r: ChatAction)
        requires
            takes_key(old(self).ui@, *key),
        ensures
            r@ == chat_action(old(self).ui@, TerminalEvent::Key(*key)),
            final(self).ui@ == after_chat_key(old(self).ui@, *key, mcp@),
            clears(old(self).ui@, TerminalEvent::Key(*key)) ==> final(self).history@.len() == 0,
            !clears(old(self).ui@, TerminalEvent::Key(*key)) ==> final(self).history@ == old(self).history@,
    {
        if let KeyName::Esc = key.code {
            return ChatAction::Continue;
        }
        if let KeyName::Char(c) = key.code {
            if c == 'c' && key.control {
                return match handle_ctrl_c(&mut self.ui) {
                    CommandAction::Exit => ChatAction::Exit,
                    _ => ChatAction::Continue,
                };
            }
        }
        proof {
            if !is_common_key(self.ui@, *key) {
                lemma_still_takes(self.ui@, *key);
            }
        }
        if handle_common_key(&mut self.ui, key) {
            return ChatAction::Continue;
        }
        if let KeyName::Enter = key.code {
            if !blank(self.ui.input.value.as_str()) {
                return self.submit(mcp);
            }
        }
        self.ui.input.handle_key_event(key);
        ChatAction::Continue
    }

    /// Submits what is typed.
    fn submit(&mut self, mcp: &McpHost) -> (r: ChatAction)
        ensures
            r@ == submission_action(old(self).ui@),
            final(self).ui@ == after_submission(old(self).ui@, mcp@),
            command_in(text::trim(old(self).ui@.input.value)) == Command::Clear ==> final(self).history@.len() == 0,
            command_in(text::trim(old(self).ui@.input.value)) != Command::Clear ==> final(self).history@
                == old(self).history@,
    {
        let input = self.ui.input.take();
        let command = trimmed(input.as_str());
        self.ui.follow_tail();
        match handle_command(command.as_str(), &mut self.ui, &mut self.history, mcp) {
            CommandAction::Exit => ChatAction::Exit,
            CommandAction::Handled => ChatAction::Continue,
            CommandAction::Copy(text) => ChatAction::CopyAnswer(text),
            CommandAction::Export(text) => ChatAction::Export(text),
            CommandAction::Prompt => {
                self.ui.push(Message::User(input.clone()));
                ChatAction::Prompt(input)
            },
        }
    }
}

// ---------- The end of a turn ----------

/// How a turn has ended.
#[derive(Debug)]
pub enum TurnEnd {
    Done { usage: Usage, last_input: Option<u64>, elapsed: Duration },
    /// The user interface could not be drawn.
    DrawFailed,
    /// The user has stopped it.
    Stopped,
    Failed { error: String },
}

/// The user interface after a turn that added the messages from message `start` on. One that
/// was stopped or has failed leaves neither reasoning nor calls unfinished.
pub open spec fn after_turn(ui: UiModel, start: nat, end: TurnEnd, now: Instant) -> UiModel {
    let idle = UiModel { activity: None, thinking_since: None, ..ui };
    match end {
        TurnEnd::Done { usage, last_input, elapsed } => idle.accounted(
            start,
            usage,
            last_input,
            elapsed,
        ),
        TurnEnd::DrawFailed => idle,
        TurnEnd::Stopped => idle.thinking_finished(now).tools_given_up("cancelled"@, now).pushed(
            MessageModel::Info("Stopped current turn."@),
        ),
        TurnEnd::Failed { error } => idle.thinking_finished(now).tools_given_up(
            "aborted"@,
            now,
        ).pushed(MessageModel::Error(error@)),
    }
}

/// Ends a turn that added the messages from message `start` on.
pub fn end_turn(ui: &mut Ui, start: usize, end: &TurnEnd, now: Instant)
    requires
        start <= old(ui)@.messages.len(),
    ensures
        final(ui)@ == after_turn(old(ui)@, start as nat, *end, now),
{
    ui.activity = None;
    ui.thinking_since = None;
    match end {
        TurnEnd::Done { usage, last_input, elapsed } => {
            ui.metrics(start, usage, *last_input, *elapsed);
        },
        TurnEnd::DrawFailed => {},
        TurnEnd::Stopped => {
            ui.finish_thinking_at(now);
            ui.fail_pending_tools("cancelled", now);
            ui.push(Message::Info("Stopped current turn.".to_owned()));
        },
        TurnEnd::Failed { error } => {
            ui.finish_thinking_at(now);
            ui.fail_pending_tools("aborted", now);
            ui.push(Message::Error(error.clone()));
        },
    }
}

// ---------- Laws ----------

/// A paste never submits anything, and never ends the chat.
pub proof fn pasting_never_submits(ui: UiModel, text: String, host: HostModel)
    ensures
        chat_action(ui, TerminalEvent::Paste(text)) == ChatActionModel::Continue,
        after_chat_event(ui, TerminalEvent::Paste(text), host).messages == ui.messages,
{
}

/// During a turn nothing is submitted: no message comes from what the user types.
pub proof fn nothing_is_submitted_during_a_turn(ui: UiModel, event: TerminalEvent)
    requires
        event is Paste || event is Key,
    ensures
        after_busy_event(ui, event).messages == ui.messages,
{
}

/// Escape pressed twice in a row stops a turn, whatever is typed; once does not.
pub proof fn escape_twice_stops_a_turn(ui: UiModel, key: Key)
    requires
        key.code == KeyName::Esc,
    ensures
        busy_action(ui, TerminalEvent::Key(key), false) == BusyModel::Continue,
        escape_after(TerminalEvent::Key(key), false),
        busy_action(ui, TerminalEvent::Key(key), true) == BusyModel::Stop,
{
}

/// After a turn that was stopped or failed no call is pending, and nothing goes on.
pub proof fn nothing_goes_on_after_a_turn(ui: UiModel, start: nat, end: TurnEnd, now: Instant)
    ensures
        after_turn(ui, start, end, now).activity is None,
        after_turn(ui, start, end, now).thinking_since is None,
        end is Stopped || end is Failed ==> !ui::any_pending(after_turn(ui, start, end, now).messages),
{
    let idle = UiModel { activity: None, thinking_since: None, ..ui };
    if end is Stopped || end is Failed {
        let reason = if end is Stopped {
            "cancelled"@
        } else {
            "aborted"@
        };
        ui::no_call_is_pending_once_given_up(idle.thinking_finished(now), reason, now);
        let given_up = idle.thinking_finished(now).tools_given_up(reason, now).messages;
        let after = after_turn(ui, start, end, now).messages;
        assert forall|i: int| 0 <= i < after.len() implies !ui::has_pending(#[trigger] after[i]) by {
            if i < given_up.len() {
                assert(after[i] == given_up[i]);
            }
        }
    }
}

/// What happens during a turn: something in the turn itself, something at the terminal, or a
/// drawing.
pub enum Moment {
    Turn { event: TurnEvent, now: Instant },
    Terminal { input: TerminalEvent },
    Drawing { chat: Rect, limit: u16, rows: Seq<Option<ChatRow>>, screen: ScreenModel },
}

/// The user interface and the turn after something that happens during the turn.
pub open spec fn after_moment(ui: UiModel, turn: Turn, moment: Moment) -> (UiModel, Turn) {
    match moment {
        Moment::Turn { event, now } => (
            turn::ui_after(ui, turn, event, now),
            turn::turn_after(ui, turn, event, now),
        ),
        Moment::Terminal { input } => (
            after_busy_event(ui, input),
            Turn { escape: escape_after(input, turn.escape), ..turn },
        ),
        Moment::Drawing { chat, limit, rows, screen } => (
            UiModel { screen, ..scene::drawn(ui, chat, limit, rows) },
            turn,
        ),
    }
}

/// The user interface and the turn after all that happens during a turn that begins at `now`.
pub open spec fn during_turn(ui: UiModel, now: Instant, moments: Seq<Moment>) -> (UiModel, Turn)
    decreases moments.len(),
{
    if moments.len() == 0 {
        (ui.begun(now), Turn { message: None, escape: false, final_response: false })
    } else {
        let (before, turn) = during_turn(ui, now, moments.drop_last());
        after_moment(before, turn, moments.last())
    }
}

proof fn lemma_terminal_starts_no_reasoning(ui: UiModel, event: TerminalEvent)
    ensures
        ui::starts_no_reasoning(ui.messages, after_busy_event(ui, event).messages),
        after_busy_event(ui, event).messages.len() == ui.messages.len(),
{
    if let TerminalEvent::Mouse { kind, column, row } = event {
        let free = UiModel { selection: None, ..ui };
        match free.row_at(column, row) {
            Some(ChatRow::Thinking(index)) => {
                ui::lemma_toggling_starts_no_reasoning(free, index as nat);
            },
            Some(ChatRow::Tool(index)) => {
                ui::lemma_toggling_starts_no_reasoning(free, index as nat);
            },
            Some(ChatRow::ToolOutput(index)) => {
                ui::lemma_toggling_starts_no_reasoning(free, index as nat);
            },
            None => {},
        }
    }
}

proof fn lemma_during_turn(ui: UiModel, now: Instant, moments: Seq<Moment>)
    requires
        ui::one_unfinished(ui.messages),
    ensures
        ui::one_unfinished(during_turn(ui, now, moments).0.messages),
        turn::has_place(during_turn(ui, now, moments).0, during_turn(ui, now, moments).1.message),
        ui.messages.len() <= during_turn(ui, now, moments).0.messages.len(),
    decreases moments.len(),
{
    if moments.len() > 0 {
        lemma_during_turn(ui, now, moments.drop_last());
        let (before, turn) = during_turn(ui, now, moments.drop_last());
        match moments.last() {
            Moment::Turn { event, now } => {
                turn::at_most_one_reasoning_is_unfinished(before, turn, event, now);
                turn::a_turn_keeps_every_message(before, turn, event, now);
            },
            Moment::Terminal { input } => {
                lemma_terminal_starts_no_reasoning(before, input);
                ui::lemma_no_reasoning_started(
                    before.messages,
                    after_busy_event(before, input).messages,
                );
            },
            Moment::Drawing { chat, limit, rows, screen } => {},
        }
    }
}

/// A conversation that can be saved before a turn can be saved after it, whatever happens
/// during the turn, where the turn is stopped or fails.
pub proof fn a_broken_off_turn_can_be_saved(
    ui: UiModel,
    begin: Instant,
    moments: Seq<Moment>,
    end: TurnEnd,
    now: Instant,
)
    requires
        message::saved(ui.messages) is Ok,
        end is Stopped || end is Failed,
    ensures
        message::saved(
            after_turn(
                during_turn(ui, begin, moments).0,
                ui.messages.len(),
                end,
                now,
            ).messages,
        ) is Ok,
{
    message::saving_needs_finished_messages(ui.messages);
    assert forall|i: int, j: int|
        0 <= i < j < ui.messages.len() && #[trigger] ui::is_open_thinking(ui.messages[i]) implies !(
    #[trigger] ui::is_open_thinking(ui.messages[j])) by {
        assert(message::is_finished(ui.messages[i]));
    }
    lemma_during_turn(ui, begin, moments);
    let last = during_turn(ui, begin, moments).0;
    let idle = UiModel { activity: None, thinking_since: None, ..last };
    let after = after_turn(last, ui.messages.len(), end, now);
    ui::lemma_thinking_finished(idle, now);
    nothing_goes_on_after_a_turn(last, ui.messages.len(), end, now);
    let thought = idle.thinking_finished(now).messages;
    assert forall|i: int| 0 <= i < after.messages.len() implies message::is_finished(
        #[trigger] after.messages[i],
    ) by {
        assert(!ui::has_pending(after.messages[i]));
        if i < thought.len() {
            assert(!ui::is_open_thinking(thought[i]));
        }
    }
    message::saving_needs_finished_messages(after.messages);
}

// ---------- What a click reaches ----------

/// The rows of the chat on the screen are those of the conversation in `width` columns.
pub open spec fn is_drawn(ui: UiModel, width: u16, now: Instant) -> bool {
    ui.chat_rows == rows::screen_rows(
        rows::chat_rows(ui.messages, width, now, ui.messages.len()),
        rows::wrap_width(width),
    )
}

/// The position on the screen lies on line `j` of the chat, on any of the rows that it takes.
pub open spec fn lies_on(
    ui: UiModel,
    width: u16,
    now: Instant,
    column: u16,
    row: u16,
    j: int,
) -> bool {
    let rows = rows::chat_rows(ui.messages, width, now, ui.messages.len());
    let at = ui.chat_scroll + (row - ui.chat_area.y);
    &&& ui.chat_area.holds(column, row)
    &&& 0 <= j < rows.len()
    &&& at <= u16::MAX
    &&& rows::rows_above(rows, rows::wrap_width(width), j as nat) <= at < rows::rows_above(
        rows,
        rows::wrap_width(width),
        j as nat,
    ) + rows::rows_taken(rows[j].0, rows::wrap_width(width))
}

/// The user interface after a click: the button is pressed and released at one position.
pub open spec fn after_click(ui: UiModel, column: u16, row: u16) -> UiModel {
    after_mouse(after_mouse(ui, MouseKind::LeftDown, column, row), MouseKind::LeftUp, column, row)
}

proof fn lemma_click(ui: UiModel, width: u16, now: Instant, column: u16, row: u16, j: int)
    requires
        is_drawn(ui, width, now),
        lies_on(ui, width, now, column, row, j),
    ensures
        ui.row_at(column, row) == rows::chat_rows(ui.messages, width, now, ui.messages.len())[j].1,
{
    let rows = rows::chat_rows(ui.messages, width, now, ui.messages.len());
    let above = rows::rows_above(rows, rows::wrap_width(width), j as nat);
    let at = ui.chat_scroll + (row - ui.chat_area.y);
    rows::lines_have_their_rows_on_the_screen(rows, rows::wrap_width(width), j as nat, (at - above) as nat);
}

/// A click on the heading of the output of an open call, or on any row of the shown output,
/// opens or closes the output of that very call, and leaves the call open.
pub proof fn clicking_an_output_turns_it(
    ui: UiModel,
    width: u16,
    now: Instant,
    place: (int, int),
    column: u16,
    row: u16,
    j: int,
)
    requires
        is_drawn(ui, width, now),
        lies_on(ui, width, now, column, row, j),
        ui.messages.len() <= usize::MAX,
        ui::calls(ui.messages) <= usize::MAX,
        ui::holds_call(ui.messages, place),
        ui::call_in(ui.messages, place).open,
        ui::call_in(ui.messages, place).output is Some,
        ({
            let heading = rows::call_start(ui.messages, width, now, place) + 1 + rows::shown_args(
                ui::call_in(ui.messages, place),
            ).len();
            heading <= j <= heading + rows::shown_output(ui::call_in(ui.messages, place)).len()
        }),
    ensures
        ({
            let before = ui::call_in(ui.messages, place);
            let after = ui::call_in(after_click(ui, column, row).messages, place);
            &&& ui::holds_call(after_click(ui, column, row).messages, place)
            &&& after.open
            &&& after.output_open == !before.output_open
            &&& after.output == before.output
            &&& after.output_open ==> after.output_preview == Some(
                detail::preview(json::json_pretty(before.output->0)),
            )
        }),
{
    let tool = ui::call_in(ui.messages, place);
    let number = rows::call_number(ui.messages, place);
    let output = rows::shown_output(tool);
    let heading = rows::call_start(ui.messages, width, now, place) + 1 + rows::shown_args(tool).len();
    lemma_click(ui, width, now, column, row, j);
    rows::calls_are_shown_row_by_row(ui.messages, width, now, place);
    ui::calls_are_numbered_in_order(ui.messages, place);
    let rows = rows::chat_rows(ui.messages, width, now, ui.messages.len());
    if j > heading {
        assert(output[j - heading - 1] == output[j - heading - 1]);
        assert(rows::reaches(
            rows[heading + 1 + (j - heading - 1)],
            "    "@ + output[j - heading - 1],
            ChatRow::ToolOutput(number),
        ));
    }
    assert(rows[j].1 == Some(ChatRow::ToolOutput(number)));
    let pressed = after_mouse(ui, MouseKind::LeftDown, column, row);
    let free = UiModel { selection: None, ..pressed };
    assert(free.row_at(column, row) == ui.row_at(column, row));
    ui::toggling_an_output_leaves_its_call_open(free, place, place);
}

/// A click on the line of a call, on its arguments or on its error opens or closes that very
/// call, and turns no output.
pub proof fn clicking_a_call_turns_it(
    ui: UiModel,
    width: u16,
    now: Instant,
    place: (int, int),
    column: u16,
    row: u16,
    j: int,
)
    requires
        is_drawn(ui, width, now),
        lies_on(ui, width, now, column, row, j),
        ui.messages.len() <= usize::MAX,
        ui::calls(ui.messages) <= usize::MAX,
        ui::holds_call(ui.messages, place),
        ({
            let start = rows::call_start(ui.messages, width, now, place);
            let tool = ui::call_in(ui.messages, place);
            let args = rows::shown_args(tool).len();
            let below = if tool.open && tool.output is Some {
                1 + rows::shown_output(tool).len()
            } else {
                0
            };
            start <= j <= start + args || start + args + below < j <= start + args + below
                + rows::shown_error(tool).len()
        }),
    ensures
        ({
            let before = ui::call_in(ui.messages, place);
            let after = ui::call_in(after_click(ui, column, row).messages, place);
            &&& ui::holds_call(after_click(ui, column, row).messages, place)
            &&& after.open == !before.open
            &&& after.output_open == before.output_open
            &&& after.output == before.output
        }),
{
    let start = rows::call_start(ui.messages, width, now, place);
    let tool = ui::call_in(ui.messages, place);
    let number = rows::call_number(ui.messages, place);
    let args = rows::shown_args(tool);
    let error = rows::shown_error(tool);
    let below = if tool.open && tool.output is Some {
        1 + rows::shown_output(tool).len()
    } else {
        0
    };
    lemma_click(ui, width, now, column, row, j);
    rows::calls_are_shown_row_by_row(ui.messages, width, now, place);
    ui::calls_are_numbered_in_order(ui.messages, place);
    let rows = rows::chat_rows(ui.messages, width, now, ui.messages.len());
    if start < j <= start + args.len() {
        let i = j - start - 1;
        assert(args[i] == args[i]);
        assert(rows::reaches(rows[start + 1 + i], "  "@ + args[i], ChatRow::Tool(number)));
    } else if j > start {
        let end = start + 1 + args.len() + below;
        let i = j - end;
        assert(error[i] == error[i]);
        assert(rows::reaches(rows[end + i], error[i], ChatRow::Tool(number)));
    }
    assert(rows[j].1 == Some(ChatRow::Tool(number)));
    let pressed = after_mouse(ui, MouseKind::LeftDown, column, row);
    let free = UiModel { selection: None, ..pressed };
    assert(free.row_at(column, row) == ui.row_at(column, row));
    ui::toggling_a_call_turns_it_alone(free, place, place);
}

/// A click on the heading of a reasoning with a body opens or closes that very reasoning.
pub proof fn clicking_a_reasoning_turns_it(
    ui: UiModel,
    width: u16,
    now: Instant,
    m: int,
    column: u16,
    row: u16,
)
    requires
        is_drawn(ui, width, now),
        0 <= m < ui.messages.len() <= usize::MAX,
        ui.has_body(m as nat),
        lies_on(
            ui,
            width,
            now,
            column,
            row,
            rows::chat_rows(ui.messages, width, now, m as nat).len() as int,
        ),
    ensures
        ({
            let after = after_click(ui, column, row).messages;
            &&& after.len() == ui.messages.len()
            &&& after[m] is Thinking
            &&& after[m]->Thinking_open == !ui.messages[m]->Thinking_open
            &&& after[m]->Thinking_text == ui.messages[m]->Thinking_text
        }),
{
    let j = rows::chat_rows(ui.messages, width, now, m as nat).len() as int;
    lemma_click(ui, width, now, column, row, j);
    rows::reasonings_are_shown_row_by_row(ui.messages, width, now, m);
    let pressed = after_mouse(ui, MouseKind::LeftDown, column, row);
    let free = UiModel { selection: None, ..pressed };
    assert(free.row_at(column, row) == ui.row_at(column, row));
    ui::toggling_a_reasoning_turns_it_alone(free, m as nat);
}

/// Pressing the button, dragging and releasing it elsewhere copies what is selected from where
/// it was pressed to where it was dragged, and opens and closes nothing.
pub proof fn dragging_copies_the_selection(
    ui: UiModel,
    from: (u16, u16),
    to: (u16, u16),
)
    requires
        from != to,
    ensures
        ({
            let pressed = after_mouse(ui, MouseKind::LeftDown, from.0, from.1);
            let dragged = after_mouse(pressed, MouseKind::LeftDrag, to.0, to.1);
            let released = after_mouse(dragged, MouseKind::LeftUp, to.0, to.1);
            &&& copied_by_mouse(ui, MouseKind::LeftDown) is None
            &&& copied_by_mouse(pressed, MouseKind::LeftDrag) is None
            &&& dragged.selection == Some((from, to))
            &&& copied_by_mouse(dragged, MouseKind::LeftUp) == (if ui.screen.selected(
                from,
                to,
            ).len() > 0 {
                Some(ui.screen.selected(from, to))
            } else {
                None
            })
            &&& released == (UiModel { selection: None, ..ui })
        }),
{
}

/// A click copies nothing, and selects nothing for longer than it lasts.
pub proof fn a_click_copies_nothing(ui: UiModel, column: u16, row: u16)
    ensures
        copied_by_mouse(after_mouse(ui, MouseKind::LeftDown, column, row), MouseKind::LeftUp)
            is None,
        after_click(ui, column, row).selection is None,
        after_click(ui, column, row).input == ui.input,
        after_click(ui, column, row).scroll == ui.scroll,
{
}

// ---------- Commands and prompts ----------

/// What starts with a slash is a command, and nothing else is; those that are known are these.
pub proof fn commands_start_with_a_slash(text: Seq<char>)
    ensures
        command_in(text) == Command::Prompt <==> !(text.len() > 0 && text[0] == '/'),
        command_in(text) == Command::Exit <==> text == "/exit"@ || text == "/quit"@,
        command_in(text) == Command::Clear <==> text == "/clear"@,
        command_in(text) == Command::Help <==> text == "/help"@,
        command_in(text) == Command::Mcp <==> text == "/mcp"@,
        command_in(text) == Command::Copy <==> text == "/copy"@,
        command_in(text) == Command::Export <==> text == "/export"@,
{
    reveal_strlit("/exit");
    reveal_strlit("/quit");
    reveal_strlit("/clear");
    reveal_strlit("/help");
    reveal_strlit("/mcp");
    reveal_strlit("/copy");
    reveal_strlit("/export");
    reveal_strlit("/");
    if text.len() > 0 && text[0] == '/' {
        assert(text.take(1) =~= "/"@);
    }
    assert("/"@.len() == 1 && "/"@[0] == '/');
    if text::starts(text, "/"@) {
        assert(text.take(1)[0] == text[0]);
    }
    assert("/exit"@.len() == 5 && "/quit"@.len() == 5 && "/clear"@.len() == 6 && "/help"@.len()
        == 5 && "/mcp"@.len() == 4 && "/copy"@.len() == 5 && "/export"@.len() == 7);
    assert("/exit"@[1] == 'e' && "/quit"@[1] == 'q' && "/help"@[1] == 'h' && "/copy"@[1] == 'c');
    assert("/exit"@[0] == '/' && "/quit"@[0] == '/' && "/help"@[0] == '/' && "/copy"@[0] == '/'
        && "/mcp"@[0] == '/' && "/clear"@[0] == '/' && "/export"@[0] == '/');
}

/// What is typed and is no command is said to the model as it was typed: it is the last message,
/// and the prompt; the input is empty again, and the tail is followed.
pub proof fn prompts_are_sent_as_they_are_typed(ui: UiModel, key: Key, host: HostModel)
    requires
        key.code == KeyName::Enter,
        !key.shift && !key.control,
        !text::is_blank(ui.input.value),
        text::trim(ui.input.value)[0] != '/',
    ensures
        chat_action(ui, TerminalEvent::Key(key)) == ChatActionModel::Prompt(ui.input.value),
        after_chat_event(ui, TerminalEvent::Key(key), host).messages == ui.messages.push(
            MessageModel::User(ui.input.value),
        ),
        after_chat_event(ui, TerminalEvent::Key(key), host).input.value.len() == 0,
        after_chat_event(ui, TerminalEvent::Key(key), host).follow_tail,
{
    text::lemma_blank_iff_trim_empty(ui.input.value);
    commands_start_with_a_slash(text::trim(ui.input.value));
}

/// What Enter submits is taken out of the input, and the tail is followed; a command with a
/// slash before it is not said to the model.
pub proof fn commands_are_not_sent(ui: UiModel, key: Key, host: HostModel)
    requires
        key.code == KeyName::Enter,
        !key.shift && !key.control,
        text::trim(ui.input.value).len() > 0 && text::trim(ui.input.value)[0] == '/',
    ensures
        !(chat_action(ui, TerminalEvent::Key(key)) is Prompt),
        after_chat_event(ui, TerminalEvent::Key(key), host).input.value.len() == 0,
        text::trim(ui.input.value) == "/exit"@ || text::trim(ui.input.value) == "/quit"@ <==> chat_action(
            ui,
            TerminalEvent::Key(key),
        ) == ChatActionModel::Exit,
        forall|i: int|
            0 <= i < ui.messages.len() && text::trim(ui.input.value) != "/clear"@
                ==> #[trigger] after_chat_event(ui, TerminalEvent::Key(key), host).messages[i]
                == ui.messages[i],
        text::trim(ui.input.value) == "/clear"@ <==> clears(ui, TerminalEvent::Key(key)),
        text::trim(ui.input.value) == "/clear"@ ==> after_chat_event(
            ui,
            TerminalEvent::Key(key),
            host,
        ).messages.len() == 0,
        text::trim(ui.input.value) == "/help"@ ==> after_chat_event(
            ui,
            TerminalEvent::Key(key),
            host,
        ).messages == ui.messages.push(answer(COMMAND_HELP@)),
        text::trim(ui.input.value) == "/mcp"@ ==> after_chat_event(
            ui,
            TerminalEvent::Key(key),
            host,
        ).messages == ui.messages.push(answer(host::host_summary(host))),
{
    text::lemma_blank_iff_trim_empty(ui.input.value);
    commands_start_with_a_slash(text::trim(ui.input.value));
}

/// The command to copy gives out the last answer that says something, and adds no message; where
/// there is none, an error says so.
pub proof fn copying_gives_out_the_last_answer(ui: UiModel, key: Key, host: HostModel, i: int)
    requires
        key.code == KeyName::Enter,
        !key.shift && !key.control,
        text::trim(ui.input.value) == "/copy"@,
        0 <= i < ui.messages.len(),
        ui.messages[i] is Assistant && ui.messages[i]->Assistant_text.len() > 0,
        forall|k: int|
            i < k < ui.messages.len() && (#[trigger] ui.messages[k]) is Assistant
                ==> ui.messages[k]->Assistant_text.len() == 0,
    ensures
        chat_action(ui, TerminalEvent::Key(key)) == ChatActionModel::CopyAnswer(
            ui.messages[i]->Assistant_text,
        ),
        after_chat_event(ui, TerminalEvent::Key(key), host).messages == ui.messages,
{
    reveal_strlit("/copy");
    text::lemma_blank_iff_trim_empty(ui.input.value);
    commands_start_with_a_slash(text::trim(ui.input.value));
    ui::the_last_answer_is_the_last_that_says_something(taken(ui), i);
}

/// The command to export gives out the transcript of the conversation, and adds no message; where
/// there is nothing to tell, an error says so.
pub proof fn exporting_gives_out_the_transcript(ui: UiModel, key: Key, host: HostModel)
    requires
        key.code == KeyName::Enter,
        !key.shift && !key.control,
        text::trim(ui.input.value) == "/export"@,
    ensures
        transcript::transcript_of(taken(ui)) matches Some(text) ==> chat_action(ui, TerminalEvent::Key(key))
            == ChatActionModel::Export(text) && after_chat_event(
            ui,
            TerminalEvent::Key(key),
            host,
        ).messages == ui.messages,
        transcript::transcript_of(taken(ui)) is None ==> chat_action(ui, TerminalEvent::Key(key))
            == ChatActionModel::Continue && after_chat_event(
            ui,
            TerminalEvent::Key(key),
            host,
        ).messages.last() is Error,
{
    reveal_strlit("/export");
    text::lemma_blank_iff_trim_empty(ui.input.value);
    commands_start_with_a_slash(text::trim(ui.input.value));
}

/// A command that is not known is answered with an error that holds it.
pub proof fn unknown_commands_are_named(ui: UiModel, text: Seq<char>, host: HostModel)
    requires
        command_in(text) == Command::Unknown,
    ensures
        ui_after_command(ui, text, host).messages.drop_last() == ui.messages,
        ui_after_command(ui, text, host).messages.last() matches MessageModel::Error(error)
            && text::holds_in_order(error, seq![text]),
        action_of_command(ui, text) == ActionModel::Handled,
{
    let start = Seq::<char>::empty();
    let none = Seq::<Seq<char>>::empty();
    text::lemma_holds_itself(start);
    text::lemma_holds_next(start, "Unknown command `"@, text, none);
    let a = start + "Unknown command `"@ + text;
    text::lemma_holds_before(a, "`. Type `/help` for available commands."@, none.push(text));
    assert(none.push(text) =~= seq![text]);
    assert(a =~= "Unknown command `"@ + text);
    assert(ui_after_command(ui, text, host).messages.drop_last() =~= ui.messages);
}

/// What fails is told with why, and an export with where it went.
pub proof fn notices_tell_what_came_of_it(error: Seq<char>, file: Seq<char>)
    ensures
        copy_notice(Err(error)) matches MessageModel::Error(text) && text::holds_in_order(
            text,
            seq![error],
        ),
        copy_notice(Ok(())) is Info,
        export_notice(Err(error)) matches MessageModel::Error(text) && text::holds_in_order(
            text,
            seq![error],
        ),
        export_notice(Ok(file)) matches MessageModel::Info(text) && text::holds_in_order(
            text,
            seq![file],
        ),
{
    text::lemma_holds_itself(error);
    text::lemma_holds_behind("Clipboard copy failed: "@, error, seq![error]);
    text::lemma_holds_behind("Conversation export failed: "@, error, seq![error]);
    text::lemma_holds_itself(file);
    text::lemma_holds_behind("Exported conversation to "@, file, seq![file]);
    text::lemma_holds_before("Exported conversation to "@ + file, "."@, seq![file]);
}

/// A key that submits nothing adds no message, and Control and `c` clear what is typed, or end
/// the chat where nothing is.
pub proof fn other_keys_say_nothing(ui: UiModel, key: Key, host: HostModel)
    ensures
        key.code != KeyName::Enter || key.shift ==> after_chat_key(ui, key, host).messages
            == ui.messages,
        text::is_blank(ui.input.value) ==> after_chat_key(ui, key, host).messages == ui.messages,
        key.code == KeyName::Char('c') && key.control ==> after_chat_key(
            ui,
            key,
            host,
        ).input.value.len() == 0,
        key.code == KeyName::Char('c') && key.control && ui.input.value.len() > 0 ==> chat_action(
            ui,
            TerminalEvent::Key(key),
        ) == ChatActionModel::Continue && busy_action(ui, TerminalEvent::Key(key), false)
            == BusyModel::Continue,
        key.code == KeyName::Char('c') && key.control && ui.input.value.len() == 0 ==> chat_action(
            ui,
            TerminalEvent::Key(key),
        ) == ChatActionModel::Exit && busy_action(ui, TerminalEvent::Key(key), false)
            == BusyModel::Stop,
        key.code == KeyName::Esc ==> after_chat_key(ui, key, host) == ui && chat_action(
            ui,
            TerminalEvent::Key(key),
        ) == ChatActionModel::Continue,
{
}

/// A key press during a turn does to the input what it does between turns, where it submits
/// nothing.
pub proof fn typing_goes_on_during_a_turn(ui: UiModel, key: Key, host: HostModel)
    requires
        key.code != KeyName::Enter,
    ensures
        after_busy_key(ui, key) == after_chat_key(ui, key, host),
{
}

/// A character that is typed goes to the cursor, between turns and during them; shift and Enter
/// break the line there.
pub proof fn what_is_typed_goes_to_the_cursor(ui: UiModel, key: Key, c: char, host: HostModel)
    requires
        ui.input.position <= ui.input.value.len(),
        !key.control && !key.other,
        key.code == KeyName::Char(c) && c != '\n' && c != '\r' || (key.code == KeyName::Enter
            && key.shift && c == '\n'),
    ensures
        ({
            let at = ui.input.position as int;
            let after = after_chat_key(ui, key, host).input.value;
            &&& after.len() == ui.input.value.len() + 1
            &&& after[at] == c
            &&& after.take(at) == ui.input.value.take(at)
            &&& after.skip(at + 1) == ui.input.value.skip(at)
        }),
{
    reveal_strlit("\n");
    let at = ui.input.position as int;
    if key.code == KeyName::Enter {
        input::pasted_lines_end_in_line_feeds("\n"@);
        assert(!"\n"@.contains('\r'));
    }
    let after = after_chat_key(ui, key, host).input.value;
    assert(after.take(at) =~= ui.input.value.take(at));
    assert(after.skip(at + 1) =~= ui.input.value.skip(at));
}

/// Where one line is typed, the arrows scroll by a row; the page keys scroll by eight rows, and
/// the wheel by three.
pub proof fn keys_and_wheel_scroll(ui: UiModel, key: Key, column: u16, row: u16)
    requires
        !ui.input.value.contains('\n'),
        !ui.follow_tail,
        8 <= ui.scroll,
        ui.scroll + 8 < ui.scroll_max,
    ensures
        key.code == KeyName::Up ==> after_common_key(ui, key).scroll == ui.scroll - 1,
        key.code == KeyName::Down ==> after_common_key(ui, key).scroll == ui.scroll + 1,
        key.code == KeyName::PageUp ==> after_common_key(ui, key).scroll == ui.scroll - 8,
        key.code == KeyName::PageDown ==> after_common_key(ui, key).scroll == ui.scroll + 8,
        after_mouse(ui, MouseKind::ScrollUp, column, row).scroll == ui.scroll - 3,
        after_mouse(ui, MouseKind::ScrollDown, column, row).scroll == ui.scroll + 3,
{
}

/// A turn that was stopped or has failed ends in a message that says so, with the error; every
/// call that was pending fails, and all that was said stays.
pub proof fn broken_off_turns_say_so(
    ui: UiModel,
    start: nat,
    end: TurnEnd,
    now: Instant,
    place: (int, int),
)
    requires
        end is Stopped || end is Failed,
    ensures
        ({
            let after = after_turn(ui, start, end, now).messages;
            &&& after.len() == ui.messages.len() + 1
            &&& end is Stopped ==> after.last() is Info
            &&& end matches TurnEnd::Failed { error } ==> after.last() == MessageModel::Error(
                error@,
            )
            &&& forall|i: int|
                0 <= i < ui.messages.len() && !(ui.messages[i] is Tools)
                    && !(ui.messages[i] is Thinking) ==> #[trigger] after[i] == ui.messages[i]
            &&& ui::holds_call(ui.messages, place) ==> ui::holds_call(after, place) && (ui::call_in(
                ui.messages,
                place,
            ).state is Pending ==> ui::call_in(after, place).state is Failed) && (!(ui::call_in(
                ui.messages,
                place,
            ).state is Pending) ==> ui::call_in(after, place) == ui::call_in(ui.messages, place))
        }),
{
    ui::lemma_last_unfinished(ui.messages);
}

} // verus!
