//! A turn of the conversation: what the model streams and what its tools report.
use vstd::prelude::*;
use vstd::string::*;
use crate::clock::{Duration, Instant};
use crate::count::Usage;
use crate::detail;
use crate::json;
use crate::json::Json;
use crate::message::{
    clone_optional, copy_optional, MessageModel, StateModel, ToolModel, ToolView,
};
use crate::thinking;
use crate::thinking::ReasoningContent;
use crate::ui;
use crate::ui::{Phase, Ui, UiModel};

verus! {

// ---------- Reports of tools ----------

/// What a call of a tool reports.
#[derive(Debug)]
pub enum ToolEvent {
    Start { id: u64, label: String, args: Json, started: Instant },
    Status { id: u64, status: Option<String> },
    Progress { id: u64, status: Option<String> },
    Finish {
        id: u64,
        error: Option<String>,
        output: Option<Json>,
        duration: Duration,
        finished: Instant,
    },
}

/// The user interface after a report.
pub open spec fn reported(ui: UiModel, event: ToolEvent) -> UiModel {
    match event {
        ToolEvent::Start { id, label, args, started } => ui.in_phase(
            Phase::Working,
            started,
        ).with_tool(ToolModel::pending(id, label@, args@, started)),
        ToolEvent::Status { id, status } => ui.tool_status(id, thinking::optional(status)),
        ToolEvent::Progress { id, status } => ui.tool_status(id, thinking::optional(status)),
        ToolEvent::Finish { id, error, output, duration, finished } => {
            let done = ui.tool_finished(id, thinking::optional(error), json::optional_view(output), duration);
            if ui::any_pending(done.messages) {
                done
            } else {
                done.in_phase(Phase::Thinking, finished)
            }
        },
    }
}

/// The message that streamed text goes to after a report: a call ends the one before it.
pub open spec fn message_after(message: Option<usize>, event: ToolEvent) -> Option<usize> {
    if event is Start {
        None
    } else {
        message
    }
}

/// The user interface after reports.
pub open spec fn all_reported(ui: UiModel, events: Seq<ToolEvent>) -> UiModel
    decreases events.len(),
{
    if events.len() == 0 {
        ui
    } else {
        reported(all_reported(ui, events.drop_last()), events.last())
    }
}

/// The message that streamed text goes to after reports.
pub open spec fn message_after_all(message: Option<usize>, events: Seq<ToolEvent>) -> Option<usize>
    decreases events.len(),
{
    if events.len() == 0 {
        message
    } else {
        message_after(message_after_all(message, events.drop_last()), events.last())
    }
}

/// Takes in a report.
pub fn handle_tool_event(ui: &mut Ui, event: &ToolEvent, message: &mut Option<usize>)
    ensures
        final(ui)@ == reported(old(ui)@, *event),
        *final(message) == message_after(*old(message), *event),
{
    match event {
        ToolEvent::Start { id, label, args, started } => {
            *message = None;
            ui.phase_at(Phase::Working, *started);
            ui.add_tool(ToolView::pending(*id, label.as_str(), args, *started));
        },
        ToolEvent::Status { id, status } => {
            ui.tool_status(*id, clone_optional(status));
        },
        ToolEvent::Progress { id, status } => {
            ui.tool_status(*id, clone_optional(status));
        },
        ToolEvent::Finish { id, error, output, duration, finished } => {
            ui.finish_tool(*id, clone_optional(error), copy_optional(output), *duration);
            if !ui.has_pending_tools() {
                ui.phase_at(Phase::Thinking, *finished);
            }
        },
    }
}

/// Takes in reports, in their order.
pub fn drain_tool_events(ui: &mut Ui, events: &Vec<ToolEvent>, message: &mut Option<usize>)
    ensures
        final(ui)@ == all_reported(old(ui)@, events@),
        *final(message) == message_after_all(*old(message), events@),
{
    let ghost start = ui@;
    let ghost first = *message;
    let mut i: usize = 0;
    assert(events@.take(0) =~= Seq::empty());
    while i < events.len()
        invariant
            i <= events@.len(),
            ui@ == all_reported(start, events@.take(i as int)),
            *message == message_after_all(first, events@.take(i as int)),
        decreases events.len() - i,
    {
        proof {
            assert(events@.take(i + 1).drop_last() =~= events@.take(i as int));
        }
        handle_tool_event(ui, &events[i], message);
        i += 1;
    }
    assert(events@.take(i as int) =~= events@);
}

// ---------- The stream ----------

/// What the model streams.
#[derive(Debug)]
pub enum StreamItem {
    Text(String),
    ReasoningDelta { id: String, reasoning: String },
    Reasoning { id: String, content: Vec<ReasoningContent> },
    /// The end of a completion, with the tokens that went into it.
    Usage { input_tokens: u64 },
    Other,
}

/// The user interface after an item of the stream, when `message` is the message that
/// streamed text goes to.
pub open spec fn streamed_item(
    ui: UiModel,
    message: Option<usize>,
    item: StreamItem,
    now: Instant,
) -> UiModel {
    match item {
        StreamItem::Text(text) => ui.in_phase(Phase::Responding, now).streamed(message, text@),
        StreamItem::ReasoningDelta { id, reasoning } => ui.in_phase(
            Phase::Thinking,
            now,
        ).reasoning_streamed(id@, reasoning@, now),
        StreamItem::Reasoning { id, content } => ui.in_phase(Phase::Thinking, now).reasoning_set(
            id@,
            thinking::reasoned(content@),
            now,
        ),
        StreamItem::Usage { input_tokens } => if input_tokens > 0 {
            UiModel { context: input_tokens, ..ui }
        } else {
            ui
        },
        StreamItem::Other => ui,
    }
}

/// The message that streamed text goes to after an item of the stream, when there were
/// `count` messages: text goes on where it was, reasoning ends it.
pub open spec fn message_after_item(
    message: Option<usize>,
    item: StreamItem,
    count: nat,
) -> Option<usize> {
    match item {
        StreamItem::Text(_) => match message {
            Some(i) => Some(i),
            None => Some(count as usize),
        },
        StreamItem::ReasoningDelta { id, reasoning } => None,
        StreamItem::Reasoning { id, content } => None,
        _ => message,
    }
}

/// Where a turn stands: the message that streamed text goes to, whether Escape was pressed,
/// and whether the final response has come.
#[derive(Debug, Clone, Copy, PartialEq, Eq, Structural)]
pub struct Turn {
    pub message: Option<usize>,
    pub escape: bool,
    pub final_response: bool,
}

/// What happens in a turn. What the tools have reported by then comes with it, except with
/// the final response.
#[derive(Debug)]
pub enum TurnEvent {
    /// Some time has passed.
    Tick { reports: Vec<ToolEvent> },
    /// The model has streamed something.
    Item { item: StreamItem, reports: Vec<ToolEvent> },
    /// The final response has come.
    FinalResponse,
    /// The stream has failed.
    Failed { reports: Vec<ToolEvent> },
    /// The stream has ended.
    Ended { reports: Vec<ToolEvent> },
}

/// What is to be done next in a turn.
#[derive(Debug, Clone, Copy, PartialEq, Eq, Structural)]
pub enum TurnAction {
    /// Wait for the next event.
    Wait,
    /// Draw the user interface, then wait.
    Draw,
    /// Handle what the user has done meanwhile, draw the user interface, then wait.
    PollAndDraw,
    /// End the turn with the failure of the stream.
    Fail,
    /// End the turn with its final response.
    Finish,
    /// End the turn for want of a final response.
    FailWithoutResponse,
}

/// The message of the error of a turn without a final response.
pub open spec fn no_response_text() -> Seq<char> {
    "stream ended without a final response"@
}

/// The message of the error of a turn without a final response.
pub fn no_response_message() -> (r: String)
    ensures
        r@ == no_response_text(),
{
    "stream ended without a final response".to_owned()
}

/// The text that is streamed next has a place to go to.
pub open spec fn has_place(ui: UiModel, message: Option<usize>) -> bool {
    message matches Some(i) ==> i < ui.messages.len()
}

/// The user interface after an event of a turn.
pub open spec fn ui_after(ui: UiModel, turn: Turn, event: TurnEvent, now: Instant) -> UiModel {
    match event {
        TurnEvent::Tick { reports } => all_reported(ui, reports@),
        TurnEvent::Item { item, reports } => streamed_item(
            all_reported(ui, reports@),
            message_after_all(turn.message, reports@),
            item,
            now,
        ),
        TurnEvent::FinalResponse => ui,
        TurnEvent::Failed { reports } => all_reported(ui, reports@).thinking_finished(now),
        TurnEvent::Ended { reports } => all_reported(ui, reports@).thinking_finished(now),
    }
}

/// Where a turn stands after an event.
pub open spec fn turn_after(ui: UiModel, turn: Turn, event: TurnEvent, now: Instant) -> Turn {
    match event {
        TurnEvent::Tick { reports } => Turn {
            message: message_after_all(turn.message, reports@),
            ..turn
        },
        TurnEvent::Item { item, reports } => Turn {
            message: message_after_item(
                message_after_all(turn.message, reports@),
                item,
                all_reported(ui, reports@).messages.len(),
            ),
            ..turn
        },
        TurnEvent::FinalResponse => Turn { final_response: true, ..turn },
        TurnEvent::Failed { reports } => Turn {
            message: message_after_all(turn.message, reports@),
            ..turn
        },
        TurnEvent::Ended { reports } => Turn {
            message: message_after_all(turn.message, reports@),
            ..turn
        },
    }
}

/// What is to be done after an event of a turn.
pub open spec fn action_after(turn: Turn, event: TurnEvent) -> TurnAction {
    match event {
        TurnEvent::Tick { reports } => TurnAction::PollAndDraw,
        TurnEvent::Item { item, reports } => TurnAction::Draw,
        TurnEvent::FinalResponse => TurnAction::Wait,
        TurnEvent::Failed { reports } => TurnAction::Fail,
        TurnEvent::Ended { reports } => if turn.final_response {
            TurnAction::Finish
        } else {
            TurnAction::FailWithoutResponse
        },
    }
}

/// Takes in an item of the stream.
fn handle_item(ui: &mut Ui, item: &StreamItem, message: &mut Option<usize>, now: Instant)
    requires
        has_place(old(ui)@, *old(message)),
    ensures
        final(ui)@ == streamed_item(old(ui)@, *old(message), *item, now),
        *final(message) == message_after_item(*old(message), *item, old(ui)@.messages.len()),
{
    proof {
        lemma_phase_keeps_count(ui@, Phase::Responding, now);
    }
    match item {
        StreamItem::Text(text) => {
            ui.phase_at(Phase::Responding, now);
            ui.assistant_delta(message, text.as_str());
        },
        StreamItem::ReasoningDelta { id, reasoning } => {
            *message = None;
            ui.phase_at(Phase::Thinking, now);
            ui.reasoning_delta(id.as_str(), reasoning.as_str(), now);
        },
        StreamItem::Reasoning { id, content } => {
            *message = None;
            ui.phase_at(Phase::Thinking, now);
            ui.reasoning(id.as_str(), content, now);
        },
        StreamItem::Usage { input_tokens } => {
            if *input_tokens > 0 {
                ui.context = *input_tokens;
            }
        },
        StreamItem::Other => {},
    }
}

impl Turn {
    /// The start of a turn.
    pub fn begin(ui: &mut Ui, now: Instant) -> (r: Turn)
        ensures
            final(ui)@ == old(ui)@.begun(now),
            r == (Turn { message: None, escape: false, final_response: false }),
    {
        ui.begin(now);
        Turn { message: None, escape: false, final_response: false }
    }

    /// Takes in an event of the turn, and tells what is to be done next.
    pub fn step(&mut self, ui: &mut Ui, event: &TurnEvent, now: Instant) -> (r: TurnAction)
        requires
            has_place(old(ui)@, old(self).message),
        ensures
            final(ui)@ == ui_after(old(ui)@, *old(self), *event, now),
            *final(self) == turn_after(old(ui)@, *old(self), *event, now),
            r == action_after(*old(self), *event),
            has_place(final(ui)@, final(self).message),
    {
        proof {
            lemma_step_grows(ui@, *self, *event, now);
        }
        let mut message = self.message;
        let action = match event {
            TurnEvent::Tick { reports } => {
                drain_tool_events(ui, reports, &mut message);
                TurnAction::PollAndDraw
            },
            TurnEvent::Item { item, reports } => {
                proof {
                    lemma_reports_grow(ui@, self.message, reports@);
                }
                drain_tool_events(ui, reports, &mut message);
                handle_item(ui, item, &mut message, now);
                TurnAction::Draw
            },
            TurnEvent::FinalResponse => {
                self.final_response = true;
                TurnAction::Wait
            },
            TurnEvent::Failed { reports } => {
                drain_tool_events(ui, reports, &mut message);
                ui.finish_thinking_at(now);
                TurnAction::Fail
            },
            TurnEvent::Ended { reports } => {
                if finalize_stream(self.final_response, ui, reports, &mut message, now) {
                    TurnAction::Finish
                } else {
                    TurnAction::FailWithoutResponse
                }
            },
        };
        self.message = message;
        action
    }
}

/// Ends the stream of a turn, and tells whether its final response has come.
pub fn finalize_stream(
    final_response: bool,
    ui: &mut Ui,
    events: &Vec<ToolEvent>,
    message: &mut Option<usize>,
    now: Instant,
) -> (r: bool)
    ensures
        r == final_response,
        final(ui)@ == all_reported(old(ui)@, events@).thinking_finished(now),
        *final(message) == message_after_all(*old(message), events@),
{
    drain_tool_events(ui, events, message);
    ui.finish_thinking_at(now);
    final_response
}

// ---------- Laws ----------

/// Neither a new phase nor the end of a reasoning changes the number of messages.
proof fn lemma_phase_keeps_count(ui: UiModel, phase: Phase, at: Instant)
    ensures
        ui.in_phase(phase, at).messages.len() == ui.messages.len(),
        ui.thinking_finished(at).messages.len() == ui.messages.len(),
{
    ui::lemma_last_unfinished(ui.messages);
}

proof fn lemma_report_grows(ui: UiModel, event: ToolEvent)
    ensures
        reported(ui, event).messages.len() >= ui.messages.len(),
{
    match event {
        ToolEvent::Start { id, label, args, started } => {
            lemma_phase_keeps_count(ui, Phase::Working, started);
        },
        ToolEvent::Status { id, status } => {
            ui::lemma_call_with_id(ui.messages, id);
        },
        ToolEvent::Progress { id, status } => {
            ui::lemma_call_with_id(ui.messages, id);
        },
        ToolEvent::Finish { id, error, output, duration, finished } => {
            ui::lemma_call_with_id(ui.messages, id);
            lemma_phase_keeps_count(
                ui.tool_finished(id, thinking::optional(error), json::optional_view(output), duration),
                Phase::Thinking,
                finished,
            );
        },
    }
}

proof fn lemma_item_grows(ui: UiModel, message: Option<usize>, item: StreamItem, now: Instant)
    requires
        has_place(ui, message),
    ensures
        streamed_item(ui, message, item, now).messages.len() >= ui.messages.len(),
        has_place(
            streamed_item(ui, message, item, now),
            message_after_item(message, item, ui.messages.len()),
        ),
{
    lemma_phase_keeps_count(ui, Phase::Responding, now);
    lemma_phase_keeps_count(ui, Phase::Thinking, now);
    let thinking = ui.in_phase(Phase::Thinking, now);
    lemma_phase_keeps_count(thinking, Phase::Thinking, now);
    match item {
        StreamItem::ReasoningDelta { id, reasoning } => {
            ui::lemma_last_with_id(thinking.messages, id@);
        },
        StreamItem::Reasoning { id, content } => {
            ui::lemma_last_with_id(thinking.messages, id@);
        },
        _ => {},
    }
}

proof fn lemma_reports_grow(ui: UiModel, message: Option<usize>, events: Seq<ToolEvent>)
    ensures
        all_reported(ui, events).messages.len() >= ui.messages.len(),
        has_place(ui, message) ==> has_place(
            all_reported(ui, events),
            message_after_all(message, events),
        ),
    decreases events.len(),
{
    if events.len() > 0 {
        lemma_reports_grow(ui, message, events.drop_last());
        lemma_report_grows(all_reported(ui, events.drop_last()), events.last());
    }
}

proof fn lemma_step_grows(ui: UiModel, turn: Turn, event: TurnEvent, now: Instant)
    requires
        has_place(ui, turn.message),
    ensures
        ui_after(ui, turn, event, now).messages.len() >= ui.messages.len(),
        has_place(
            ui_after(ui, turn, event, now),
            turn_after(ui, turn, event, now).message,
        ),
{
    match event {
        TurnEvent::Tick { reports } => {
            lemma_reports_grow(ui, turn.message, reports@);
        },
        TurnEvent::Item { item, reports } => {
            lemma_reports_grow(ui, turn.message, reports@);
            lemma_item_grows(
                all_reported(ui, reports@),
                message_after_all(turn.message, reports@),
                item,
                now,
            );
        },
        TurnEvent::FinalResponse => {},
        TurnEvent::Failed { reports } => {
            lemma_reports_grow(ui, turn.message, reports@);
            lemma_phase_keeps_count(all_reported(ui, reports@), Phase::Thinking, now);
        },
        TurnEvent::Ended { reports } => {
            lemma_reports_grow(ui, turn.message, reports@);
            lemma_phase_keeps_count(all_reported(ui, reports@), Phase::Thinking, now);
        },
    }
}

/// No event of a turn takes a message away, and streamed text always has a place to go to.
pub proof fn a_turn_keeps_every_message(ui: UiModel, turn: Turn, event: TurnEvent, now: Instant)
    requires
        has_place(ui, turn.message),
    ensures
        ui_after(ui, turn, event, now).messages.len() >= ui.messages.len(),
        has_place(
            ui_after(ui, turn, event, now),
            turn_after(ui, turn, event, now).message,
        ),
{
    lemma_step_grows(ui, turn, event, now);
}

/// Text that is streamed piece by piece becomes one message with the pieces one after the
/// other.
pub proof fn streamed_pieces_become_one_message(ui: UiModel, first: Seq<char>, second: Seq<char>)
    requires
        ui.messages.len() <= usize::MAX,
    ensures
        ui.streamed(None, first).streamed(Some(ui.messages.len() as usize), second) == ui.pushed(
            MessageModel::Assistant { text: first + second, metrics: None },
        ),
{
    let once = ui.streamed(None, first);
    let twice = once.streamed(Some(ui.messages.len() as usize), second);
    assert(twice.messages =~= ui.messages.push(
        MessageModel::Assistant { text: first + second, metrics: None },
    ));
}

proof fn lemma_report_starts_no_reasoning(ui: UiModel, event: ToolEvent)
    ensures
        ui::starts_no_reasoning(ui.messages, reported(ui, event).messages),
{
    match event {
        ToolEvent::Start { id, label, args, started } => {
            ui::lemma_phase_starts_no_reasoning(ui, Phase::Working, started);
        },
        ToolEvent::Status { id, status } => {
            ui::lemma_call_with_id(ui.messages, id);
        },
        ToolEvent::Progress { id, status } => {
            ui::lemma_call_with_id(ui.messages, id);
        },
        ToolEvent::Finish { id, error, output, duration, finished } => {
            ui::lemma_call_with_id(ui.messages, id);
            let done = ui.tool_finished(id, thinking::optional(error), json::optional_view(output), duration);
            ui::lemma_phase_starts_no_reasoning(done, Phase::Thinking, finished);
        },
    }
}

proof fn lemma_reports_keep_one_unfinished(ui: UiModel, events: Seq<ToolEvent>)
    requires
        ui::one_unfinished(ui.messages),
    ensures
        ui::one_unfinished(all_reported(ui, events).messages),
    decreases events.len(),
{
    if events.len() > 0 {
        lemma_reports_keep_one_unfinished(ui, events.drop_last());
        let before = all_reported(ui, events.drop_last());
        lemma_report_starts_no_reasoning(before, events.last());
        ui::lemma_no_reasoning_started(before.messages, all_reported(ui, events).messages);
    }
}

/// Whatever happens in a turn, at most one reasoning has not ended.
pub proof fn at_most_one_reasoning_is_unfinished(
    ui: UiModel,
    turn: Turn,
    event: TurnEvent,
    now: Instant,
)
    requires
        has_place(ui, turn.message),
        ui::one_unfinished(ui.messages),
    ensures
        ui::one_unfinished(ui_after(ui, turn, event, now).messages),
{
    match event {
        TurnEvent::Tick { reports } => {
            lemma_reports_keep_one_unfinished(ui, reports@);
        },
        TurnEvent::Item { item, reports } => {
            lemma_reports_keep_one_unfinished(ui, reports@);
            let told = all_reported(ui, reports@);
            let message = message_after_all(turn.message, reports@);
            lemma_reports_grow(ui, turn.message, reports@);
            lemma_phase_keeps_count(told, Phase::Responding, now);
            ui::lemma_phase_starts_no_reasoning(told, Phase::Responding, now);
            ui::lemma_phase_starts_no_reasoning(told, Phase::Thinking, now);
            let responding = told.in_phase(Phase::Responding, now);
            let thinking = told.in_phase(Phase::Thinking, now);
            ui::lemma_no_reasoning_started(told.messages, responding.messages);
            ui::lemma_no_reasoning_started(told.messages, thinking.messages);
            match item {
                StreamItem::Text(text) => {
                    ui::lemma_no_reasoning_started(
                        responding.messages,
                        responding.streamed(message, text@).messages,
                    );
                },
                StreamItem::ReasoningDelta { id, reasoning } => {
                    ui::lemma_reasoning_streamed(thinking, id@, reasoning@, None, now);
                },
                StreamItem::Reasoning { id, content } => {
                    ui::lemma_reasoning_streamed(
                        thinking,
                        id@,
                        Seq::empty(),
                        thinking::reasoned(content@),
                        now,
                    );
                },
                _ => {},
            }
        },
        TurnEvent::FinalResponse => {},
        TurnEvent::Failed { reports } => {
            lemma_reports_keep_one_unfinished(ui, reports@);
            let told = all_reported(ui, reports@);
            ui::lemma_thinking_finished(told, now);
            ui::lemma_no_reasoning_started(told.messages, told.thinking_finished(now).messages);
        },
        TurnEvent::Ended { reports } => {
            lemma_reports_keep_one_unfinished(ui, reports@);
            let told = all_reported(ui, reports@);
            ui::lemma_thinking_finished(told, now);
            ui::lemma_no_reasoning_started(told.messages, told.thinking_finished(now).messages);
        },
    }
}

/// Reports are taken in one after the other, in their order.
pub proof fn reports_are_taken_in_in_order(ui: UiModel, first: Seq<ToolEvent>, second: Seq<ToolEvent>)
    ensures
        all_reported(ui, first + second) == all_reported(all_reported(ui, first), second),
    decreases second.len(),
{
    if second.len() == 0 {
        assert(first + second =~= first);
    } else {
        reports_are_taken_in_in_order(ui, first, second.drop_last());
        assert((first + second).drop_last() =~= first + second.drop_last());
        assert((first + second).last() == second.last());
    }
}

/// A call that starts is shown last: pending, under its identifier, with its label and its
/// arguments, since its start; and it ends the text that was streamed.
pub proof fn a_reported_start_shows_a_pending_call(
    ui: UiModel,
    message: Option<usize>,
    event: ToolEvent,
)
    ensures
        event matches ToolEvent::Start { id, label, args, started } ==> {
            let after = reported(ui, event).messages;
            let call = after.last()->Tools_0.last();
            &&& after.last() is Tools
            &&& ui::calls(after) == ui::calls(ui.in_phase(Phase::Working, started).messages) + 1
            &&& call.id == id && call.label == label@ && call.args == args@
            &&& call.started == Some(started)
            &&& call.detail == detail::detail_of(args@)
            &&& call.state is Pending
            &&& call.output is None && call.status is None
            &&& message_after(message, event) is None
        },
{
    if let ToolEvent::Start { id, label, args, started } = event {
        ui::a_new_call_is_the_last(
            ui.in_phase(Phase::Working, started),
            ToolModel::pending(id, label@, args@, started),
            (0, 0),
        );
    }
}

/// A call that is reported to have ended holds the error and the output of the report, and the
/// time. While another call is pending the phase stays; else the model thinks again.
pub proof fn a_reported_end_ends_its_call(ui: UiModel, event: ToolEvent, now: Instant)
    ensures
        event matches ToolEvent::Finish { id, error, output, duration, finished } ==> (
        ui::call_with_id(ui.messages, id) matches Some(place) ==> {
            let after = reported(ui, event);
            let before = ui::call_in(ui.messages, place);
            let call = ui::call_in(after.messages, place);
            &&& ui::holds_call(after.messages, place)
            &&& call.output == json::optional_view(output)
            &&& thinking::optional(error) matches Some(text) ==> call.state == StateModel::Failed(
                text,
                duration,
            )
            &&& error is None ==> call.state == StateModel::Done(duration)
            &&& call.label == before.label && call.args == before.args
            &&& ui::any_pending(after.messages) ==> after.activity == ui.activity
            &&& !ui::any_pending(after.messages) ==> (ui.activity matches Some((phase, since))
                ==> after.activity == Some((Phase::Thinking, since)))
        }),
{
    if let ToolEvent::Finish { id, error, output, duration, finished } = event {
        if ui::call_with_id(ui.messages, id) is Some {
            let done = ui.tool_finished(id, thinking::optional(error), json::optional_view(output), duration);
            let place = ui::call_with_id(ui.messages, id)->0;
            ui::calls_end_as_reported(
                ui,
                id,
                thinking::optional(error),
                json::optional_view(output),
                duration,
                now,
            );
            ui::lemma_call_with_id(ui.messages, id);
            lemma_phase_keeps_calls(done, Phase::Thinking, finished);
        }
    }
}

/// A new phase leaves every call as it is.
proof fn lemma_phase_keeps_calls(ui: UiModel, phase: Phase, at: Instant)
    ensures
        ui::any_pending(ui.in_phase(phase, at).messages) == ui::any_pending(ui.messages),
        forall|i: int|
            0 <= i < ui.messages.len() && ui.messages[i] is Tools ==> #[trigger] ui.in_phase(
                phase,
                at,
            ).messages[i] == ui.messages[i],
        ui.in_phase(phase, at).messages.len() == ui.messages.len(),
{
    ui::lemma_last_unfinished(ui.messages);
    let after = ui.in_phase(phase, at).messages;
    assert forall|i: int| 0 <= i < ui.messages.len() implies ui::has_pending(#[trigger] after[i])
        == ui::has_pending(ui.messages[i]) by {}
    if ui::any_pending(ui.messages) {
        let i = choose|i: int| 0 <= i < ui.messages.len() && ui::has_pending(#[trigger] ui.messages[i]);
        assert(ui::has_pending(after[i]));
    }
    if ui::any_pending(after) {
        let i = choose|i: int| 0 <= i < after.len() && ui::has_pending(#[trigger] after[i]);
        assert(ui::has_pending(ui.messages[i]));
    }
}

/// What the model streams as text goes on in the message where its text went last, or in a new
/// one; and there the next text goes.
pub proof fn text_goes_on_where_it_was(
    ui: UiModel,
    message: Option<usize>,
    text: String,
    now: Instant,
)
    requires
        has_place(ui, message),
        message matches Some(i) ==> ui.messages[i as int] is Assistant,
        ui.messages.len() <= usize::MAX,
    ensures
        ({
            let item = StreamItem::Text(text);
            let after = streamed_item(ui, message, item, now);
            let place = message_after_item(message, item, ui.messages.len());
            &&& place matches Some(i) && i < after.messages.len() && after.messages[i as int] is Assistant
            &&& message matches Some(i) ==> place == Some(i) && after.messages.len()
                == ui.messages.len() && after.messages[i as int]->Assistant_text
                == ui.messages[i as int]->Assistant_text + text@
            &&& message is None ==> after.messages.len() == ui.messages.len() + 1
                && after.messages[place->0 as int]->Assistant_text == text@
            &&& ui.activity matches Some((phase, since)) ==> after.activity == Some(
                (Phase::Responding, since),
            )
        }),
{
    lemma_phase_keeps_count(ui, Phase::Responding, now);
    ui::lemma_last_unfinished(ui.messages);
}

/// Reasoning that is streamed ends the text before it, the model thinks, and what it reasons is
/// the text of the reasoning.
pub proof fn reasoning_is_told_under_its_identifier(
    ui: UiModel,
    message: Option<usize>,
    item: StreamItem,
    now: Instant,
)
    ensures
        item matches StreamItem::ReasoningDelta { id, reasoning } ==> message_after_item(
            message,
            item,
            ui.messages.len(),
        ) is None && (reasoning@.len() > 0 ==> (ui::last_with_id(
            streamed_item(ui, message, item, now).messages,
            id@,
        ) matches Some(i) && (streamed_item(
            ui,
            message,
            item,
            now,
        ).messages[i]->Thinking_text matches Some(text) && ends_with_text(text, reasoning@)))),
        item matches StreamItem::Reasoning { id, content } ==> message_after_item(
            message,
            item,
            ui.messages.len(),
        ) is None && (ui::last_with_id(
            streamed_item(ui, message, item, now).messages,
            id@,
        ) matches Some(i) && streamed_item(ui, message, item, now).messages[i]->Thinking_text
            == thinking::reasoned(content@)),
{
    let thinking = ui.in_phase(Phase::Thinking, now);
    match item {
        StreamItem::ReasoningDelta { id, reasoning } => {
            ui::lemma_last_with_id(thinking.messages, id@);
            let after = streamed_item(ui, message, item, now).messages;
            if reasoning@.len() > 0 {
                match ui::last_with_id(thinking.messages, id@) {
                    Some(i) => {
                        lemma_reasoning_stays_last(
                            thinking.messages,
                            i,
                            ui::with_delta(thinking.messages[i], reasoning@),
                            id@,
                        );
                        if let Some(text) = thinking.messages[i]->Thinking_text {
                            assert((text + reasoning@).skip(text.len() as int) =~= reasoning@);
                        } else {
                            assert(reasoning@.skip(0) =~= reasoning@);
                        }
                    },
                    None => {
                        assert(after.last()->Thinking_id == id@);
                        assert(reasoning@.skip(0) =~= reasoning@);
                    },
                }
            }
        },
        StreamItem::Reasoning { id, content } => {
            ui::lemma_last_with_id(thinking.messages, id@);
            let after = streamed_item(ui, message, item, now).messages;
            match ui::last_with_id(thinking.messages, id@) {
                Some(i) => {
                    lemma_reasoning_stays_last(
                        thinking.messages,
                        i,
                        ui::with_text(thinking.messages[i], thinking::reasoned(content@)),
                        id@,
                    );
                },
                None => {
                    assert(after.last()->Thinking_id == id@);
                },
            }
        },
        _ => {},
    }
}

/// `text` ends in `end`.
pub open spec fn ends_with_text(text: Seq<char>, end: Seq<char>) -> bool {
    end.len() <= text.len() && text.skip(text.len() - end.len()) == end
}

proof fn lemma_reasoning_stays_last(
    messages: Seq<MessageModel>,
    i: int,
    message: MessageModel,
    id: Seq<char>,
)
    requires
        ui::last_with_id(messages, id) == Some(i),
        0 <= i < messages.len(),
        messages[i] is Thinking,
        message is Thinking,
        message->Thinking_id == messages[i]->Thinking_id,
    ensures
        ui::last_with_id(messages.update(i, message), id) == Some(i),
    decreases messages.len(),
{
    let after = messages.update(i, message);
    if i < messages.len() - 1 {
        assert(after.drop_last() =~= messages.drop_last().update(i, message));
        assert(after.last() == messages.last());
        lemma_reasoning_stays_last(messages.drop_last(), i, message, id);
    } else {
        ui::lemma_last_with_id(messages.drop_last(), id);
    }
}

/// What a completion took in is the context from then on, where that is known, and nothing else
/// of a turn is.
pub proof fn usage_tells_the_context(
    ui: UiModel,
    message: Option<usize>,
    item: StreamItem,
    now: Instant,
)
    ensures
        item matches StreamItem::Usage { input_tokens } ==> {
            let after = streamed_item(ui, message, item, now);
            &&& input_tokens > 0 ==> after.context == input_tokens
            &&& input_tokens == 0 ==> after == ui
            &&& after.messages == ui.messages
        },
        !(item is Usage) ==> streamed_item(ui, message, item, now).context == ui.context,
{
}

/// A turn ends well exactly where its stream ends after a final response has come; once come,
/// that is not forgotten. It fails where its stream fails, and where its stream ends without.
pub proof fn turns_end_with_their_final_response(
    ui: UiModel,
    turn: Turn,
    event: TurnEvent,
    now: Instant,
)
    ensures
        action_after(turn, event) == TurnAction::Finish <==> event is Ended && turn.final_response,
        action_after(turn, event) == TurnAction::FailWithoutResponse <==> event is Ended
            && !turn.final_response,
        action_after(turn, event) == TurnAction::Fail <==> event is Failed,
        turn_after(ui, turn, event, now).final_response <==> turn.final_response
            || event is FinalResponse,
        turn_after(ui, turn, event, now).escape == turn.escape,
{
}

/// However a stream ends, no reasoning goes on.
pub proof fn no_reasoning_outlasts_its_turn(ui: UiModel, turn: Turn, event: TurnEvent, now: Instant)
    requires
        ui::one_unfinished(ui.messages),
        event is Failed || event is Ended,
    ensures
        ui::all_thought(ui_after(ui, turn, event, now).messages),
{
    let reports = match event {
        TurnEvent::Failed { reports } => reports@,
        TurnEvent::Ended { reports } => reports@,
        _ => Seq::empty(),
    };
    lemma_reports_keep_one_unfinished(ui, reports);
    ui::lemma_thinking_finished(all_reported(ui, reports), now);
}

/// Whatever happens while a turn goes on is drawn, but for the final response; what the user has
/// done is handled whenever some time has passed.
pub proof fn what_happens_is_drawn(turn: Turn, event: TurnEvent)
    ensures
        action_after(turn, event) == TurnAction::PollAndDraw <==> event is Tick,
        action_after(turn, event) == TurnAction::Draw <==> event is Item,
        action_after(turn, event) == TurnAction::Wait <==> event is FinalResponse,
{
}

} // verus!
