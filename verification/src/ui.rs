//! The state of the user interface.
use vstd::prelude::*;
use vstd::string::*;
use crate::clock;
use crate::clock::{Duration, Instant};
use crate::count;
use crate::count::{context_line, usage_summary, Usage};
use crate::detail;
use crate::detail::tool_output_preview;
use crate::input::{Input, InputModel};
use crate::json;
use crate::json::{Json, JsonView};
use crate::message;
use crate::message::{
    restore_messages, save_messages, Message, MessageModel, SaveError, SavedMessage, StateModel,
    ToolModel, ToolState, ToolView,
};
use crate::reply::ToolOutput;
use crate::screen;
use crate::screen::{Rect, Screen, ScreenModel};
use crate::text::same_text;
use crate::thinking;
use crate::thinking::{reasoning_text, thinking_parts, ReasoningContent};

verus! {

// ---------- State ----------

/// What the assistant is busy with.
#[derive(Debug, Clone, Copy, PartialEq, Eq, Structural)]
pub enum Phase {
    Thinking,
    Working,
    Responding,
}

impl Phase {
    /// The name of the phase.
    pub open spec fn name(self) -> Seq<char> {
        match self {
            Phase::Thinking => "Thinking"@,
            Phase::Working => "Working"@,
            Phase::Responding => "Responding"@,
        }
    }

    /// The name of the phase.
    pub fn label(&self) -> (r: &'static str)
        ensures
            r@ == self.name(),
    {
        match self {
            Phase::Thinking => "Thinking",
            Phase::Working => "Working",
            Phase::Responding => "Responding",
        }
    }
}

/// What a row of the chat belongs to.
#[derive(Debug, Clone, Copy, PartialEq, Eq, Structural)]
pub enum ChatRow {
    Thinking(usize),
    Tool(usize),
    ToolOutput(usize),
}

/// The state of the user interface.
#[derive(Debug)]
pub struct Ui {
    pub messages: Vec<Message>,
    pub input: Input,
    pub activity: Option<(Phase, Instant)>,
    pub thinking_since: Option<Instant>,
    pub session_label: String,
    pub context: u64,
    pub context_window: Option<u64>,
    pub scroll: u16,
    pub scroll_max: u16,
    pub follow_tail: bool,
    pub chat_area: Rect,
    pub chat_scroll: u16,
    pub chat_rows: Vec<Option<ChatRow>>,
    pub selection: Option<((u16, u16), (u16, u16))>,
    pub screen: Screen,
}

/// What a `Ui` holds.
#[verifier::ext_equal]
pub struct UiModel {
    pub messages: Seq<MessageModel>,
    pub input: InputModel,
    pub activity: Option<(Phase, Instant)>,
    pub thinking_since: Option<Instant>,
    pub session_label: Seq<char>,
    pub context: u64,
    pub context_window: Option<u64>,
    pub scroll: u16,
    pub scroll_max: u16,
    pub follow_tail: bool,
    pub chat_area: Rect,
    pub chat_scroll: u16,
    pub chat_rows: Seq<Option<ChatRow>>,
    pub selection: Option<((u16, u16), (u16, u16))>,
    pub screen: ScreenModel,
}

impl View for Ui {
    type V = UiModel;

    open spec fn view(&self) -> UiModel {
        UiModel {
            messages: message::message_models(self.messages@),
            input: self.input@,
            activity: self.activity,
            thinking_since: self.thinking_since,
            session_label: self.session_label@,
            context: self.context,
            context_window: self.context_window,
            scroll: self.scroll,
            scroll_max: self.scroll_max,
            follow_tail: self.follow_tail,
            chat_area: self.chat_area,
            chat_scroll: self.chat_scroll,
            chat_rows: self.chat_rows@,
            selection: self.selection,
            screen: self.screen@,
        }
    }
}

impl UiModel {
    /// The state at the start of a conversation.
    pub open spec fn fresh(session_label: Seq<char>, context_window: Option<u64>) -> UiModel {
        UiModel {
            messages: Seq::empty(),
            input: InputModel::empty(),
            activity: None,
            thinking_since: None,
            session_label,
            context: 0,
            context_window,
            scroll: 0,
            scroll_max: 0,
            follow_tail: true,
            chat_area: Rect::nothing(),
            chat_scroll: 0,
            chat_rows: Seq::empty(),
            selection: None,
            screen: ScreenModel { area: Rect::nothing(), cells: Seq::empty() },
        }
    }

    /// With `message` at the end.
    pub open spec fn pushed(self, message: MessageModel) -> UiModel {
        UiModel { messages: self.messages.push(message), ..self }
    }

    /// With `message` in place of message `i`.
    pub open spec fn replaced(self, i: int, message: MessageModel) -> UiModel {
        UiModel { messages: self.messages.update(i, message), ..self }
    }
}

impl Ui {
    /// The state at the start of a conversation.
    pub fn new(session_label: String, context_window: Option<u64>) -> (r: Ui)
        ensures
            r@ == UiModel::fresh(session_label@, context_window),
    {
        let messages: Vec<Message> = Vec::new();
        assert(message::message_models(messages@) =~= Seq::empty());
        Ui {
            messages,
            input: Input::new(),
            activity: None,
            thinking_since: None,
            session_label,
            context: 0,
            context_window,
            scroll: 0,
            scroll_max: 0,
            follow_tail: true,
            chat_area: Rect::empty(),
            chat_scroll: 0,
            chat_rows: Vec::new(),
            selection: None,
            screen: Screen::empty(),
        }
    }

    /// The state at the start of a resumed conversation; `next` is the next identifier of a
    /// call.
    pub fn from_saved(
        session_label: String,
        context_window: Option<u64>,
        messages: Vec<SavedMessage>,
        next: &mut u64,
    ) -> (r: Ui)
        ensures
            r@ == (UiModel {
                messages: message::restored(message::saved_models(messages@), *old(next)),
                ..UiModel::fresh(session_label@, context_window)
            }),
            *final(next) == message::later_id(*old(next), message::saved_calls(message::saved_models(messages@))),
    {
        let mut ui = Ui::new(session_label, context_window);
        ui.messages = restore_messages(messages, next);
        ui
    }

    /// Adds a message, and returns its position.
    pub fn push(&mut self, message: Message) -> (r: usize)
        ensures
            r == old(self)@.messages.len(),
            final(self)@ == old(self)@.pushed(message@),
    {
        self.messages.push(message);
        assert(message::message_models(self.messages@) =~= old(self)@.messages.push(message@));
        self.messages.len() - 1
    }

    /// Adds a message of the assistant, and returns its position.
    pub fn assistant(&mut self, text: &str) -> (r: usize)
        ensures
            r == old(self)@.messages.len(),
            final(self)@ == old(self)@.pushed(
                MessageModel::Assistant { text: text@, metrics: None },
            ),
    {
        self.push(Message::Assistant { text: text.to_owned(), metrics: None })
    }
}

// ---------- Streaming text ----------

impl UiModel {
    /// With `delta` at the end of the message of the assistant at `index`; where there is no
    /// index, in a new message.
    pub open spec fn streamed(self, index: Option<usize>, delta: Seq<char>) -> UiModel {
        match index {
            None => self.pushed(MessageModel::Assistant { text: delta, metrics: None }),
            Some(i) => match self.messages[i as int] {
                MessageModel::Assistant { text, metrics } => self.replaced(
                    i as int,
                    MessageModel::Assistant { text: text + delta, metrics },
                ),
                _ => self,
            },
        }
    }
}

impl Ui {
    /// Adds streamed text to the message at `index`, or to a new one, whose position becomes
    /// the index.
    pub fn assistant_delta(&mut self, index: &mut Option<usize>, delta: &str)
        requires
            *old(index) matches Some(i) ==> i < old(self)@.messages.len(),
        ensures
            final(self)@ == old(self)@.streamed(*old(index), delta@),
            *final(index) == (match *old(index) {
                Some(i) => Some(i),
                None => Some(old(self)@.messages.len() as usize),
            }),
    {
        match *index {
            None => {
                let i = self.assistant(delta);
                *index = Some(i);
            },
            Some(i) => {
                let ghost models = self@.messages;
                assert(models[i as int] == self.messages@[i as int]@);
                if let Message::Assistant { text, metrics } = &mut self.messages[i] {
                    text.append(delta);
                }
                assert(message::message_models(self.messages@) =~= old(self)@.streamed(
                    Some(i),
                    delta@,
                ).messages);
            },
        }
    }
}

// ---------- Reasoning ----------

/// The last reasoning with the identifier `id`.
pub open spec fn last_with_id(messages: Seq<MessageModel>, id: Seq<char>) -> Option<int>
    decreases messages.len(),
{
    if messages.len() == 0 {
        None
    } else if messages.last() is Thinking && messages.last()->Thinking_id == id {
        Some(messages.len() - 1)
    } else {
        last_with_id(messages.drop_last(), id)
    }
}

/// The message is reasoning that has not ended.
pub open spec fn is_open_thinking(message: MessageModel) -> bool {
    message is Thinking && message->Thinking_duration is None
}

/// The last reasoning that has not ended.
pub open spec fn last_unfinished(messages: Seq<MessageModel>) -> Option<int>
    decreases messages.len(),
{
    if messages.len() == 0 {
        None
    } else if is_open_thinking(messages.last()) {
        Some(messages.len() - 1)
    } else {
        last_unfinished(messages.drop_last())
    }
}

/// The reasoning, with its end at `at`; it has no duration if its start is not known, or is
/// later.
pub open spec fn ended(message: MessageModel, at: Instant) -> MessageModel {
    match message {
        MessageModel::Thinking { id, text, started, duration, open } => MessageModel::Thinking {
            id,
            text,
            started,
            duration: Some(
                match started {
                    Some(started) => clock::between(started, at),
                    None => Duration { nanos: 0 },
                },
            ),
            open,
        },
        other => other,
    }
}

/// A new reasoning.
pub open spec fn new_thinking(id: Seq<char>, text: Option<Seq<char>>, started: Instant) -> MessageModel {
    MessageModel::Thinking { id, text, started: Some(started), duration: None, open: false }
}

impl UiModel {
    /// With the last unfinished reasoning ended at `at`.
    pub open spec fn thinking_finished(self, at: Instant) -> UiModel {
        let done = match last_unfinished(self.messages) {
            Some(i) => self.replaced(i, ended(self.messages[i], at)),
            None => self,
        };
        UiModel { thinking_since: None, ..done }
    }

    /// Ready for a new reasoning: an unfinished one ends now.
    pub open spec fn reasoning_begun(self, now: Instant) -> UiModel {
        if last_unfinished(self.messages) is Some {
            UiModel { thinking_since: Some(now), ..self.thinking_finished(now) }
        } else {
            self
        }
    }

    /// When a reasoning that comes now has started.
    pub open spec fn reasoning_start(self, now: Instant) -> Instant {
        match self.reasoning_begun(now).thinking_since {
            Some(since) => since,
            None => now,
        }
    }

    /// With a new reasoning.
    pub open spec fn with_reasoning(
        self,
        id: Seq<char>,
        text: Option<Seq<char>>,
        now: Instant,
    ) -> UiModel {
        self.reasoning_begun(now).pushed(new_thinking(id, text, self.reasoning_start(now)))
    }

    /// With `delta` at the end of the reasoning `id`; where there is none yet, in a new one.
    pub open spec fn reasoning_streamed(
        self,
        id: Seq<char>,
        delta: Seq<char>,
        now: Instant,
    ) -> UiModel {
        if delta.len() == 0 {
            self
        } else {
            match last_with_id(self.messages, id) {
                Some(i) => self.replaced(i, with_delta(self.messages[i], delta)),
                None => self.with_reasoning(id, Some(delta), now),
            }
        }
    }

    /// With `text` as the text of the reasoning `id`; where there is none yet, in a new one.
    pub open spec fn reasoning_set(
        self,
        id: Seq<char>,
        text: Option<Seq<char>>,
        now: Instant,
    ) -> UiModel {
        match last_with_id(self.messages, id) {
            Some(i) => self.replaced(i, with_text(self.messages[i], text)),
            None => self.with_reasoning(id, text, now),
        }
    }
}

/// The reasoning with `delta` at the end of its text.
pub open spec fn with_delta(message: MessageModel, delta: Seq<char>) -> MessageModel {
    match message {
        MessageModel::Thinking { id, text, started, duration, open } => MessageModel::Thinking {
            id,
            text: Some(
                match text {
                    Some(text) => text + delta,
                    None => delta,
                },
            ),
            started,
            duration,
            open,
        },
        other => other,
    }
}

/// The reasoning with `text` as its text.
pub open spec fn with_text(message: MessageModel, new: Option<Seq<char>>) -> MessageModel {
    match message {
        MessageModel::Thinking { id, text, started, duration, open } => MessageModel::Thinking {
            id,
            text: new,
            started,
            duration,
            open,
        },
        other => other,
    }
}

impl Ui {
    /// The last reasoning with the identifier `id`.
    fn find_thinking(&self, id: &str) -> (r: Option<usize>)
        ensures
            r is Some <==> last_with_id(self@.messages, id@) is Some,
            r matches Some(i) ==> last_with_id(self@.messages, id@) == Some(i as int) && i
                < self.messages@.len() && self.messages@[i as int] is Thinking,
    {
        let ghost models = self@.messages;
        let mut i: usize = self.messages.len();
        assert(models.take(i as int) =~= models);
        while i > 0
            invariant
                i <= self.messages@.len(),
                models == message::message_models(self.messages@),
                last_with_id(models, id@) == last_with_id(models.take(i as int), id@),
            decreases i,
        {
            i -= 1;
            proof {
                assert(models.take(i + 1).last() == self.messages@[i as int]@);
                assert(models.take(i + 1).drop_last() =~= models.take(i as int));
            }
            if let Message::Thinking { id: current, text, started, duration, open } =
                &self.messages[i] {
                if same_text(current.as_str(), id) {
                    return Some(i);
                }
            }
        }
        None
    }

    /// The last reasoning that has not ended.
    fn find_unfinished(&self) -> (r: Option<usize>)
        ensures
            r is Some <==> last_unfinished(self@.messages) is Some,
            r matches Some(i) ==> last_unfinished(self@.messages) == Some(i as int) && i
                < self.messages@.len(),
    {
        let ghost models = self@.messages;
        let mut i: usize = self.messages.len();
        assert(models.take(i as int) =~= models);
        while i > 0
            invariant
                i <= self.messages@.len(),
                models == message::message_models(self.messages@),
                last_unfinished(models) == last_unfinished(models.take(i as int)),
            decreases i,
        {
            i -= 1;
            proof {
                assert(models.take(i + 1).last() == self.messages@[i as int]@);
                assert(models.take(i + 1).drop_last() =~= models.take(i as int));
            }
            if let Message::Thinking { id, text, started, duration, open } = &self.messages[i] {
                if duration.is_none() {
                    return Some(i);
                }
            }
        }
        None
    }

    /// Ends the last unfinished reasoning at `at`.
    pub fn finish_thinking_at(&mut self, at: Instant)
        ensures
            final(self)@ == old(self)@.thinking_finished(at),
    {
        if let Some(i) = self.find_unfinished() {
            assert(self@.messages[i as int] == self.messages@[i as int]@);
            if let Message::Thinking { id, text, started, duration, open } =
                &mut self.messages[i] {
                *duration = Some(
                    match *started {
                        Some(started) => at.duration_since(started),
                        None => Duration { nanos: 0 },
                    },
                );
            }
            assert(message::message_models(self.messages@) =~= old(self)@.thinking_finished(at).messages);
        }
        self.thinking_since = None;
    }

    /// Makes ready for a new reasoning, and returns when it has started.
    fn begin_reasoning(&mut self, now: Instant) -> (r: Instant)
        ensures
            final(self)@ == old(self)@.reasoning_begun(now),
            r == old(self)@.reasoning_start(now),
    {
        if self.find_unfinished().is_some() {
            self.finish_thinking_at(now);
            self.thinking_since = Some(now);
        }
        match self.thinking_since {
            Some(since) => since,
            None => now,
        }
    }

    /// Adds streamed text to the reasoning `id`.
    pub fn reasoning_delta(&mut self, id: &str, delta: &str, now: Instant)
        ensures
            final(self)@ == old(self)@.reasoning_streamed(id@, delta@, now),
    {
        if delta.unicode_len() == 0 {
            return ;
        }
        match self.find_thinking(id) {
            Some(i) => {
                assert(self@.messages[i as int] == self.messages@[i as int]@);
                if let Message::Thinking { id, text, started, duration, open } =
                    &mut self.messages[i] {
                    match text {
                        Some(text) => {
                            text.append(delta);
                        },
                        None => {
                            *text = Some(delta.to_owned());
                        },
                    }
                }
                assert(message::message_models(self.messages@) =~= old(self)@.reasoning_streamed(
                    id@,
                    delta@,
                    now,
                ).messages);
            },
            None => {
                let started = self.begin_reasoning(now);
                self.push(
                    Message::Thinking {
                        id: id.to_owned(),
                        text: Some(delta.to_owned()),
                        started: Some(started),
                        duration: None,
                        open: false,
                    },
                );
            },
        }
    }

    /// Sets the text of the reasoning `id`.
    pub fn reasoning(&mut self, id: &str, content: &Vec<ReasoningContent>, now: Instant)
        ensures
            final(self)@ == old(self)@.reasoning_set(id@, thinking::reasoned(content@), now),
    {
        let new = reasoning_text(content);
        match self.find_thinking(id) {
            Some(i) => {
                assert(self@.messages[i as int] == self.messages@[i as int]@);
                if let Message::Thinking { id, text, started, duration, open } =
                    &mut self.messages[i] {
                    *text = new;
                }
                assert(message::message_models(self.messages@) =~= old(self)@.reasoning_set(
                    id@,
                    thinking::reasoned(content@),
                    now,
                ).messages);
            },
            None => {
                let started = self.begin_reasoning(now);
                self.push(
                    Message::Thinking {
                        id: id.to_owned(),
                        text: new,
                        started: Some(started),
                        duration: None,
                        open: false,
                    },
                );
            },
        }
    }
}

// ---------- Activity ----------

impl UiModel {
    /// At the start of a turn.
    pub open spec fn begun(self, started: Instant) -> UiModel {
        UiModel {
            activity: Some((Phase::Thinking, started)),
            thinking_since: Some(started),
            ..self
        }
    }

    /// In the phase `phase` since `at`. A phase that goes on stays as it is; reasoning ends
    /// with the phase of thinking. Without activity there is no phase.
    pub open spec fn in_phase(self, phase: Phase, at: Instant) -> UiModel {
        match self.activity {
            Some((current, started)) => if current == phase {
                self
            } else {
                let before = if current == Phase::Thinking {
                    self.thinking_finished(at)
                } else {
                    self
                };
                UiModel {
                    thinking_since: if phase == Phase::Thinking {
                        Some(at)
                    } else {
                        None
                    },
                    activity: Some((phase, started)),
                    ..before
                }
            },
            None => UiModel {
                thinking_since: if phase == Phase::Thinking {
                    Some(at)
                } else {
                    None
                },
                ..self
            },
        }
    }
}

impl Ui {
    /// Starts a turn.
    pub fn begin(&mut self, started: Instant)
        ensures
            final(self)@ == old(self)@.begun(started),
    {
        self.activity = Some((Phase::Thinking, started));
        self.thinking_since = Some(started);
    }

    /// Enters a phase.
    pub fn phase_at(&mut self, phase: Phase, at: Instant)
        ensures
            final(self)@ == old(self)@.in_phase(phase, at),
    {
        if let Some((current, started)) = self.activity {
            if current == phase {
                return ;
            }
            if current == Phase::Thinking {
                self.finish_thinking_at(at);
            }
            self.activity = Some((phase, started));
        }
        self.thinking_since = if phase == Phase::Thinking {
            Some(at)
        } else {
            None
        };
    }
}

// ---------- Calls ----------

/// How many calls `messages` hold.
pub open spec fn calls(messages: Seq<MessageModel>) -> nat
    decreases messages.len(),
{
    if messages.len() == 0 {
        0
    } else {
        calls(messages.drop_last()) + match messages.last() {
            MessageModel::Tools(tools) => tools.len(),
            _ => 0,
        }
    }
}

/// Where call `index` stands: its message, and its position there.
pub open spec fn call_at(messages: Seq<MessageModel>, index: nat) -> Option<(int, int)>
    decreases messages.len(),
{
    if messages.len() == 0 {
        None
    } else if index < calls(messages.drop_last()) {
        call_at(messages.drop_last(), index)
    } else {
        match messages.last() {
            MessageModel::Tools(tools) => if index < calls(messages) {
                Some((messages.len() - 1, index - calls(messages.drop_last())))
            } else {
                None
            },
            _ => None,
        }
    }
}

/// The first call with the identifier `id` in a group.
pub open spec fn id_at(tools: Seq<ToolModel>, id: u64) -> Option<int>
    decreases tools.len(),
{
    if tools.len() == 0 {
        None
    } else {
        match id_at(tools.drop_last(), id) {
            Some(i) => Some(i),
            None => if tools.last().id == id {
                Some(tools.len() - 1)
            } else {
                None
            },
        }
    }
}

/// Where the first call with the identifier `id` stands.
pub open spec fn call_with_id(messages: Seq<MessageModel>, id: u64) -> Option<(int, int)>
    decreases messages.len(),
{
    if messages.len() == 0 {
        None
    } else {
        match call_with_id(messages.drop_last(), id) {
            Some(place) => Some(place),
            None => match messages.last() {
                MessageModel::Tools(tools) => match id_at(tools, id) {
                    Some(i) => Some((messages.len() - 1, i)),
                    None => None,
                },
                _ => None,
            },
        }
    }
}

/// The call at a place.
pub open spec fn call_in(messages: Seq<MessageModel>, place: (int, int)) -> ToolModel {
    messages[place.0]->Tools_0[place.1]
}

/// `messages` with `tool` as the call at a place.
pub open spec fn with_call(
    messages: Seq<MessageModel>,
    place: (int, int),
    tool: ToolModel,
) -> Seq<MessageModel> {
    messages.update(
        place.0,
        MessageModel::Tools(messages[place.0]->Tools_0.update(place.1, tool)),
    )
}

/// There is a call at the place.
pub open spec fn holds_call(messages: Seq<MessageModel>, place: (int, int)) -> bool {
    0 <= place.0 < messages.len() && messages[place.0] is Tools && 0 <= place.1
        < messages[place.0]->Tools_0.len()
}

proof fn lemma_call_at(messages: Seq<MessageModel>, index: nat)
    ensures
        call_at(messages, index) matches Some(place) ==> holds_call(messages, place),
        call_at(messages, index) is Some <==> index < calls(messages),
    decreases messages.len(),
{
    if messages.len() > 0 {
        lemma_call_at(messages.drop_last(), index);
    }
}

proof fn lemma_calls_grow(messages: Seq<MessageModel>, n: int)
    requires
        0 <= n <= messages.len(),
    ensures
        calls(messages.take(n)) <= calls(messages),
    decreases messages.len(),
{
    if n == messages.len() {
        assert(messages.take(n) =~= messages);
    } else {
        assert(messages.drop_last().take(n) =~= messages.take(n));
        lemma_calls_grow(messages.drop_last(), n);
    }
}

proof fn lemma_call_at_prefix(messages: Seq<MessageModel>, n: int, index: nat)
    requires
        0 <= n <= messages.len(),
        index < calls(messages.take(n)),
    ensures
        call_at(messages, index) == call_at(messages.take(n), index),
    decreases messages.len(),
{
    if n == messages.len() {
        assert(messages.take(n) =~= messages);
    } else {
        let d = messages.drop_last();
        assert(d.take(n) =~= messages.take(n));
        lemma_calls_grow(d, n);
        lemma_call_at_prefix(d, n, index);
    }
}

proof fn lemma_id_at(tools: Seq<ToolModel>, id: u64)
    ensures
        id_at(tools, id) matches Some(i) ==> 0 <= i < tools.len() && tools[i].id == id,
    decreases tools.len(),
{
    if tools.len() > 0 {
        lemma_id_at(tools.drop_last(), id);
    }
}

proof fn lemma_id_at_prefix(tools: Seq<ToolModel>, n: int, id: u64)
    requires
        0 <= n <= tools.len(),
        id_at(tools.take(n), id) is Some,
    ensures
        id_at(tools, id) == id_at(tools.take(n), id),
    decreases tools.len(),
{
    if n == tools.len() {
        assert(tools.take(n) =~= tools);
    } else {
        assert(tools.drop_last().take(n) =~= tools.take(n));
        lemma_id_at_prefix(tools.drop_last(), n, id);
    }
}

proof fn lemma_call_with_id_prefix(messages: Seq<MessageModel>, n: int, id: u64)
    requires
        0 <= n <= messages.len(),
        call_with_id(messages.take(n), id) is Some,
    ensures
        call_with_id(messages, id) == call_with_id(messages.take(n), id),
    decreases messages.len(),
{
    if n == messages.len() {
        assert(messages.take(n) =~= messages);
    } else {
        assert(messages.drop_last().take(n) =~= messages.take(n));
        lemma_call_with_id_prefix(messages.drop_last(), n, id);
    }
}

/// The place, as positions in the lists.
spec fn place_of(place: Option<(usize, usize)>) -> Option<(int, int)> {
    match place {
        Some((m, t)) => Some((m as int, t as int)),
        None => None,
    }
}

impl Ui {
    /// Where call `index` stands.
    fn find_call(&self, index: usize) -> (r: Option<(usize, usize)>)
        ensures
            place_of(r) == call_at(self@.messages, index as nat),
            r matches Some((m, t)) ==> holds_call(self@.messages, (m as int, t as int)),
    {
        let ghost models = self@.messages;
        let mut left: usize = index;
        let mut i: usize = 0;
        assert(models.take(0) =~= Seq::empty());
        while i < self.messages.len()
            invariant
                i <= self.messages@.len(),
                models == message::message_models(self.messages@),
                index == left + calls(models.take(i as int)),
            decreases self.messages.len() - i,
        {
            proof {
                assert(models.take(i + 1).drop_last() =~= models.take(i as int));
                assert(models.take(i + 1).last() == self.messages@[i as int]@);
            }
            if let Message::Tools(tools) = &self.messages[i] {
                if left < tools.len() {
                    proof {
                        assert(calls(models.take(i + 1)) == calls(models.take(i as int))
                            + tools@.len());
                        lemma_call_at_prefix(models, i + 1, index as nat);
                        lemma_call_at(models, index as nat);
                    }
                    return Some((i, left));
                }
                left -= tools.len();
            }
            i += 1;
        }
        proof {
            assert(models.take(i as int) =~= models);
            lemma_call_at(models, index as nat);
        }
        None
    }

    /// Where the first call with the identifier `id` stands.
    fn find_id(&self, id: u64) -> (r: Option<(usize, usize)>)
        ensures
            place_of(r) == call_with_id(self@.messages, id),
            r matches Some((m, t)) ==> holds_call(self@.messages, (m as int, t as int)),
    {
        let ghost models = self@.messages;
        let mut i: usize = 0;
        assert(models.take(0) =~= Seq::empty());
        while i < self.messages.len()
            invariant
                i <= self.messages@.len(),
                models == message::message_models(self.messages@),
                call_with_id(models.take(i as int), id) is None,
            decreases self.messages.len() - i,
        {
            proof {
                assert(models.take(i + 1).drop_last() =~= models.take(i as int));
                assert(models.take(i + 1).last() == self.messages@[i as int]@);
            }
            if let Message::Tools(tools) = &self.messages[i] {
                let ghost group = message::tool_models(tools@);
                let mut k: usize = 0;
                assert(group.take(0) =~= Seq::empty());
                while k < tools.len()
                    invariant
                        k <= tools@.len(),
                        i < self.messages@.len(),
                        models == message::message_models(self.messages@),
                        call_with_id(models.take(i as int), id) is None,
                        models.take(i + 1).drop_last() == models.take(i as int),
                        models.take(i + 1).last() == MessageModel::Tools(group),
                        self.messages@[i as int]@ == MessageModel::Tools(group),
                        group == message::tool_models(tools@),
                        id_at(group.take(k as int), id) is None,
                    decreases tools.len() - k,
                {
                    proof {
                        assert(group.take(k + 1).drop_last() =~= group.take(k as int));
                        assert(group.take(k + 1).last() == tools@[k as int]@);
                    }
                    if tools[k].id == id {
                        proof {
                            lemma_id_at_prefix(group, k + 1, id);
                            lemma_call_with_id_prefix(models, i + 1, id);
                            assert(models[i as int] == self.messages@[i as int]@);
                        }
                        return Some((i, k));
                    }
                    k += 1;
                }
                assert(group.take(k as int) =~= group);
            }
            i += 1;
        }
        assert(models.take(i as int) =~= models);
        None
    }
}

/// The last group of calls, where it is the last message; with `tool` added.
pub open spec fn with_new_call(messages: Seq<MessageModel>, tool: ToolModel) -> Seq<MessageModel> {
    if messages.len() > 0 && messages.last() is Tools {
        messages.update(
            messages.len() - 1,
            MessageModel::Tools(messages.last()->Tools_0.push(tool)),
        )
    } else {
        messages.push(MessageModel::Tools(seq![tool]))
    }
}

/// Every call of `messages` with its output closed.
pub open spec fn with_closed_outputs(messages: Seq<MessageModel>) -> Seq<MessageModel> {
    Seq::new(
        messages.len(),
        |i: int|
            match messages[i] {
                MessageModel::Tools(tools) => MessageModel::Tools(closed_outputs(tools)),
                other => other,
            },
    )
}

/// Every call of a group with its output closed.
pub open spec fn closed_outputs(tools: Seq<ToolModel>) -> Seq<ToolModel> {
    Seq::new(tools.len(), |k: int| ToolModel { output_open: false, ..tools[k] })
}

/// A call that is pending fails for `reason`, after the time that it took until now.
pub open spec fn given_up(tool: ToolModel, reason: Seq<char>, now: Instant) -> ToolModel {
    if tool.state is Pending {
        ToolModel {
            status: None,
            state: StateModel::Failed(
                reason,
                match tool.started {
                    Some(started) => clock::between(started, now),
                    None => Duration { nanos: 0 },
                },
            ),
            ..tool
        }
    } else {
        tool
    }
}

/// Every pending call of a group fails for `reason`.
pub open spec fn group_given_up(tools: Seq<ToolModel>, reason: Seq<char>, now: Instant) -> Seq<
    ToolModel,
> {
    Seq::new(tools.len(), |k: int| given_up(tools[k], reason, now))
}

/// Every pending call of `messages` fails for `reason`.
pub open spec fn all_given_up(
    messages: Seq<MessageModel>,
    reason: Seq<char>,
    now: Instant,
) -> Seq<MessageModel> {
    Seq::new(
        messages.len(),
        |i: int|
            match messages[i] {
                MessageModel::Tools(tools) => MessageModel::Tools(
                    group_given_up(tools, reason, now),
                ),
                other => other,
            },
    )
}

/// Some call of the message is pending.
pub open spec fn has_pending(message: MessageModel) -> bool {
    message matches MessageModel::Tools(tools) && exists|k: int|
        0 <= k < tools.len() && (#[trigger] tools[k]).state is Pending
}

/// Some call of `messages` is pending.
pub open spec fn any_pending(messages: Seq<MessageModel>) -> bool {
    exists|i: int| 0 <= i < messages.len() && has_pending(#[trigger] messages[i])
}

impl UiModel {
    /// With another call.
    pub open spec fn with_tool(self, tool: ToolModel) -> UiModel {
        UiModel { messages: with_new_call(self.messages, tool), ..self }
    }

    /// With another status of the call `id`.
    pub open spec fn tool_status(self, id: u64, status: Option<Seq<char>>) -> UiModel {
        match call_with_id(self.messages, id) {
            Some(place) => UiModel {
                messages: with_call(
                    self.messages,
                    place,
                    ToolModel { status, ..call_in(self.messages, place) },
                ),
                ..self
            },
            None => self,
        }
    }

    /// With the call `id` ended.
    pub open spec fn tool_finished(
        self,
        id: u64,
        error: Option<Seq<char>>,
        output: Option<JsonView>,
        duration: Duration,
    ) -> UiModel {
        match call_with_id(self.messages, id) {
            Some(place) => UiModel {
                messages: with_call(
                    self.messages,
                    place,
                    call_in(self.messages, place).finished(error, output, duration),
                ),
                ..self
            },
            None => self,
        }
    }

    /// With every pending call failed for `reason`.
    pub open spec fn tools_given_up(self, reason: Seq<char>, now: Instant) -> UiModel {
        UiModel { messages: all_given_up(self.messages, reason, now), ..self }
    }

    /// With call `index` opened or closed.
    pub open spec fn tool_toggled(self, index: nat) -> UiModel {
        match call_at(self.messages, index) {
            Some(place) => {
                let tool = call_in(self.messages, place);
                UiModel {
                    messages: with_call(
                        self.messages,
                        place,
                        ToolModel { open: !tool.open, ..tool },
                    ),
                    ..self
                }
            },
            None => self,
        }
    }

    /// The output of call `index` can be opened and closed: the call is open and has one.
    pub open spec fn has_output(self, index: nat) -> bool {
        call_at(self.messages, index) matches Some(place) && call_in(self.messages, place).open
            && call_in(self.messages, place).output is Some
    }

    /// With the output of call `index` opened, and every other closed; or with it closed.
    pub open spec fn output_toggled(self, index: nat) -> UiModel {
        if self.has_output(index) {
            let place = call_at(self.messages, index)->0;
            let tool = call_in(self.messages, place);
            let messages = if tool.output_open {
                with_call(self.messages, place, ToolModel { output_open: false, ..tool })
            } else {
                with_call(
                    with_closed_outputs(self.messages),
                    place,
                    ToolModel {
                        output_open: true,
                        output_preview: Some(detail::preview(json::json_pretty(tool.output->0))),
                        ..tool
                    },
                )
            };
            UiModel { messages, ..self }
        } else {
            self
        }
    }

    /// Reasoning `index` can be opened and closed: it has a body.
    pub open spec fn has_body(self, index: nat) -> bool {
        index < self.messages.len() && self.messages[index as int] is Thinking && thinking::parts(
            self.messages[index as int]->Thinking_text,
        ).1 is Some
    }

    /// With reasoning `index` opened or closed, where it has a body.
    pub open spec fn thinking_toggled(self, index: nat) -> UiModel {
        if self.has_body(index) {
            match self.messages[index as int] {
                MessageModel::Thinking { id, text, started, duration, open } => self.replaced(
                    index as int,
                    MessageModel::Thinking { id, text, started, duration, open: !open },
                ),
                _ => self,
            }
        } else {
            self
        }
    }
}

/// Closes the outputs of a group of calls.
fn close_outputs(tools: &mut Vec<ToolView>)
    ensures
        message::tool_models(final(tools)@) == closed_outputs(message::tool_models(old(tools)@)),
{
    let ghost start = message::tool_models(tools@);
    let mut k: usize = 0;
    while k < tools.len()
        invariant
            k <= tools@.len(),
            tools@.len() == start.len(),
            forall|j: int| 0 <= j < k ==> (#[trigger] tools@[j])@ == closed_outputs(start)[j],
            forall|j: int| k <= j < tools@.len() ==> (#[trigger] tools@[j])@ == start[j],
        decreases tools.len() - k,
    {
        let tool = &mut tools[k];
        tool.output_open = false;
        k += 1;
    }
    assert(message::tool_models(tools@) =~= closed_outputs(start));
}

/// Fails the pending calls of a group.
fn give_up_group(tools: &mut Vec<ToolView>, reason: &str, now: Instant)
    ensures
        message::tool_models(final(tools)@) == group_given_up(message::tool_models(old(tools)@), reason@, now),
{
    let ghost start = message::tool_models(tools@);
    let mut k: usize = 0;
    while k < tools.len()
        invariant
            k <= tools@.len(),
            tools@.len() == start.len(),
            forall|j: int|
                0 <= j < k ==> (#[trigger] tools@[j])@ == group_given_up(start, reason@, now)[j],
            forall|j: int| k <= j < tools@.len() ==> (#[trigger] tools@[j])@ == start[j],
        decreases tools.len() - k,
    {
        let duration = match tools[k].started {
            Some(started) => now.duration_since(started),
            None => Duration { nanos: 0 },
        };
        let pending = match &tools[k].state {
            ToolState::Pending => true,
            _ => false,
        };
        if pending {
            let tool = &mut tools[k];
            tool.status = None;
            tool.state = ToolState::Failed(reason.to_owned(), duration);
        }
        k += 1;
    }
    assert(message::tool_models(tools@) =~= group_given_up(start, reason@, now));
}

impl Ui {
    /// Adds a call.
    pub fn add_tool(&mut self, tool: ToolView)
        ensures
            final(self)@ == old(self)@.with_tool(tool@),
    {
        let n = self.messages.len();
        assert(n > 0 ==> self@.messages[n - 1] == self.messages@[n - 1]@);
        if n > 0 {
            if let Message::Tools(tools) = &mut self.messages[n - 1] {
                let ghost group = message::tool_models(tools@);
                tools.push(tool);
                assert(message::tool_models(tools@) =~= group.push(tool@));
                assert(message::message_models(self.messages@) =~= with_new_call(
                    old(self)@.messages,
                    tool@,
                ));
                return ;
            }
        }
        let mut group: Vec<ToolView> = Vec::new();
        group.push(tool);
        assert(message::tool_models(group@) =~= seq![tool@]);
        self.push(Message::Tools(group));
    }

    /// Sets the status of the call `id`.
    pub fn tool_status(&mut self, id: u64, status: Option<String>)
        ensures
            final(self)@ == old(self)@.tool_status(id, thinking::optional(status)),
    {
        let ghost models = self@.messages;
        if let Some((m, t)) = self.find_id(id) {
            assert(models[m as int] == self.messages@[m as int]@);
            if let Message::Tools(tools) = &mut self.messages[m] {
                let ghost group = message::tool_models(tools@);
                let tool = &mut tools[t];
                tool.status = status;
                assert(message::tool_models(tools@) =~= group.update(
                    t as int,
                    ToolModel { status: thinking::optional(status), ..group[t as int] },
                ));
            }
            assert(message::message_models(self.messages@) =~= old(self)@.tool_status(
                id,
                thinking::optional(status),
            ).messages);
        }
    }

    /// Ends the call `id`.
    pub fn finish_tool(
        &mut self,
        id: u64,
        error: Option<String>,
        output: Option<Json>,
        duration: Duration,
    )
        ensures
            final(self)@ == old(self)@.tool_finished(
                id,
                thinking::optional(error),
                json::optional_view(output),
                duration,
            ),
    {
        let ghost models = self@.messages;
        let ghost failure = thinking::optional(error);
        if let Some((m, t)) = self.find_id(id) {
            assert(models[m as int] == self.messages@[m as int]@);
            if let Message::Tools(tools) = &mut self.messages[m] {
                let ghost group = message::tool_models(tools@);
                let tool = &mut tools[t];
                tool.status = None;
                tool.output = output;
                tool.output_open = false;
                tool.output_preview = None;
                tool.state =
                match error {
                    Some(error) => ToolState::Failed(error, duration),
                    None => ToolState::Done(duration),
                };
                assert(message::tool_models(tools@) =~= group.update(
                    t as int,
                    group[t as int].finished(failure, json::optional_view(output), duration),
                ));
            }
            assert(message::message_models(self.messages@) =~= old(self)@.tool_finished(
                id,
                failure,
                json::optional_view(output),
                duration,
            ).messages);
        }
    }

    /// Tells whether some call is pending.
    pub fn has_pending_tools(&self) -> (r: bool)
        ensures
            r == any_pending(self@.messages),
    {
        let ghost models = self@.messages;
        let mut i: usize = 0;
        while i < self.messages.len()
            invariant
                i <= self.messages@.len(),
                models == message::message_models(self.messages@),
                forall|j: int| 0 <= j < i ==> !has_pending(#[trigger] models[j]),
            decreases self.messages.len() - i,
        {
            assert(models[i as int] == self.messages@[i as int]@);
            if let Message::Tools(tools) = &self.messages[i] {
                let ghost group = message::tool_models(tools@);
                let mut k: usize = 0;
                while k < tools.len()
                    invariant
                        k <= tools@.len(),
                        i < models.len(),
                        models == message::message_models(self.messages@),
                        models[i as int] == MessageModel::Tools(group),
                        group == message::tool_models(tools@),
                        forall|j: int| 0 <= j < k ==> !((#[trigger] group[j]).state is Pending),
                    decreases tools.len() - k,
                {
                    if let ToolState::Pending = &tools[k].state {
                        assert(group[k as int].state is Pending);
                        assert(has_pending(models[i as int]));
                        return true;
                    }
                    k += 1;
                }
            }
            i += 1;
        }
        false
    }

    /// Fails every pending call for `reason`.
    pub fn fail_pending_tools(&mut self, reason: &str, now: Instant)
        ensures
            final(self)@ == old(self)@.tools_given_up(reason@, now),
    {
        let ghost start = self@.messages;
        let mut i: usize = 0;
        while i < self.messages.len()
            invariant
                i <= self.messages@.len(),
                self.messages@.len() == start.len(),
                self@ == (UiModel { messages: message::message_models(self.messages@), ..old(self)@ }),
                forall|j: int|
                    0 <= j < i ==> (#[trigger] self.messages@[j])@ == all_given_up(
                        start,
                        reason@,
                        now,
                    )[j],
                forall|j: int|
                    i <= j < self.messages@.len() ==> (#[trigger] self.messages@[j])@ == start[j],
            decreases self.messages.len() - i,
        {
            if let Message::Tools(tools) = &mut self.messages[i] {
                give_up_group(tools, reason, now);
            }
            i += 1;
        }
        assert(message::message_models(self.messages@) =~= all_given_up(start, reason@, now));
    }

    /// Closes every output.
    fn close_all_outputs(&mut self)
        ensures
            final(self)@ == (UiModel {
                messages: with_closed_outputs(old(self)@.messages),
                ..old(self)@
            }),
    {
        let ghost start = self@.messages;
        let mut i: usize = 0;
        while i < self.messages.len()
            invariant
                i <= self.messages@.len(),
                self.messages@.len() == start.len(),
                self@ == (UiModel { messages: message::message_models(self.messages@), ..old(self)@ }),
                forall|j: int|
                    0 <= j < i ==> (#[trigger] self.messages@[j])@ == with_closed_outputs(start)[j],
                forall|j: int|
                    i <= j < self.messages@.len() ==> (#[trigger] self.messages@[j])@ == start[j],
            decreases self.messages.len() - i,
        {
            if let Message::Tools(tools) = &mut self.messages[i] {
                close_outputs(tools);
            }
            i += 1;
        }
        assert(message::message_models(self.messages@) =~= with_closed_outputs(start));
    }

    /// Opens or closes call `index`, and tells whether there is such a call.
    pub fn toggle_tool(&mut self, index: usize) -> (r: bool)
        ensures
            r == (call_at(old(self)@.messages, index as nat) is Some),
            final(self)@ == old(self)@.tool_toggled(index as nat),
    {
        let ghost models = self@.messages;
        match self.find_call(index) {
            Some((m, t)) => {
                assert(models[m as int] == self.messages@[m as int]@);
                if let Message::Tools(tools) = &mut self.messages[m] {
                    let ghost group = message::tool_models(tools@);
                    let tool = &mut tools[t];
                    tool.open = !tool.open;
                    assert(message::tool_models(tools@) =~= group.update(
                        t as int,
                        ToolModel { open: !group[t as int].open, ..group[t as int] },
                    ));
                }
                assert(message::message_models(self.messages@) =~= old(self)@.tool_toggled(
                    index as nat,
                ).messages);
                true
            },
            None => false,
        }
    }

    /// Opens or closes the output of call `index`, and tells whether it can be.
    pub fn toggle_tool_output(&mut self, index: usize) -> (r: bool)
        ensures
            r == old(self)@.has_output(index as nat),
            final(self)@ == old(self)@.output_toggled(index as nat),
    {
        let ghost models = self@.messages;
        let (m, t) = match self.find_call(index) {
            Some(place) => place,
            None => {
                return false;
            },
        };
        assert(models[m as int] == self.messages@[m as int]@);
        let opening = match &self.messages[m] {
            Message::Tools(tools) => {
                assert(message::tool_models(tools@)[t as int] == tools@[t as int]@);
                if !tools[t].open || tools[t].output.is_none() {
                    return false;
                }
                !tools[t].output_open
            },
            _ => {
                return false;
            },
        };
        if opening {
            self.close_all_outputs();
        }
        let ghost middle = self@.messages;
        proof {
            assert(middle.len() == self.messages@.len());
            assert(middle == if opening {
                with_closed_outputs(models)
            } else {
                models
            });
            assert(holds_call(middle, (m as int, t as int)));
            assert(middle[m as int] == self.messages@[m as int]@);
        }
        if let Message::Tools(tools) = &mut self.messages[m] {
            let ghost group = message::tool_models(tools@);
            assert(group[t as int] == tools@[t as int]@);
            let tool = &mut tools[t];
            if opening {
                tool.output_preview =
                match &tool.output {
                    Some(output) => Some(tool_output_preview(output)),
                    None => None,
                };
            }
            tool.output_open = opening;
            assert(message::tool_models(tools@) =~= group.update(t as int, tools@[t as int]@));
        }
        assert(message::message_models(self.messages@) =~= old(self)@.output_toggled(
            index as nat,
        ).messages);
        true
    }

    /// Opens or closes reasoning `index`, and tells whether it can be.
    pub fn toggle_thinking(&mut self, index: usize) -> (r: bool)
        ensures
            r == old(self)@.has_body(index as nat),
            final(self)@ == old(self)@.thinking_toggled(index as nat),
    {
        if index >= self.messages.len() {
            return false;
        }
        assert(self@.messages[index as int] == self.messages@[index as int]@);
        match &self.messages[index] {
            Message::Thinking { id, text, started, duration, open } => {
                let body = match text {
                    Some(text) => thinking_parts(Some(text.as_str())).1,
                    None => thinking_parts(None).1,
                };
                if body.is_none() {
                    return false;
                }
            },
            _ => {
                return false;
            },
        }
        if let Message::Thinking { id, text, started, duration, open } = &mut self.messages[index] {
            *open = !*open;
        }
        assert(message::message_models(self.messages@) =~= old(self)@.thinking_toggled(
            index as nat,
        ).messages);
        true
    }
}

// ---------- Metrics ----------

/// The last message of the assistant from message `start` on.
pub open spec fn last_answer(messages: Seq<MessageModel>, start: nat) -> Option<int>
    decreases messages.len(),
{
    if messages.len() <= start {
        None
    } else if messages.last() is Assistant {
        Some(messages.len() - 1)
    } else {
        last_answer(messages.drop_last(), start)
    }
}

/// The message of the assistant with `account` as its metrics.
pub open spec fn with_metrics(message: MessageModel, account: Seq<char>) -> MessageModel {
    match message {
        MessageModel::Assistant { text, metrics } => MessageModel::Assistant {
            text,
            metrics: Some(account),
        },
        other => other,
    }
}

impl UiModel {
    /// With the account of a turn that took `usage` and `elapsed` and added the messages from
    /// message `start` on; the context is the input of the last completion where that is
    /// known, else that of the turn.
    pub open spec fn accounted(
        self,
        start: nat,
        usage: Usage,
        last_input: Option<u64>,
        elapsed: Duration,
    ) -> UiModel {
        let done = match last_answer(self.messages, start) {
            Some(i) => self.replaced(
                i,
                with_metrics(self.messages[i], count::turn_account(usage, elapsed)),
            ),
            None => self,
        };
        UiModel {
            context: match last_input {
                Some(tokens) => tokens,
                None => usage.input_tokens,
            },
            ..done
        }
    }
}

impl Ui {
    /// Takes note of what a turn took.
    pub fn metrics(
        &mut self,
        start: usize,
        usage: &Usage,
        last_input: Option<u64>,
        elapsed: Duration,
    )
        requires
            start <= old(self)@.messages.len(),
        ensures
            final(self)@ == old(self)@.accounted(start as nat, *usage, last_input, elapsed),
    {
        self.context =
        match last_input {
            Some(tokens) => tokens,
            None => usage.input_tokens,
        };
        let summary = usage_summary(usage, elapsed);
        let ghost models = self@.messages;
        let mut i: usize = self.messages.len();
        assert(models.take(i as int) =~= models);
        while i > start
            invariant
                start <= i <= self.messages@.len(),
                models == message::message_models(self.messages@),
                models == old(self)@.messages,
                self@ == (UiModel {
                    context: match last_input {
                        Some(tokens) => tokens,
                        None => usage.input_tokens,
                    },
                    ..old(self)@
                }),
                summary@ == count::turn_account(*usage, elapsed),
                last_answer(models, start as nat) == last_answer(
                    models.take(i as int),
                    start as nat,
                ),
            decreases i,
        {
            i -= 1;
            proof {
                assert(models.take(i + 1).last() == self.messages@[i as int]@);
                assert(models.take(i + 1).drop_last() =~= models.take(i as int));
            }
            if let Message::Assistant { text, metrics } = &mut self.messages[i] {
                *metrics = Some(summary);
                assert(message::message_models(self.messages@) =~= old(self)@.accounted(
                    start as nat,
                    *usage,
                    last_input,
                    elapsed,
                ).messages);
                return ;
            }
        }
    }

    /// The account of the context.
    pub fn context_title(&self) -> (r: String)
        requires
            self.context_window matches Some(window) ==> window > 0,
        ensures
            r@ == count::context_account(self@.context, self@.context_window),
    {
        context_line(self.context, self.context_window)
    }
}

// ---------- Scrolling ----------

impl UiModel {
    /// Scrolled up.
    pub open spec fn scrolled_up(self, amount: u16) -> UiModel {
        if self.scroll_max == 0 {
            self
        } else {
            let from = if self.follow_tail {
                self.scroll_max
            } else {
                self.scroll
            };
            UiModel {
                follow_tail: false,
                scroll: if from >= amount {
                    (from - amount) as u16
                } else {
                    0
                },
                ..self
            }
        }
    }

    /// Scrolled down, to the tail at most, which is then followed.
    pub open spec fn scrolled_down(self, amount: u16) -> UiModel {
        let to = screen::capped(self.scroll + amount);
        let scroll = if to < self.scroll_max {
            to
        } else {
            self.scroll_max
        };
        UiModel { scroll, follow_tail: scroll == self.scroll_max, ..self }
    }

    /// At the tail, which is followed.
    pub open spec fn at_tail(self) -> UiModel {
        UiModel { follow_tail: true, scroll: self.scroll_max, ..self }
    }
}

impl Ui {
    /// Scrolls up.
    pub fn scroll_up(&mut self, amount: u16)
        ensures
            final(self)@ == old(self)@.scrolled_up(amount),
    {
        if self.scroll_max == 0 {
            return ;
        }
        if self.follow_tail {
            self.scroll = self.scroll_max;
        }
        self.follow_tail = false;
        self.scroll = self.scroll.saturating_sub(amount);
    }

    /// Scrolls down, to the tail at most, which is then followed.
    pub fn scroll_down(&mut self, amount: u16)
        ensures
            final(self)@ == old(self)@.scrolled_down(amount),
    {
        let to: u16 = self.scroll.saturating_add(amount);
        self.scroll = if to < self.scroll_max {
            to
        } else {
            self.scroll_max
        };
        self.follow_tail = self.scroll == self.scroll_max;
    }

    /// Goes to the tail and follows it.
    pub fn follow_tail(&mut self)
        ensures
            final(self)@ == old(self)@.at_tail(),
    {
        self.follow_tail = true;
        self.scroll = self.scroll_max;
    }
}

/// What is scrolled up can be scrolled down again by as much, where it is not cut short at
/// the top.
pub proof fn scrolling_down_undoes_scrolling_up(ui: UiModel, amount: u16)
    requires
        ui.follow_tail,
        0 < amount <= ui.scroll_max,
    ensures
        ui.scrolled_up(amount).scrolled_down(amount) == ui.at_tail(),
{
}

/// However it is scrolled, the scroll stays within its limit.
pub proof fn scrolling_stays_within_the_limit(ui: UiModel, amount: u16)
    requires
        ui.scroll <= ui.scroll_max,
    ensures
        ui.scrolled_up(amount).scroll <= ui.scroll_max,
        ui.scrolled_down(amount).scroll <= ui.scroll_max,
        ui.at_tail().scroll <= ui.scroll_max,
{
}

// ---------- Input ----------

impl UiModel {
    /// With another input.
    pub open spec fn with_input(self, input: InputModel) -> UiModel {
        UiModel { input, ..self }
    }
}

impl Ui {
    /// Removes all that is typed.
    pub fn clear_input(&mut self)
        ensures
            final(self)@ == old(self)@.with_input(InputModel::empty()),
    {
        self.input.clear();
    }

    /// Inserts `text` at the cursor.
    pub fn insert_input(&mut self, text: &str)
        ensures
            final(self)@ == old(self)@.with_input(old(self)@.input.inserted(text@)),
    {
        self.input.insert(text);
    }

    /// Moves the cursor a line up or down, and tells whether there is more than one line.
    pub fn move_input_vertical(&mut self, down: bool) -> (r: bool)
        requires
            old(self)@.input.can_move(),
        ensures
            r == old(self)@.input.value.contains('\n'),
            final(self)@ == old(self)@.with_input(old(self)@.input.moved_vertically(down)),
    {
        self.input.move_vertical(down)
    }
}

// ---------- Looking things up ----------

impl UiModel {
    /// What the row of the chat at a position on the screen belongs to.
    pub open spec fn row_at(self, column: u16, row: u16) -> Option<ChatRow> {
        if self.chat_area.holds(column, row) {
            let at = screen::capped(self.chat_scroll + (row - self.chat_area.y)) as int;
            if at < self.chat_rows.len() {
                self.chat_rows[at]
            } else {
                None
            }
        } else {
            None
        }
    }

    /// The last answer of the assistant that is not empty.
    pub open spec fn last_text(self) -> Option<Seq<char>> {
        last_answer_text(self.messages)
    }
}

/// The last answer of the assistant that is not empty.
pub open spec fn last_answer_text(messages: Seq<MessageModel>) -> Option<Seq<char>>
    decreases messages.len(),
{
    if messages.len() == 0 {
        None
    } else {
        match messages.last() {
            MessageModel::Assistant { text, metrics } => if text.len() > 0 {
                Some(text)
            } else {
                last_answer_text(messages.drop_last())
            },
            _ => last_answer_text(messages.drop_last()),
        }
    }
}

impl Ui {
    /// What the row of the chat at a position on the screen belongs to.
    pub fn chat_row_at(&self, column: u16, row: u16) -> (r: Option<ChatRow>)
        ensures
            r == self@.row_at(column, row),
    {
        if !self.chat_area.contains(column, row) {
            return None;
        }
        let at: usize = self.chat_scroll.saturating_add(row - self.chat_area.y) as usize;
        if at < self.chat_rows.len() {
            self.chat_rows[at]
        } else {
            None
        }
    }

    /// The last answer of the assistant that is not empty.
    pub fn last_assistant(&self) -> (r: Option<&str>)
        ensures
            match r {
                Some(text) => self@.last_text() == Some(text@),
                None => self@.last_text() is None,
            },
    {
        let ghost models = self@.messages;
        let mut i: usize = self.messages.len();
        assert(models.take(i as int) =~= models);
        while i > 0
            invariant
                i <= self.messages@.len(),
                models == message::message_models(self.messages@),
                last_answer_text(models) == last_answer_text(models.take(i as int)),
            decreases i,
        {
            i -= 1;
            proof {
                assert(models.take(i + 1).last() == self.messages@[i as int]@);
                assert(models.take(i + 1).drop_last() =~= models.take(i as int));
            }
            if let Message::Assistant { text, metrics } = &self.messages[i] {
                if text.as_str().unicode_len() > 0 {
                    return Some(text.as_str());
                }
            }
        }
        None
    }

    /// The messages, as they are saved.
    pub fn saved_messages(&self) -> (r: Result<Vec<SavedMessage>, SaveError>)
        ensures
            message::saved_result(r) == message::saved(self@.messages),
    {
        save_messages(&self.messages)
    }
}

// ---------- Laws ----------

/// Once the pending calls are given up, none is pending.
pub proof fn no_call_is_pending_once_given_up(ui: UiModel, reason: Seq<char>, now: Instant)
    ensures
        !any_pending(ui.tools_given_up(reason, now).messages),
{
    let after = ui.tools_given_up(reason, now).messages;
    assert forall|i: int| 0 <= i < after.len() implies !has_pending(#[trigger] after[i]) by {
        if let MessageModel::Tools(tools) = after[i] {
            let before = ui.messages[i]->Tools_0;
            assert forall|k: int| 0 <= k < tools.len() implies !((
            #[trigger] tools[k]).state is Pending) by {
                assert(tools[k] == given_up(before[k], reason, now));
            }
        }
    }
}

/// Ending one call changes no other call, and no other message.
pub proof fn ending_a_call_leaves_the_others(
    ui: UiModel,
    id: u64,
    error: Option<Seq<char>>,
    output: Option<JsonView>,
    duration: Duration,
    place: (int, int),
)
    requires
        holds_call(ui.messages, place),
        call_with_id(ui.messages, id) != Some(place),
    ensures
        ({
            let after = ui.tool_finished(id, error, output, duration).messages;
            &&& after.len() == ui.messages.len()
            &&& holds_call(after, place)
            &&& call_in(after, place) == call_in(ui.messages, place)
            &&& forall|i: int|
                0 <= i < after.len() && !(ui.messages[i] is Tools) ==> #[trigger] after[i]
                    == ui.messages[i]
        }),
{
    lemma_call_with_id(ui.messages, id);
}

pub proof fn lemma_call_with_id(messages: Seq<MessageModel>, id: u64)
    ensures
        call_with_id(messages, id) matches Some(place) ==> holds_call(messages, place) && call_in(
            messages,
            place,
        ).id == id,
    decreases messages.len(),
{
    if messages.len() > 0 {
        lemma_call_with_id(messages.drop_last(), id);
        if let MessageModel::Tools(tools) = messages.last() {
            lemma_id_at(tools, id);
        }
    }
}

/// Ending a call leaves every call under its identifier.
proof fn lemma_ids_stay(
    messages: Seq<MessageModel>,
    place: (int, int),
    tool: ToolModel,
    id: u64,
)
    requires
        holds_call(messages, place),
        tool.id == call_in(messages, place).id,
    ensures
        call_with_id(with_call(messages, place, tool), id) == call_with_id(messages, id),
    decreases messages.len(),
{
    let after = with_call(messages, place, tool);
    let d = messages.drop_last();
    if place.0 < d.len() {
        assert(holds_call(d, place));
        lemma_ids_stay(d, place, tool, id);
        assert(after.drop_last() =~= with_call(d, place, tool));
    } else {
        assert(after.drop_last() =~= d);
        lemma_ids_stay_in_group(messages.last()->Tools_0, place.1, tool, id);
    }
}

proof fn lemma_ids_stay_in_group(tools: Seq<ToolModel>, at: int, tool: ToolModel, id: u64)
    requires
        0 <= at < tools.len(),
        tool.id == tools[at].id,
    ensures
        id_at(tools.update(at, tool), id) == id_at(tools, id),
    decreases tools.len(),
{
    let after = tools.update(at, tool);
    let d = tools.drop_last();
    if at < d.len() {
        lemma_ids_stay_in_group(d, at, tool, id);
        assert(after.drop_last() =~= d.update(at, tool));
    } else {
        assert(after.drop_last() =~= d);
    }
}

/// Two calls with different identifiers are ended the same way, whichever ends first.
pub proof fn calls_can_end_in_any_order(
    ui: UiModel,
    a: u64,
    b: u64,
    first: (Option<Seq<char>>, Option<JsonView>, Duration),
    second: (Option<Seq<char>>, Option<JsonView>, Duration),
)
    requires
        a != b,
    ensures
        ui.tool_finished(a, first.0, first.1, first.2).tool_finished(
            b,
            second.0,
            second.1,
            second.2,
        ) == ui.tool_finished(b, second.0, second.1, second.2).tool_finished(
            a,
            first.0,
            first.1,
            first.2,
        ),
{
    let messages = ui.messages;
    lemma_call_with_id(messages, a);
    lemma_call_with_id(messages, b);
    if let (Some(p), Some(q)) = (call_with_id(messages, a), call_with_id(messages, b)) {
        let x = call_in(messages, p).finished(first.0, first.1, first.2);
        let y = call_in(messages, q).finished(second.0, second.1, second.2);
        lemma_ids_stay(messages, p, x, b);
        lemma_ids_stay(messages, q, y, a);
        let xy = with_call(with_call(messages, p, x), q, y);
        let yx = with_call(with_call(messages, q, y), p, x);
        if p.0 == q.0 {
            assert(xy[p.0]->Tools_0 =~= yx[p.0]->Tools_0);
        }
        assert(xy =~= yx);
    } else if let Some(p) = call_with_id(messages, a) {
        lemma_ids_stay(messages, p, call_in(messages, p).finished(first.0, first.1, first.2), b);
    } else if let Some(q) = call_with_id(messages, b) {
        lemma_ids_stay(
            messages,
            q,
            call_in(messages, q).finished(second.0, second.1, second.2),
            a,
        );
    }
}

/// Opening an output leaves no other output open.
pub proof fn at_most_one_output_is_open(ui: UiModel, index: nat, place: (int, int))
    requires
        ui.has_output(index),
        !call_in(ui.messages, call_at(ui.messages, index)->0).output_open,
        holds_call(ui.messages, place),
        call_at(ui.messages, index) != Some(place),
    ensures
        !call_in(ui.output_toggled(index).messages, place).output_open,
        call_in(
            ui.output_toggled(index).messages,
            call_at(ui.messages, index)->0,
        ).output_open,
{
    lemma_call_at(ui.messages, index);
}

/// Opening a call and closing it again leaves everything as it was.
pub proof fn toggling_twice_changes_nothing(ui: UiModel, index: nat)
    ensures
        ui.tool_toggled(index).tool_toggled(index).messages == ui.messages,
{
    lemma_call_at(ui.messages, index);
    if let Some(place) = call_at(ui.messages, index) {
        let tool = call_in(ui.messages, place);
        let once = ui.tool_toggled(index);
        lemma_same_calls(ui.messages, once.messages, index);
        let twice = once.tool_toggled(index);
        assert(twice.messages[place.0]->Tools_0 =~= ui.messages[place.0]->Tools_0);
        assert(twice.messages =~= ui.messages);
    }
}

/// Messages with groups of the same sizes have their calls at the same places.
proof fn lemma_same_calls(a: Seq<MessageModel>, b: Seq<MessageModel>, index: nat)
    requires
        a.len() == b.len(),
        forall|i: int|
            #![trigger a[i]]
            #![trigger b[i]]
            0 <= i < a.len() ==> (a[i] is Tools <==> b[i] is Tools) && (a[i] is Tools ==> a[i]->Tools_0.len()
                == b[i]->Tools_0.len()),
    ensures
        calls(a) == calls(b),
        call_at(a, index) == call_at(b, index),
    decreases a.len(),
{
    if a.len() > 0 {
        let x = a.drop_last();
        let y = b.drop_last();
        assert forall|i: int|
            #![trigger x[i]]
            #![trigger y[i]]
            0 <= i < x.len() implies (x[i] is Tools <==> y[i] is Tools) && (x[i] is Tools
            ==> x[i]->Tools_0.len() == y[i]->Tools_0.len()) by {
            assert(x[i] == a[i]);
            assert(y[i] == b[i]);
        }
        lemma_same_calls(x, y, index);
        assert(a.last() == a[a.len() - 1]);
        assert(b.last() == b[b.len() - 1]);
    }
}

// ---------- Unfinished reasoning ----------

/// At most one reasoning has not ended.
pub open spec fn one_unfinished(messages: Seq<MessageModel>) -> bool {
    forall|i: int, j: int|
        0 <= i < j < messages.len() && #[trigger] is_open_thinking(messages[i])
            ==> !#[trigger] is_open_thinking(messages[j])
}

/// Every reasoning has ended.
pub open spec fn all_thought(messages: Seq<MessageModel>) -> bool {
    forall|i: int| 0 <= i < messages.len() ==> !#[trigger] is_open_thinking(messages[i])
}

/// Messages stay where they are, and no more of them are unfinished reasoning than before.
pub open spec fn starts_no_reasoning(
    before: Seq<MessageModel>,
    after: Seq<MessageModel>,
) -> bool {
    before.len() <= after.len() && forall|i: int|
        0 <= i < after.len() && #[trigger] is_open_thinking(after[i]) ==> i < before.len()
            && is_open_thinking(before[i])
}

/// Where no reasoning is started, no more of it is unfinished.
pub proof fn lemma_no_reasoning_started(before: Seq<MessageModel>, after: Seq<MessageModel>)
    requires
        starts_no_reasoning(before, after),
    ensures
        one_unfinished(before) ==> one_unfinished(after),
        all_thought(before) ==> all_thought(after),
{
    if one_unfinished(before) {
        assert forall|i: int, j: int|
            0 <= i < j < after.len() && #[trigger] is_open_thinking(after[i]) implies !(
        #[trigger] is_open_thinking(after[j])) by {
            if is_open_thinking(after[j]) {
                assert(is_open_thinking(before[i]) && is_open_thinking(before[j]));
            }
        }
    }
}

/// The last unfinished reasoning is one of the messages; without it there is none.
pub proof fn lemma_last_unfinished(messages: Seq<MessageModel>)
    ensures
        last_unfinished(messages) matches Some(i) ==> 0 <= i < messages.len() && is_open_thinking(
            messages[i],
        ),
        last_unfinished(messages) is None ==> all_thought(messages),
    decreases messages.len(),
{
    if messages.len() > 0 {
        let d = messages.drop_last();
        lemma_last_unfinished(d);
        if last_unfinished(messages) is None {
            assert forall|i: int| 0 <= i < messages.len() implies !(
            #[trigger] is_open_thinking(messages[i])) by {
                if i < d.len() {
                    assert(!is_open_thinking(d[i]));
                }
            }
        }
    }
}

/// Ending the last unfinished reasoning ends every one, where there is one at most.
pub proof fn lemma_thinking_finished(ui: UiModel, at: Instant)
    ensures
        starts_no_reasoning(ui.messages, ui.thinking_finished(at).messages),
        one_unfinished(ui.messages) ==> all_thought(ui.thinking_finished(at).messages),
{
    lemma_last_unfinished(ui.messages);
    let after = ui.thinking_finished(at).messages;
    if let Some(k) = last_unfinished(ui.messages) {
        if one_unfinished(ui.messages) {
            assert forall|i: int| 0 <= i < after.len() implies !(
            #[trigger] is_open_thinking(after[i])) by {
                if i < k {
                    assert(after[i] == ui.messages[i]);
                } else if i > k {
                    assert(after[i] == ui.messages[i]);
                }
            }
        }
    }
}

/// A new phase starts no reasoning.
pub proof fn lemma_phase_starts_no_reasoning(ui: UiModel, phase: Phase, at: Instant)
    ensures
        starts_no_reasoning(ui.messages, ui.in_phase(phase, at).messages),
{
    lemma_thinking_finished(ui, at);
}

/// The last reasoning with an identifier is one of the messages.
pub proof fn lemma_last_with_id(messages: Seq<MessageModel>, id: Seq<char>)
    ensures
        last_with_id(messages, id) matches Some(i) ==> 0 <= i < messages.len() && messages[i] is Thinking,
    decreases messages.len(),
{
    if messages.len() > 0 {
        lemma_last_with_id(messages.drop_last(), id);
    }
}

proof fn lemma_with_reasoning(ui: UiModel, id: Seq<char>, text: Option<Seq<char>>, now: Instant)
    requires
        one_unfinished(ui.messages),
    ensures
        one_unfinished(ui.with_reasoning(id, text, now).messages),
{
    lemma_last_unfinished(ui.messages);
    lemma_thinking_finished(ui, now);
    let begun = ui.reasoning_begun(now).messages;
    let after = ui.with_reasoning(id, text, now).messages;
    assert(all_thought(begun));
    assert forall|i: int, j: int|
        0 <= i < j < after.len() && #[trigger] is_open_thinking(after[i]) implies !(
    #[trigger] is_open_thinking(after[j])) by {
        assert(after[i] == begun[i]);
    }
}

/// However reasoning is streamed, at most one of it has not ended.
pub proof fn lemma_reasoning_streamed(
    ui: UiModel,
    id: Seq<char>,
    delta: Seq<char>,
    text: Option<Seq<char>>,
    now: Instant,
)
    requires
        one_unfinished(ui.messages),
    ensures
        one_unfinished(ui.reasoning_streamed(id, delta, now).messages),
        one_unfinished(ui.reasoning_set(id, text, now).messages),
{
    lemma_last_with_id(ui.messages, id);
    match last_with_id(ui.messages, id) {
        Some(i) => {
            lemma_no_reasoning_started(
                ui.messages,
                ui.messages.update(i, with_delta(ui.messages[i], delta)),
            );
            lemma_no_reasoning_started(
                ui.messages,
                ui.messages.update(i, with_text(ui.messages[i], text)),
            );
        },
        None => {
            lemma_with_reasoning(ui, id, Some(delta), now);
            lemma_with_reasoning(ui, id, text, now);
        },
    }
}

/// Opening and closing what is in a conversation leaves reasoning as unfinished as it was.
pub proof fn lemma_toggling_starts_no_reasoning(ui: UiModel, index: nat)
    ensures
        starts_no_reasoning(ui.messages, ui.tool_toggled(index).messages),
        starts_no_reasoning(ui.messages, ui.output_toggled(index).messages),
        starts_no_reasoning(ui.messages, ui.thinking_toggled(index).messages),
        ui.tool_toggled(index).messages.len() == ui.messages.len(),
        ui.output_toggled(index).messages.len() == ui.messages.len(),
        ui.thinking_toggled(index).messages.len() == ui.messages.len(),
{
    lemma_call_at(ui.messages, index);
    let closed = with_closed_outputs(ui.messages);
    if let Some(place) = call_at(ui.messages, index) {
        assert(holds_call(closed, place));
    }
}

// ---------- What is opened and closed ----------

/// Calls are numbered in the order of the conversation: the number of a call is that of the
/// calls before its message, and of those before it there.
pub proof fn calls_are_numbered_in_order(messages: Seq<MessageModel>, place: (int, int))
    requires
        holds_call(messages, place),
    ensures
        call_at(messages, (calls(messages.take(place.0)) + place.1) as nat) == Some(place),
        calls(messages.take(place.0)) + place.1 < calls(messages),
    decreases messages.len(),
{
    let d = messages.drop_last();
    if place.0 == d.len() {
        assert(messages.take(place.0) =~= d);
    } else {
        assert(holds_call(d, place));
        calls_are_numbered_in_order(d, place);
        assert(d.take(place.0) =~= messages.take(place.0));
    }
}

/// Opening or closing a call turns it alone: its output and what is shown of it stay, and so
/// does every other call and every other message.
pub proof fn toggling_a_call_turns_it_alone(ui: UiModel, place: (int, int), other: (int, int))
    requires
        holds_call(ui.messages, place),
        holds_call(ui.messages, other),
    ensures
        ({
            let number = (calls(ui.messages.take(place.0)) + place.1) as nat;
            let after = ui.tool_toggled(number);
            &&& after.messages.len() == ui.messages.len()
            &&& holds_call(after.messages, place) && holds_call(after.messages, other)
            &&& call_in(after.messages, place).open == !call_in(ui.messages, place).open
            &&& call_in(after.messages, place).output_open == call_in(ui.messages, place).output_open
            &&& call_in(after.messages, place).output == call_in(ui.messages, place).output
            &&& call_in(after.messages, place).state == call_in(ui.messages, place).state
            &&& other != place ==> call_in(after.messages, other) == call_in(ui.messages, other)
            &&& forall|i: int|
                0 <= i < after.messages.len() && i != place.0 ==> #[trigger] after.messages[i]
                    == ui.messages[i]
        }),
{
    calls_are_numbered_in_order(ui.messages, place);
}

/// Opening or closing the output of an open call leaves the call open and turns its output; an
/// output that is opened is shown as it is rendered. No other call is opened, closed or changed
/// but for its output, which is closed where this one opens.
pub proof fn toggling_an_output_leaves_its_call_open(
    ui: UiModel,
    place: (int, int),
    other: (int, int),
)
    requires
        holds_call(ui.messages, place),
        holds_call(ui.messages, other),
        call_in(ui.messages, place).open,
        call_in(ui.messages, place).output is Some,
    ensures
        ({
            let number = (calls(ui.messages.take(place.0)) + place.1) as nat;
            let after = ui.output_toggled(number);
            let tool = call_in(ui.messages, place);
            let turned = call_in(after.messages, place);
            &&& after.messages.len() == ui.messages.len()
            &&& holds_call(after.messages, place) && holds_call(after.messages, other)
            &&& turned.open
            &&& turned.output == tool.output
            &&& turned.output_open == !tool.output_open
            &&& turned.output_open ==> turned.output_preview == Some(
                detail::preview(json::json_pretty(tool.output->0)),
            )
            &&& turned.state == tool.state && turned.args == tool.args && turned.label == tool.label
            &&& other != place ==> call_in(after.messages, other) == (ToolModel {
                output_open: call_in(ui.messages, other).output_open && tool.output_open,
                ..call_in(ui.messages, other)
            })
            &&& forall|i: int|
                0 <= i < after.messages.len() && !(ui.messages[i] is Tools)
                    ==> #[trigger] after.messages[i] == ui.messages[i]
        }),
{
    calls_are_numbered_in_order(ui.messages, place);
    let closed = with_closed_outputs(ui.messages);
    assert(holds_call(closed, place));
    assert(holds_call(closed, other));
    let after = ui.output_toggled((calls(ui.messages.take(place.0)) + place.1) as nat).messages;
    if other != place {
        let tool = call_in(ui.messages, other);
        if call_in(ui.messages, place).output_open {
            assert(call_in(after, other) == tool);
        } else {
            assert(call_in(after, other) == (ToolModel { output_open: false, ..tool }));
        }
    }
}

/// Opening or closing a reasoning that has a body turns it alone.
pub proof fn toggling_a_reasoning_turns_it_alone(ui: UiModel, index: nat)
    requires
        ui.has_body(index),
    ensures
        ({
            let after = ui.thinking_toggled(index).messages;
            &&& after.len() == ui.messages.len()
            &&& after[index as int] is Thinking
            &&& after[index as int]->Thinking_open == !ui.messages[index as int]->Thinking_open
            &&& after[index as int]->Thinking_text == ui.messages[index as int]->Thinking_text
            &&& after[index as int]->Thinking_id == ui.messages[index as int]->Thinking_id
            &&& after[index as int]->Thinking_duration
                == ui.messages[index as int]->Thinking_duration
            &&& forall|i: int|
                0 <= i < after.len() && i != index ==> #[trigger] after[i] == ui.messages[i]
        }),
{
}

/// Text that is streamed goes behind what its message says, and nowhere else.
pub proof fn streamed_text_goes_behind_its_message(ui: UiModel, i: usize, delta: Seq<char>)
    requires
        i < ui.messages.len(),
        ui.messages[i as int] is Assistant,
    ensures
        ({
            let after = ui.streamed(Some(i), delta).messages;
            &&& after.len() == ui.messages.len()
            &&& after[i as int] matches MessageModel::Assistant { text, metrics } && text
                == ui.messages[i as int]->Assistant_text + delta && metrics
                == ui.messages[i as int]->Assistant_metrics
            &&& forall|k: int|
                0 <= k < after.len() && k != i ==> #[trigger] after[k] == ui.messages[k]
        }),
{
}

/// A call that starts is the last one, as it was handed in, and leaves all that was there.
pub proof fn a_new_call_is_the_last(ui: UiModel, tool: ToolModel, place: (int, int))
    ensures
        ({
            let after = ui.with_tool(tool).messages;
            &&& after.last() is Tools
            &&& after.last()->Tools_0.last() == tool
            &&& calls(after) == calls(ui.messages) + 1
            &&& call_at(after, calls(ui.messages)) == Some(
                (after.len() - 1, after.last()->Tools_0.len() - 1),
            )
            &&& holds_call(ui.messages, place) ==> holds_call(after, place) && call_in(after, place)
                == call_in(ui.messages, place)
            &&& forall|i: int|
                0 <= i < ui.messages.len() && !(ui.messages[i] is Tools) ==> #[trigger] after[i]
                    == ui.messages[i]
        }),
{
    let after = ui.with_tool(tool).messages;
    if ui.messages.len() > 0 && ui.messages.last() is Tools {
        assert(after.drop_last() =~= ui.messages.drop_last());
    } else {
        assert(after.drop_last() =~= ui.messages);
    }
}

proof fn lemma_id_is_found(tools: Seq<ToolModel>, k: int)
    requires
        0 <= k < tools.len(),
    ensures
        id_at(tools, tools[k].id) matches Some(i) && i <= k,
    decreases tools.len(),
{
    if k < tools.len() - 1 {
        lemma_id_is_found(tools.drop_last(), k);
    } else {
        lemma_id_at(tools.drop_last(), tools[k].id);
    }
}

/// Every call is found under its identifier: the first one that has it.
pub proof fn calls_are_found_by_their_identifier(messages: Seq<MessageModel>, place: (int, int))
    requires
        holds_call(messages, place),
    ensures
        call_with_id(messages, call_in(messages, place).id) matches Some(first) && holds_call(
            messages,
            first,
        ) && call_in(messages, first).id == call_in(messages, place).id && (first.0 < place.0 || (
        first.0 == place.0 && first.1 <= place.1)),
    decreases messages.len(),
{
    let id = call_in(messages, place).id;
    lemma_call_with_id(messages, id);
    if place.0 < messages.len() - 1 {
        calls_are_found_by_their_identifier(messages.drop_last(), place);
    } else {
        lemma_call_with_id(messages.drop_last(), id);
        lemma_id_is_found(messages.last()->Tools_0, place.1);
    }
}

/// A call that ends holds what is reported of it: the error or that there was none, the output
/// and the time; it stays what it was called, and with what.
pub proof fn calls_end_as_reported(
    ui: UiModel,
    id: u64,
    error: Option<Seq<char>>,
    output: Option<JsonView>,
    duration: Duration,
    now: Instant,
)
    requires
        call_with_id(ui.messages, id) is Some,
    ensures
        ({
            let place = call_with_id(ui.messages, id)->0;
            let before = call_in(ui.messages, place);
            let after = call_in(ui.tool_finished(id, error, output, duration).messages, place);
            &&& after.output == output
            &&& error matches Some(text) ==> after.state == StateModel::Failed(text, duration)
            &&& error is None ==> after.state == StateModel::Done(duration)
            &&& after.elapsed(now) == duration
            &&& after.status is None
            &&& after.id == before.id && after.label == before.label && after.args == before.args
            &&& after.detail == before.detail && after.started == before.started
            &&& after.open == before.open
        }),
{
    lemma_call_with_id(ui.messages, id);
}

/// A status is shown at its call until the next one, and changes nothing else of it.
pub proof fn statuses_reach_their_call(ui: UiModel, id: u64, status: Option<Seq<char>>)
    requires
        call_with_id(ui.messages, id) is Some,
    ensures
        ({
            let place = call_with_id(ui.messages, id)->0;
            let before = call_in(ui.messages, place);
            let after = call_in(ui.tool_status(id, status).messages, place);
            &&& after.status == status
            &&& after.state == before.state && after.output == before.output
            &&& after.id == before.id && after.label == before.label && after.args == before.args
        }),
{
    lemma_call_with_id(ui.messages, id);
}

/// A call that is given up fails for the reason, after the time since its start; one that has
/// ended stays as it is.
pub proof fn pending_calls_fail_for_the_reason(
    ui: UiModel,
    reason: Seq<char>,
    now: Instant,
    place: (int, int),
)
    requires
        holds_call(ui.messages, place),
    ensures
        ({
            let before = call_in(ui.messages, place);
            let after = call_in(ui.tools_given_up(reason, now).messages, place);
            &&& before.state is Pending ==> after.state == StateModel::Failed(
                reason,
                before.elapsed(now),
            )
            &&& !(before.state is Pending) ==> after == before
            &&& after.label == before.label && after.args == before.args && after.output
                == before.output
        }),
{
}

proof fn lemma_reasoning_is_found(messages: Seq<MessageModel>, i: int)
    requires
        0 <= i < messages.len(),
        messages[i] is Thinking,
    ensures
        last_with_id(messages, messages[i]->Thinking_id) matches Some(k) && i <= k < messages.len()
            && messages[k] is Thinking && messages[k]->Thinking_id == messages[i]->Thinking_id,
    decreases messages.len(),
{
    if i < messages.len() - 1 {
        lemma_reasoning_is_found(messages.drop_last(), i);
    }
}

/// A reasoning that goes on is added to: what is streamed stands behind what its last message
/// says, and nothing else changes.
pub proof fn streamed_reasoning_goes_behind_its_text(
    ui: UiModel,
    i: int,
    delta: Seq<char>,
    now: Instant,
)
    requires
        0 <= i < ui.messages.len(),
        ui.messages[i] is Thinking,
        delta.len() > 0,
        forall|k: int|
            i < k < ui.messages.len() && (#[trigger] ui.messages[k]) is Thinking
                ==> ui.messages[k]->Thinking_id != ui.messages[i]->Thinking_id,
    ensures
        ({
            let before = ui.messages[i];
            let after = ui.reasoning_streamed(before->Thinking_id, delta, now).messages;
            &&& after.len() == ui.messages.len()
            &&& forall|k: int|
                0 <= k < after.len() && k != i ==> #[trigger] after[k] == ui.messages[k]
            &&& after[i] is Thinking && after[i]->Thinking_id == before->Thinking_id
            &&& before->Thinking_text matches Some(text) ==> after[i]->Thinking_text == Some(
                text + delta,
            )
            &&& before->Thinking_text is None ==> after[i]->Thinking_text == Some(delta)
            &&& after[i]->Thinking_started == before->Thinking_started
            &&& after[i]->Thinking_duration == before->Thinking_duration
            &&& after[i]->Thinking_open == before->Thinking_open
        }),
{
    lemma_reasoning_is_found(ui.messages, i);
}

/// A reasoning that nothing was known of is a new message with what is streamed, since the
/// start of thinking where that is known, and still goes on.
pub proof fn new_reasoning_is_a_message_of_its_own(
    ui: UiModel,
    id: Seq<char>,
    delta: Seq<char>,
    now: Instant,
)
    requires
        delta.len() > 0,
        forall|k: int|
            0 <= k < ui.messages.len() && (#[trigger] ui.messages[k]) is Thinking
                ==> ui.messages[k]->Thinking_id != id,
    ensures
        ({
            let after = ui.reasoning_streamed(id, delta, now).messages;
            &&& after.len() == ui.messages.len() + 1
            &&& after.last() is Thinking
            &&& after.last()->Thinking_id == id
            &&& after.last()->Thinking_text == Some(delta)
            &&& after.last()->Thinking_duration is None
            &&& !after.last()->Thinking_open
            &&& all_thought(ui.messages) ==> after.last()->Thinking_started == Some(
                match ui.thinking_since {
                    Some(since) => since,
                    None => now,
                },
            )
            &&& all_thought(ui.messages) ==> after.drop_last() == ui.messages
        }),
{
    lemma_reasoning_is_not_found(ui.messages, id);
    lemma_last_unfinished(ui.messages);
    let after = ui.reasoning_streamed(id, delta, now).messages;
    if all_thought(ui.messages) {
        if let Some(i) = last_unfinished(ui.messages) {
            assert(is_open_thinking(ui.messages[i]));
        }
        assert(after.drop_last() =~= ui.messages);
    }
}

proof fn lemma_reasoning_is_not_found(messages: Seq<MessageModel>, id: Seq<char>)
    requires
        forall|k: int|
            0 <= k < messages.len() && (#[trigger] messages[k]) is Thinking
                ==> messages[k]->Thinking_id != id,
    ensures
        last_with_id(messages, id) is None,
    decreases messages.len(),
{
    if messages.len() > 0 {
        assert forall|k: int|
            0 <= k < messages.len() - 1 && (
            #[trigger] messages.drop_last()[k]) is Thinking implies messages.drop_last()[k]->Thinking_id
            != id by {
            assert(messages[k] is Thinking);
        }
        lemma_reasoning_is_not_found(messages.drop_last(), id);
        assert(messages[messages.len() - 1] == messages.last());
    }
}

/// A reasoning ends with the time since its start.
pub proof fn reasoning_ends_with_its_time(ui: UiModel, i: int, at: Instant)
    requires
        0 <= i < ui.messages.len(),
        is_open_thinking(ui.messages[i]),
        one_unfinished(ui.messages),
    ensures
        ({
            let before = ui.messages[i];
            let after = ui.thinking_finished(at).messages;
            &&& after.len() == ui.messages.len()
            &&& forall|k: int|
                0 <= k < after.len() && k != i ==> #[trigger] after[k] == ui.messages[k]
            &&& after[i] is Thinking
            &&& after[i]->Thinking_id == before->Thinking_id
            &&& after[i]->Thinking_text == before->Thinking_text
            &&& before->Thinking_started matches Some(started) ==> (
            after[i]->Thinking_duration matches Some(duration) && (started.nanos <= at.nanos
                ==> duration.nanos == at.nanos - started.nanos))
            &&& after[i]->Thinking_duration is Some
        }),
{
    lemma_last_unfinished(ui.messages);
    match last_unfinished(ui.messages) {
        Some(k) => {
            if k < i {
                assert(is_open_thinking(ui.messages[k]) && is_open_thinking(ui.messages[i]));
            } else if i < k {
                assert(is_open_thinking(ui.messages[i]) && is_open_thinking(ui.messages[k]));
            }
        },
        None => {},
    }
}

/// While something is done, its phase is the one that was entered last, and its start stays.
pub proof fn phases_follow_each_other(ui: UiModel, phase: Phase, at: Instant)
    ensures
        ui.activity matches Some((current, started)) ==> ui.in_phase(phase, at).activity == Some(
            (phase, started),
        ),
        ui.activity is None ==> ui.in_phase(phase, at).activity is None,
        ui.in_phase(phase, at).input == ui.input,
        ui.in_phase(phase, at).context == ui.context,
{
}

/// The answer that is found is the last one that says something.
pub proof fn the_last_answer_is_the_last_that_says_something(ui: UiModel, i: int)
    requires
        0 <= i < ui.messages.len(),
        ui.messages[i] is Assistant,
        ui.messages[i]->Assistant_text.len() > 0,
        forall|k: int|
            i < k < ui.messages.len() && (#[trigger] ui.messages[k]) is Assistant
                ==> ui.messages[k]->Assistant_text.len() == 0,
    ensures
        ui.last_text() == Some(ui.messages[i]->Assistant_text),
{
    lemma_last_answer_text(ui.messages, i);
}

proof fn lemma_last_answer_text(messages: Seq<MessageModel>, i: int)
    requires
        0 <= i < messages.len(),
        messages[i] is Assistant,
        messages[i]->Assistant_text.len() > 0,
        forall|k: int|
            i < k < messages.len() && (#[trigger] messages[k]) is Assistant
                ==> messages[k]->Assistant_text.len() == 0,
    ensures
        last_answer_text(messages) == Some(messages[i]->Assistant_text),
    decreases messages.len(),
{
    if i < messages.len() - 1 {
        let d = messages.drop_last();
        assert forall|k: int| i < k < d.len() && (#[trigger] d[k]) is Assistant implies d[k]->Assistant_text.len()
            == 0 by {
            assert(messages[k] is Assistant);
        }
        assert(messages[messages.len() - 1] == messages.last());
        lemma_last_answer_text(d, i);
    }
}

/// Where no answer says something, none is found.
pub proof fn without_an_answer_none_is_found(ui: UiModel)
    requires
        forall|k: int|
            0 <= k < ui.messages.len() && (#[trigger] ui.messages[k]) is Assistant
                ==> ui.messages[k]->Assistant_text.len() == 0,
    ensures
        ui.last_text() is None,
{
    lemma_no_answer_text(ui.messages);
}

proof fn lemma_no_answer_text(messages: Seq<MessageModel>)
    requires
        forall|k: int|
            0 <= k < messages.len() && (#[trigger] messages[k]) is Assistant
                ==> messages[k]->Assistant_text.len() == 0,
    ensures
        last_answer_text(messages) is None,
    decreases messages.len(),
{
    if messages.len() > 0 {
        let d = messages.drop_last();
        assert forall|k: int| 0 <= k < d.len() && (#[trigger] d[k]) is Assistant implies d[k]->Assistant_text.len()
            == 0 by {
            assert(messages[k] is Assistant);
        }
        assert(messages[messages.len() - 1] == messages.last());
        lemma_no_answer_text(d);
    }
}

/// The account of a turn stands at its last answer, whose text it leaves, and the context is
/// what the last completion took in, where that is known.
pub proof fn turns_are_accounted_at_their_last_answer(
    ui: UiModel,
    start: nat,
    i: int,
    usage: Usage,
    last_input: Option<u64>,
    elapsed: Duration,
)
    requires
        start <= i < ui.messages.len(),
        ui.messages[i] is Assistant,
        forall|k: int| i < k < ui.messages.len() ==> !((#[trigger] ui.messages[k]) is Assistant),
    ensures
        ({
            let after = ui.accounted(start, usage, last_input, elapsed);
            &&& after.messages.len() == ui.messages.len()
            &&& after.messages[i] is Assistant
            &&& after.messages[i]->Assistant_text == ui.messages[i]->Assistant_text
            &&& after.messages[i]->Assistant_metrics == Some(count::turn_account(usage, elapsed))
            &&& forall|k: int|
                0 <= k < after.messages.len() && k != i ==> #[trigger] after.messages[k]
                    == ui.messages[k]
            &&& last_input matches Some(tokens) ==> after.context == tokens
            &&& last_input is None ==> after.context == usage.input_tokens
        }),
{
    lemma_last_answer(ui.messages, start, i);
}

proof fn lemma_last_answer(messages: Seq<MessageModel>, start: nat, i: int)
    requires
        start <= i < messages.len(),
        messages[i] is Assistant,
        forall|k: int| i < k < messages.len() ==> !((#[trigger] messages[k]) is Assistant),
    ensures
        last_answer(messages, start) == Some(i),
    decreases messages.len(),
{
    if i < messages.len() - 1 {
        let d = messages.drop_last();
        assert forall|k: int| i < k < d.len() implies !((#[trigger] d[k]) is Assistant) by {
            assert(!(messages[k] is Assistant));
        }
        assert(!(messages[messages.len() - 1] is Assistant));
        lemma_last_answer(d, start, i);
    }
}

/// Scrolling goes by as many rows as it says, up to the ends; up from the tail where that is
/// followed, and down to where it is followed again.
pub proof fn scrolling_goes_by_its_amount(ui: UiModel, amount: u16)
    requires
        ui.scroll <= ui.scroll_max,
        ui.follow_tail ==> ui.scroll == ui.scroll_max,
        ui.scroll_max > 0,
    ensures
        amount <= ui.scroll ==> ui.scrolled_up(amount).scroll == ui.scroll - amount,
        amount > ui.scroll ==> ui.scrolled_up(amount).scroll == 0,
        !ui.scrolled_up(amount).follow_tail,
        ui.scroll + amount < ui.scroll_max ==> ui.scrolled_down(amount).scroll == ui.scroll + amount
            && !ui.scrolled_down(amount).follow_tail,
        ui.scroll + amount >= ui.scroll_max ==> ui.scrolled_down(amount) == ui.at_tail(),
        ui.at_tail().follow_tail && ui.at_tail().scroll == ui.scroll_max,
{
}

/// No two phases have the same name.
pub proof fn phases_have_names_of_their_own(a: Phase, b: Phase)
    ensures
        a.name() == b.name() ==> a == b,
{
    reveal_strlit("Thinking");
    reveal_strlit("Working");
    reveal_strlit("Responding");
    assert("Thinking"@[0] == 'T' && "Working"@[0] == 'W' && "Responding"@[0] == 'R');
}

/// A conversation starts with nothing said and nothing typed, at its tail.
pub proof fn conversations_start_empty(label: Seq<char>, window: Option<u64>, now: Instant)
    ensures
        ({
            let ui = UiModel::fresh(label, window);
            &&& ui.messages.len() == 0 && ui.input.value.len() == 0
            &&& ui.follow_tail && ui.activity is None && ui.selection is None
            &&& ui.session_label == label && ui.context_window == window && ui.context == 0
            &&& ui.begun(now).activity == Some((Phase::Thinking, now))
            &&& ui.begun(now).thinking_since == Some(now)
            &&& ui.begun(now).messages == ui.messages
        }),
{
}

} // verus!
