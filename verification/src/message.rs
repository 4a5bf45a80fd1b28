//! The messages of a conversation, as they are shown and as they are saved.
use vstd::prelude::*;
use vstd::string::*;
use crate::clock;
use crate::clock::{duration_ms, Duration, Instant};
use crate::detail;
use crate::detail::tool_detail;
use crate::json;
use crate::json::{Json, JsonView};
use crate::thinking;

verus! {

// ---------- Tools ----------

/// Where a call of a tool stands.
#[derive(Debug)]
pub enum ToolState {
    Pending,
    Done(Duration),
    Failed(String, Duration),
}

/// What a `ToolState` holds.
pub enum StateModel {
    Pending,
    Done(Duration),
    Failed(Seq<char>, Duration),
}

impl View for ToolState {
    type V = StateModel;

    open spec fn view(&self) -> StateModel {
        match self {
            ToolState::Pending => StateModel::Pending,
            ToolState::Done(duration) => StateModel::Done(*duration),
            ToolState::Failed(error, duration) => StateModel::Failed(error@, *duration),
        }
    }
}

/// A call of a tool, as it is shown.
#[derive(Debug)]
pub struct ToolView {
    pub id: u64,
    pub started: Option<Instant>,
    pub label: String,
    pub detail: String,
    pub status: Option<String>,
    pub args: Json,
    pub output: Option<Json>,
    pub output_open: bool,
    pub output_preview: Option<String>,
    pub open: bool,
    pub state: ToolState,
}

/// What a `ToolView` holds.
#[verifier::ext_equal]
pub struct ToolModel {
    pub id: u64,
    pub started: Option<Instant>,
    pub label: Seq<char>,
    pub detail: Seq<char>,
    pub status: Option<Seq<char>>,
    pub args: JsonView,
    pub output: Option<JsonView>,
    pub output_open: bool,
    pub output_preview: Option<Seq<char>>,
    pub open: bool,
    pub state: StateModel,
}

impl View for ToolView {
    type V = ToolModel;

    open spec fn view(&self) -> ToolModel {
        ToolModel {
            id: self.id,
            started: self.started,
            label: self.label@,
            detail: self.detail@,
            status: thinking::optional(self.status),
            args: self.args@,
            output: json::optional_view(self.output),
            output_open: self.output_open,
            output_preview: thinking::optional(self.output_preview),
            open: self.open,
            state: self.state@,
        }
    }
}

impl ToolModel {
    /// A call that has just started.
    pub open spec fn pending(
        id: u64,
        label: Seq<char>,
        args: JsonView,
        started: Instant,
    ) -> ToolModel {
        ToolModel {
            id,
            started: Some(started),
            label,
            detail: detail::detail_of(args),
            status: None,
            args,
            output: None,
            output_open: false,
            output_preview: None,
            open: false,
            state: StateModel::Pending,
        }
    }

    /// How long the call has taken, or takes until now.
    pub open spec fn elapsed(self, now: Instant) -> Duration {
        match self.state {
            StateModel::Pending => match self.started {
                Some(started) => clock::between(started, now),
                None => Duration { nanos: 0 },
            },
            StateModel::Done(duration) => duration,
            StateModel::Failed(_, duration) => duration,
        }
    }

    /// When the call ended: now, while it is pending. Not known of a call whose start is not.
    pub open spec fn finished_at(self, now: Instant) -> Option<Instant> {
        match self.state {
            StateModel::Pending => Some(now),
            StateModel::Done(duration) => after(self.started, duration),
            StateModel::Failed(_, duration) => after(self.started, duration),
        }
    }

    /// The call once it has ended.
    pub open spec fn finished(
        self,
        error: Option<Seq<char>>,
        output: Option<JsonView>,
        duration: Duration,
    ) -> ToolModel {
        ToolModel {
            status: None,
            output,
            output_open: false,
            output_preview: None,
            state: match error {
                Some(error) => StateModel::Failed(error, duration),
                None => StateModel::Done(duration),
            },
            ..self
        }
    }
}

/// The moment `duration` after `started`, if there is one.
pub open spec fn after(started: Option<Instant>, duration: Duration) -> Option<Instant> {
    match started {
        Some(started) => if started.nanos + duration.nanos <= u128::MAX {
            Some(Instant { nanos: (started.nanos + duration.nanos) as u128 })
        } else {
            None
        },
        None => None,
    }
}

/// The moment `duration` after `started`, if there is one.
fn moment_after(started: Option<Instant>, duration: Duration) -> (r: Option<Instant>)
    ensures
        r == after(started, duration),
{
    match started {
        Some(started) => match started.nanos.checked_add(duration.nanos) {
            Some(nanos) => Some(Instant { nanos }),
            None => None,
        },
        None => None,
    }
}

impl ToolView {
    /// A call that has just started.
    pub fn pending(id: u64, label: &str, args: &Json, started: Instant) -> (r: ToolView)
        ensures
            r@ == ToolModel::pending(id, label@, args@, started),
    {
        ToolView {
            id,
            started: Some(started),
            label: label.to_owned(),
            detail: tool_detail(args),
            status: None,
            args: args.copy(),
            output: None,
            output_open: false,
            output_preview: None,
            open: false,
            state: ToolState::Pending,
        }
    }

    /// How long the call has taken, or takes until now.
    pub fn elapsed(&self, now: Instant) -> (r: Duration)
        ensures
            r == self@.elapsed(now),
    {
        match &self.state {
            ToolState::Pending => match self.started {
                Some(started) => now.duration_since(started),
                None => Duration { nanos: 0 },
            },
            ToolState::Done(duration) => *duration,
            ToolState::Failed(_, duration) => *duration,
        }
    }

    /// When the call ended: now, while it is pending.
    pub fn finished_at(&self, now: Instant) -> (r: Option<Instant>)
        ensures
            r == self@.finished_at(now),
    {
        match &self.state {
            ToolState::Pending => Some(now),
            ToolState::Done(duration) => moment_after(self.started, *duration),
            ToolState::Failed(_, duration) => moment_after(self.started, *duration),
        }
    }
}

// ---------- Messages ----------

/// One message of a conversation.
#[allow(inconsistent_fields)]
#[derive(Debug)]
pub enum Message {
    User(String),
    Assistant { text: String, metrics: Option<String> },
    Thinking {
        id: String,
        text: Option<String>,
        started: Option<Instant>,
        duration: Option<Duration>,
        open: bool,
    },
    Tools(Vec<ToolView>),
    Info(String),
    Error(String),
}

/// What a `Message` holds.
#[allow(inconsistent_fields)]
#[verifier::ext_equal]
pub enum MessageModel {
    User(Seq<char>),
    Assistant { text: Seq<char>, metrics: Option<Seq<char>> },
    Thinking {
        id: Seq<char>,
        text: Option<Seq<char>>,
        started: Option<Instant>,
        duration: Option<Duration>,
        open: bool,
    },
    Tools(Seq<ToolModel>),
    Info(Seq<char>),
    Error(Seq<char>),
}

/// What a list of calls holds.
pub open spec fn tool_models(tools: Seq<ToolView>) -> Seq<ToolModel> {
    Seq::new(tools.len(), |i: int| tools[i]@)
}

impl View for Message {
    type V = MessageModel;

    open spec fn view(&self) -> MessageModel {
        match self {
            Message::User(text) => MessageModel::User(text@),
            Message::Assistant { text, metrics } => MessageModel::Assistant {
                text: text@,
                metrics: thinking::optional(*metrics),
            },
            Message::Thinking { id, text, started, duration, open } => MessageModel::Thinking {
                id: id@,
                text: thinking::optional(*text),
                started: *started,
                duration: *duration,
                open: *open,
            },
            Message::Tools(tools) => MessageModel::Tools(tool_models(tools@)),
            Message::Info(text) => MessageModel::Info(text@),
            Message::Error(text) => MessageModel::Error(text@),
        }
    }
}

/// What a list of messages holds.
pub open spec fn message_models(messages: Seq<Message>) -> Seq<MessageModel> {
    Seq::new(messages.len(), |i: int| messages[i]@)
}

// ---------- Saved messages ----------

/// A call of a tool, as it is saved.
#[derive(Debug)]
pub struct SavedTool {
    pub label: String,
    pub args: Json,
    pub output: Option<Json>,
    pub error: Option<String>,
    pub duration_ms: u64,
}

/// What a `SavedTool` holds.
#[verifier::ext_equal]
pub struct SavedToolModel {
    pub label: Seq<char>,
    pub args: JsonView,
    pub output: Option<JsonView>,
    pub error: Option<Seq<char>>,
    pub duration_ms: u64,
}

impl View for SavedTool {
    type V = SavedToolModel;

    open spec fn view(&self) -> SavedToolModel {
        SavedToolModel {
            label: self.label@,
            args: self.args@,
            output: json::optional_view(self.output),
            error: thinking::optional(self.error),
            duration_ms: self.duration_ms,
        }
    }
}

/// One message, as it is saved.
#[allow(inconsistent_fields)]
#[derive(Debug)]
pub enum SavedMessage {
    User { text: String },
    Assistant { text: String, metrics: Option<String> },
    Thinking { id: String, text: Option<String>, duration_ms: u64 },
    Tools { tools: Vec<SavedTool> },
}

/// What a `SavedMessage` holds.
#[allow(inconsistent_fields)]
#[verifier::ext_equal]
pub enum SavedModel {
    User { text: Seq<char> },
    Assistant { text: Seq<char>, metrics: Option<Seq<char>> },
    Thinking { id: Seq<char>, text: Option<Seq<char>>, duration_ms: u64 },
    Tools { tools: Seq<SavedToolModel> },
}

/// What a list of saved calls holds.
pub open spec fn saved_tool_models(tools: Seq<SavedTool>) -> Seq<SavedToolModel> {
    Seq::new(tools.len(), |i: int| tools[i]@)
}

impl View for SavedMessage {
    type V = SavedModel;

    open spec fn view(&self) -> SavedModel {
        match self {
            SavedMessage::User { text } => SavedModel::User { text: text@ },
            SavedMessage::Assistant { text, metrics } => SavedModel::Assistant {
                text: text@,
                metrics: thinking::optional(*metrics),
            },
            SavedMessage::Thinking { id, text, duration_ms } => SavedModel::Thinking {
                id: id@,
                text: thinking::optional(*text),
                duration_ms: *duration_ms,
            },
            SavedMessage::Tools { tools } => SavedModel::Tools { tools: saved_tool_models(tools@) },
        }
    }
}

/// What a list of saved messages holds.
pub open spec fn saved_models(messages: Seq<SavedMessage>) -> Seq<SavedModel> {
    Seq::new(messages.len(), |i: int| messages[i]@)
}

/// Why a conversation cannot be saved.
#[derive(Debug, Clone, Copy, PartialEq, Eq, Structural)]
pub enum SaveError {
    UnfinishedReasoning,
    PendingTools,
}

impl SaveError {
    /// The message of the error.
    pub open spec fn text(self) -> Seq<char> {
        match self {
            SaveError::UnfinishedReasoning => "cannot save a session with unfinished reasoning"@,
            SaveError::PendingTools => "cannot save a session with pending tools"@,
        }
    }

    /// The message of the error.
    pub fn message(&self) -> (r: String)
        ensures
            r@ == self.text(),
    {
        match self {
            SaveError::UnfinishedReasoning =>
                "cannot save a session with unfinished reasoning".to_owned(),
            SaveError::PendingTools => "cannot save a session with pending tools".to_owned(),
        }
    }
}

// ---------- Saving ----------

/// A call that has ended, as it is saved.
pub open spec fn saved_tool(tool: ToolModel) -> Option<SavedToolModel> {
    match tool.state {
        StateModel::Pending => None,
        StateModel::Done(duration) => Some(
            SavedToolModel {
                label: tool.label,
                args: tool.args,
                output: tool.output,
                error: None,
                duration_ms: clock::millis_within(duration),
            },
        ),
        StateModel::Failed(error, duration) => Some(
            SavedToolModel {
                label: tool.label,
                args: tool.args,
                output: tool.output,
                error: Some(error),
                duration_ms: clock::millis_within(duration),
            },
        ),
    }
}

/// Calls that have all ended, as they are saved.
pub open spec fn saved_tools(tools: Seq<ToolModel>) -> Option<Seq<SavedToolModel>>
    decreases tools.len(),
{
    if tools.len() == 0 {
        Some(Seq::empty())
    } else {
        match (saved_tools(tools.drop_last()), saved_tool(tools.last())) {
            (Some(rest), Some(tool)) => Some(rest.push(tool)),
            _ => None,
        }
    }
}

/// The messages of a conversation, as they are saved: without information and errors. A
/// conversation with unfinished reasoning or pending tools is not saved; what comes first
/// is what is wrong with it.
pub open spec fn saved(messages: Seq<MessageModel>) -> Result<Seq<SavedModel>, SaveError>
    decreases messages.len(),
{
    if messages.len() == 0 {
        Ok(Seq::empty())
    } else {
        match saved(messages.drop_last()) {
            Err(error) => Err(error),
            Ok(rest) => match messages.last() {
                MessageModel::User(text) => Ok(rest.push(SavedModel::User { text })),
                MessageModel::Assistant { text, metrics } => Ok(
                    rest.push(SavedModel::Assistant { text, metrics }),
                ),
                MessageModel::Thinking { id, text, started, duration, open } => match duration {
                    Some(duration) => Ok(
                        rest.push(
                            SavedModel::Thinking { id, text, duration_ms: clock::millis_within(duration) },
                        ),
                    ),
                    None => Err(SaveError::UnfinishedReasoning),
                },
                MessageModel::Tools(tools) => match saved_tools(tools) {
                    Some(tools) => Ok(rest.push(SavedModel::Tools { tools })),
                    None => Err(SaveError::PendingTools),
                },
                MessageModel::Info(_) => Ok(rest),
                MessageModel::Error(_) => Ok(rest),
            },
        }
    }
}

/// What a result of saving holds.
pub open spec fn saved_result(r: Result<Vec<SavedMessage>, SaveError>) -> Result<
    Seq<SavedModel>,
    SaveError,
> {
    match r {
        Ok(messages) => Ok(saved_models(messages@)),
        Err(error) => Err(error),
    }
}

/// A copy of an optional value.
pub fn copy_optional(json: &Option<Json>) -> (r: Option<Json>)
    ensures
        json::optional_view(r) == json::optional_view(*json),
{
    match json {
        Some(json) => Some(json.copy()),
        None => None,
    }
}

/// A copy of an optional text.
pub fn clone_optional(text: &Option<String>) -> (r: Option<String>)
    ensures
        thinking::optional(r) == thinking::optional(*text),
{
    match text {
        Some(text) => Some(text.clone()),
        None => None,
    }
}

impl SavedTool {
    /// A call that has ended, as it is saved; a pending one is not.
    pub fn try_from(tool: &ToolView) -> (r: Result<SavedTool, SaveError>)
        ensures
            match saved_tool(tool@) {
                Some(model) => r matches Ok(tool) && tool@ == model,
                None => r matches Err(error) && error == SaveError::PendingTools,
            },
    {
        let (error, duration) = match &tool.state {
            ToolState::Pending => {
                return Err(SaveError::PendingTools);
            },
            ToolState::Done(duration) => (None, *duration),
            ToolState::Failed(error, duration) => (Some(error.clone()), *duration),
        };
        Ok(
            SavedTool {
                label: tool.label.clone(),
                args: tool.args.copy(),
                output: copy_optional(&tool.output),
                error,
                duration_ms: duration_ms(duration),
            },
        )
    }
}

proof fn lemma_unsaved(messages: Seq<MessageModel>, n: int)
    requires
        0 <= n <= messages.len(),
        saved(messages.take(n)) is Err,
    ensures
        saved(messages) == saved(messages.take(n)),
    decreases messages.len(),
{
    if n == messages.len() {
        assert(messages.take(n) =~= messages);
    } else {
        assert(messages.drop_last().take(n) =~= messages.take(n));
        lemma_unsaved(messages.drop_last(), n);
    }
}

proof fn lemma_unsaved_tools(tools: Seq<ToolModel>, n: int)
    requires
        0 <= n <= tools.len(),
        saved_tools(tools.take(n)) is None,
    ensures
        saved_tools(tools) is None,
    decreases tools.len(),
{
    if n == tools.len() {
        assert(tools.take(n) =~= tools);
    } else {
        assert(tools.drop_last().take(n) =~= tools.take(n));
        lemma_unsaved_tools(tools.drop_last(), n);
    }
}

/// Calls that have all ended, as they are saved.
fn save_tools(tools: &Vec<ToolView>) -> (r: Result<Vec<SavedTool>, SaveError>)
    ensures
        match saved_tools(tool_models(tools@)) {
            Some(models) => r matches Ok(saved) && saved_tool_models(saved@) == models,
            None => r matches Err(error) && error == SaveError::PendingTools,
        },
{
    let ghost models = tool_models(tools@);
    let mut out: Vec<SavedTool> = Vec::new();
    let mut i: usize = 0;
    assert(models.take(0) =~= Seq::empty());
    assert(saved_tool_models(out@) =~= Seq::empty());
    while i < tools.len()
        invariant
            i <= tools@.len(),
            models == tool_models(tools@),
            saved_tools(models.take(i as int)) == Some(saved_tool_models(out@)),
        decreases tools.len() - i,
    {
        let ghost earlier = saved_tool_models(out@);
        proof {
            assert(models.take(i + 1).drop_last() =~= models.take(i as int));
            assert(models.take(i + 1).last() == tools@[i as int]@);
        }
        match SavedTool::try_from(&tools[i]) {
            Ok(tool) => {
                out.push(tool);
                assert(saved_tool_models(out@) =~= earlier.push(tool@));
            },
            Err(error) => {
                proof {
                    lemma_unsaved_tools(models, i + 1);
                }
                return Err(error);
            },
        }
        i += 1;
    }
    assert(models.take(i as int) =~= models);
    Ok(out)
}

/// The messages of a conversation, as they are saved.
pub fn save_messages(messages: &Vec<Message>) -> (r: Result<Vec<SavedMessage>, SaveError>)
    ensures
        saved_result(r) == saved(message_models(messages@)),
{
    let ghost models = message_models(messages@);
    let mut out: Vec<SavedMessage> = Vec::new();
    let mut i: usize = 0;
    assert(models.take(0) =~= Seq::empty());
    assert(saved_models(out@) =~= Seq::empty());
    while i < messages.len()
        invariant
            i <= messages@.len(),
            models == message_models(messages@),
            saved(models.take(i as int)) == Ok::<_, SaveError>(saved_models(out@)),
        decreases messages.len() - i,
    {
        let ghost earlier = saved_models(out@);
        proof {
            assert(models.take(i + 1).drop_last() =~= models.take(i as int));
            assert(models.take(i + 1).last() == messages@[i as int]@);
        }
        let message: SavedMessage;
        match &messages[i] {
            Message::User(text) => {
                message = SavedMessage::User { text: text.clone() };
            },
            Message::Assistant { text, metrics } => {
                message =
                SavedMessage::Assistant { text: text.clone(), metrics: clone_optional(metrics) };
            },
            Message::Thinking { id, text, started, duration, open } => match duration {
                Some(duration) => {
                    message =
                    SavedMessage::Thinking {
                        id: id.clone(),
                        text: clone_optional(text),
                        duration_ms: duration_ms(*duration),
                    };
                },
                None => {
                    proof {
                        lemma_unsaved(models, i + 1);
                    }
                    return Err(SaveError::UnfinishedReasoning);
                },
            },
            Message::Tools(tools) => match save_tools(tools) {
                Ok(tools) => {
                    message = SavedMessage::Tools { tools };
                },
                Err(error) => {
                    proof {
                        lemma_unsaved(models, i + 1);
                    }
                    return Err(error);
                },
            },
            Message::Info(_) => {
                i += 1;
                continue ;
            },
            Message::Error(_) => {
                i += 1;
                continue ;
            },
        }
        out.push(message);
        assert(saved_models(out@) =~= earlier.push(message@));
        i += 1;
    }
    assert(models.take(i as int) =~= models);
    Ok(out)
}

// ---------- Restoring ----------

/// A saved call, as it is shown under the identifier `id`.
pub open spec fn restored_tool(tool: SavedToolModel, id: u64) -> ToolModel {
    let duration = Duration { nanos: (tool.duration_ms * 1_000_000) as u128 };
    ToolModel {
        id,
        started: None,
        label: tool.label,
        detail: detail::detail_of(tool.args),
        status: None,
        args: tool.args,
        output: tool.output,
        output_open: false,
        output_preview: None,
        open: false,
        state: match tool.error {
            Some(error) => StateModel::Failed(error, duration),
            None => StateModel::Done(duration),
        },
    }
}

/// The identifier `count` after `id`; after the greatest comes zero.
pub open spec fn later_id(id: u64, count: nat) -> u64 {
    ((id + count) % 0x1_0000_0000_0000_0000) as u64
}

/// Saved calls, as they are shown under identifiers from `id` on.
pub open spec fn restored_tools(tools: Seq<SavedToolModel>, id: u64) -> Seq<ToolModel> {
    Seq::new(tools.len(), |i: int| restored_tool(tools[i], later_id(id, i as nat)))
}

/// How many calls the messages hold.
pub open spec fn saved_calls(messages: Seq<SavedModel>) -> nat
    decreases messages.len(),
{
    if messages.len() == 0 {
        0
    } else {
        saved_calls(messages.drop_last()) + match messages.last() {
            SavedModel::Tools { tools } => tools.len(),
            _ => 0,
        }
    }
}

/// A saved message, as it is shown; its calls get identifiers from `id` on.
pub open spec fn restored_message(message: SavedModel, id: u64) -> MessageModel {
    match message {
        SavedModel::User { text } => MessageModel::User(text),
        SavedModel::Assistant { text, metrics } => MessageModel::Assistant { text, metrics },
        SavedModel::Thinking { id, text, duration_ms } => MessageModel::Thinking {
            id,
            text,
            started: None,
            duration: Some(Duration { nanos: (duration_ms * 1_000_000) as u128 }),
            open: false,
        },
        SavedModel::Tools { tools } => MessageModel::Tools(restored_tools(tools, id)),
    }
}

/// Saved messages, as they are shown; their calls get identifiers from `id` on.
pub open spec fn restored(messages: Seq<SavedModel>, id: u64) -> Seq<MessageModel> {
    Seq::new(
        messages.len(),
        |i: int| restored_message(messages[i], later_id(id, saved_calls(messages.take(i)))),
    )
}

impl ToolView {
    /// A saved call, as it is shown under the identifier `id`.
    pub fn from_saved(tool: SavedTool, id: u64) -> (r: ToolView)
        ensures
            r@ == restored_tool(tool@, id),
    {
        let duration = Duration::from_millis(tool.duration_ms);
        let state = match tool.error {
            Some(error) => ToolState::Failed(error, duration),
            None => ToolState::Done(duration),
        };
        ToolView {
            id,
            started: None,
            detail: tool_detail(&tool.args),
            label: tool.label,
            status: None,
            args: tool.args,
            output: tool.output,
            output_open: false,
            output_preview: None,
            open: false,
            state,
        }
    }
}

proof fn lemma_later_id(id: u64, a: nat, b: nat)
    ensures
        later_id(later_id(id, a), b) == later_id(id, a + b),
{
}

/// Saved calls, as they are shown; `next` is the next identifier.
fn restore_tools(tools: Vec<SavedTool>, next: &mut u64) -> (r: Vec<ToolView>)
    ensures
        tool_models(r@) == restored_tools(saved_tool_models(tools@), *old(next)),
        *final(next) == later_id(*old(next), tools@.len()),
{
    let ghost models = saved_tool_models(tools@);
    let ghost start = *next;
    let mut out: Vec<ToolView> = Vec::new();
    let mut rest = tools;
    let mut reversed: Vec<SavedTool> = Vec::new();
    while rest.len() > 0
        invariant
            rest@.len() + reversed@.len() == models.len(),
            forall|k: int| 0 <= k < rest@.len() ==> (#[trigger] rest@[k])@ == models[k],
            forall|k: int|
                0 <= k < reversed@.len() ==> (#[trigger] reversed@[k])@ == models[models.len() - 1
                    - k],
        decreases rest@.len(),
    {
        if let Some(tool) = rest.pop() {
            reversed.push(tool);
        }
    }
    while reversed.len() > 0
        invariant
            out@.len() + reversed@.len() == models.len(),
            *next == later_id(start, out@.len()),
            forall|k: int|
                0 <= k < reversed@.len() ==> (#[trigger] reversed@[k])@ == models[models.len() - 1
                    - k],
            forall|k: int|
                0 <= k < out@.len() ==> (#[trigger] out@[k])@ == restored_tool(
                    models[k],
                    later_id(start, k as nat),
                ),
        decreases reversed@.len(),
    {
        if let Some(tool) = reversed.pop() {
            let id: u64 = *next;
            proof {
                lemma_later_id(start, out@.len(), 1);
            }
            out.push(ToolView::from_saved(tool, id));
            *next = id.wrapping_add(1);
        }
    }
    assert(tool_models(out@) =~= restored_tools(models, start));
    out
}

/// Saved messages, as they are shown; `next` is the next identifier of a call.
pub fn restore_messages(messages: Vec<SavedMessage>, next: &mut u64) -> (r: Vec<Message>)
    ensures
        message_models(r@) == restored(saved_models(messages@), *old(next)),
        *final(next) == later_id(*old(next), saved_calls(saved_models(messages@))),
{
    let ghost models = saved_models(messages@);
    let ghost start = *next;
    let mut out: Vec<Message> = Vec::new();
    let mut rest = messages;
    let mut reversed: Vec<SavedMessage> = Vec::new();
    while rest.len() > 0
        invariant
            rest@.len() + reversed@.len() == models.len(),
            forall|k: int| 0 <= k < rest@.len() ==> (#[trigger] rest@[k])@ == models[k],
            forall|k: int|
                0 <= k < reversed@.len() ==> (#[trigger] reversed@[k])@ == models[models.len() - 1
                    - k],
        decreases rest@.len(),
    {
        if let Some(message) = rest.pop() {
            reversed.push(message);
        }
    }
    assert(models.take(0) =~= Seq::empty());
    while reversed.len() > 0
        invariant
            out@.len() + reversed@.len() == models.len(),
            *next == later_id(start, saved_calls(models.take(out@.len() as int))),
            forall|k: int|
                0 <= k < reversed@.len() ==> (#[trigger] reversed@[k])@ == models[models.len() - 1
                    - k],
            forall|k: int|
                0 <= k < out@.len() ==> (#[trigger] out@[k])@ == restored_message(
                    models[k],
                    later_id(start, saved_calls(models.take(k))),
                ),
        decreases reversed@.len(),
    {
        let ghost n = out@.len() as int;
        let ghost calls = saved_calls(models.take(n));
        proof {
            assert(models.take(n + 1).drop_last() =~= models.take(n));
            assert(models.take(n + 1).last() == models[n]);
        }
        if let Some(message) = reversed.pop() {
            let ghost model = message@;
            let shown = match message {
                SavedMessage::User { text } => Message::User(text),
                SavedMessage::Assistant { text, metrics } => Message::Assistant { text, metrics },
                SavedMessage::Thinking { id, text, duration_ms } => Message::Thinking {
                    id,
                    text,
                    started: None,
                    duration: Some(Duration::from_millis(duration_ms)),
                    open: false,
                },
                SavedMessage::Tools { tools } => {
                    proof {
                        lemma_later_id(start, calls, tools@.len());
                    }
                    Message::Tools(restore_tools(tools, next))
                },
            };
            assert(shown@ == restored_message(model, later_id(start, calls)));
            out.push(shown);
        }
    }
    assert(models.take(out@.len() as int) =~= models);
    assert(message_models(out@) =~= restored(models, start));
    out
}

// ---------- Laws ----------

proof fn lemma_save_restored_tools(tools: Seq<SavedToolModel>, id: u64)
    ensures
        saved_tools(restored_tools(tools, id)) == Some(tools),
    decreases tools.len(),
{
    let shown = restored_tools(tools, id);
    if tools.len() > 0 {
        let d = tools.drop_last();
        lemma_save_restored_tools(d, id);
        assert(shown.drop_last() =~= restored_tools(d, id));
        assert(d.push(tools.last()) =~= tools);
    } else {
        assert(tools =~= Seq::empty());
    }
}

/// What is restored can be saved, and is saved as it was.
pub proof fn saving_undoes_restoring(messages: Seq<SavedModel>, id: u64)
    ensures
        saved(restored(messages, id)) == Ok::<_, SaveError>(messages),
    decreases messages.len(),
{
    let shown = restored(messages, id);
    if messages.len() > 0 {
        let d = messages.drop_last();
        saving_undoes_restoring(d, id);
        assert forall|i: int| 0 <= i < d.len() implies shown[i] == restored(d, id)[i] by {
            assert(messages.take(i) =~= d.take(i));
        }
        assert(shown.drop_last() =~= restored(d, id));
        assert(d.push(messages.last()) =~= messages);
        if let SavedModel::Tools { tools } = messages.last() {
            lemma_save_restored_tools(
                tools,
                later_id(id, saved_calls(messages.take(messages.len() - 1))),
            );
        }
    } else {
        assert(messages =~= Seq::empty());
    }
}

/// A conversation can be saved exactly when no reasoning in it is unfinished and no call
/// pending.
pub proof fn saving_needs_finished_messages(messages: Seq<MessageModel>)
    ensures
        saved(messages) is Ok <==> forall|i: int|
            0 <= i < messages.len() ==> is_finished(#[trigger] messages[i]),
    decreases messages.len(),
{
    if messages.len() > 0 {
        let d = messages.drop_last();
        saving_needs_finished_messages(d);
        if let MessageModel::Tools(tools) = messages.last() {
            lemma_saved_tools(tools);
        }
        assert forall|i: int| 0 <= i < d.len() implies d[i] == messages[i] by {}
        if saved(messages) is Ok {
            assert forall|i: int| 0 <= i < messages.len() implies is_finished(
                #[trigger] messages[i],
            ) by {
                if i < d.len() {
                    assert(is_finished(d[i]));
                }
            }
        } else if forall|i: int| 0 <= i < messages.len() ==> is_finished(#[trigger] messages[i]) {
            assert forall|i: int| 0 <= i < d.len() implies is_finished(#[trigger] d[i]) by {
                assert(is_finished(messages[i]));
            }
            assert(is_finished(messages[messages.len() - 1]));
        }
    }
}

/// No reasoning in the message is unfinished, and no call pending.
pub open spec fn is_finished(message: MessageModel) -> bool {
    match message {
        MessageModel::Thinking { id, text, started, duration, open } => duration is Some,
        MessageModel::Tools(tools) => forall|i: int|
            0 <= i < tools.len() ==> !((#[trigger] tools[i]).state is Pending),
        _ => true,
    }
}

proof fn lemma_saved_tools(tools: Seq<ToolModel>)
    ensures
        saved_tools(tools) is Some <==> is_finished(MessageModel::Tools(tools)),
    decreases tools.len(),
{
    if tools.len() > 0 {
        let d = tools.drop_last();
        lemma_saved_tools(d);
        if saved_tools(tools) is Some {
            assert forall|i: int| 0 <= i < tools.len() implies !((
            #[trigger] tools[i]).state is Pending) by {
                if i < d.len() {
                    assert(!(d[i].state is Pending));
                }
            }
        } else if is_finished(MessageModel::Tools(tools)) {
            assert forall|i: int| 0 <= i < d.len() implies !((#[trigger] d[i]).state is Pending) by {
                assert(!(tools[i].state is Pending));
            }
            assert(!(tools[tools.len() - 1].state is Pending));
        }
    }
}

proof fn lemma_each_saved_tool(tools: Seq<ToolModel>, i: int)
    requires
        saved_tools(tools) is Some,
        0 <= i < tools.len(),
    ensures
        saved_tools(tools)->0.len() == tools.len(),
        saved_tool(tools[i]) == Some(saved_tools(tools)->0[i]),
    decreases tools.len(),
{
    let d = tools.drop_last();
    if i < d.len() {
        lemma_each_saved_tool(d, i);
    } else if d.len() > 0 {
        lemma_each_saved_tool(d, 0);
    }
}

proof fn lemma_saved_tools_len(tools: Seq<ToolModel>)
    requires
        saved_tools(tools) is Some,
    ensures
        saved_tools(tools)->0.len() == tools.len(),
    decreases tools.len(),
{
    if tools.len() > 0 {
        lemma_saved_tools_len(tools.drop_last());
    }
}

/// A span is saved in whole milliseconds, up to the greatest number.
pub open spec fn is_saved_span(ms: u64, duration: Duration) -> bool {
    ms == u64::MAX || ms * 1_000_000 <= duration.nanos < (ms + 1) * 1_000_000
}

/// A call is saved with all that is to be known of it: its label, its arguments, its output,
/// why it failed if it did, and the time it took.
pub open spec fn is_saved_call(saved: SavedToolModel, call: ToolModel) -> bool {
    &&& saved.label == call.label
    &&& saved.args == call.args
    &&& saved.output == call.output
    &&& call.state matches StateModel::Done(duration) ==> saved.error is None && is_saved_span(
        saved.duration_ms,
        duration,
    )
    &&& call.state matches StateModel::Failed(error, duration) ==> saved.error == Some(error)
        && is_saved_span(saved.duration_ms, duration)
}

/// What is said is saved as it is said, message by message and in order: texts with their
/// metrics, reasoning with its text and time, and calls with all that is to be known of them.
/// Only information and errors are left out.
pub proof fn each_message_is_saved_as_it_is(messages: Seq<MessageModel>, message: MessageModel)
    requires
        saved(messages) is Ok,
        is_finished(message),
    ensures
        saved(messages.push(message)) is Ok,
        ({
            let before = saved(messages)->Ok_0;
            let after = saved(messages.push(message))->Ok_0;
            &&& message is Info || message is Error ==> after == before
            &&& !(message is Info || message is Error) ==> after.len() == before.len() + 1
                && after.drop_last() == before
            &&& message matches MessageModel::User(text) ==> after.last() == SavedModel::User {
                text,
            }
            &&& message matches MessageModel::Assistant { text, metrics } ==> after.last()
                == SavedModel::Assistant { text, metrics }
            &&& message matches MessageModel::Thinking { id, text, started, duration, open } ==> (
            after.last() matches SavedModel::Thinking { id: i, text: t, duration_ms } && i == id && t
                == text && (duration matches Some(span) ==> is_saved_span(duration_ms, span)))
            &&& message matches MessageModel::Tools(tools) ==> (
            after.last() matches SavedModel::Tools { tools: calls } && calls.len() == tools.len() && (
            forall|k: int| 0 <= k < tools.len() ==> is_saved_call(#[trigger] calls[k], tools[k])))
        }),
{
    let all = messages.push(message);
    assert(all.drop_last() =~= messages);
    if let MessageModel::Tools(tools) = message {
        lemma_saved_tools(tools);
        lemma_saved_tools_len(tools);
        let calls = saved_tools(tools)->0;
        assert forall|k: int| 0 <= k < tools.len() implies is_saved_call(
            #[trigger] calls[k],
            tools[k],
        ) by {
            lemma_each_saved_tool(tools, k);
            assert(!(tools[k].state is Pending));
        }
    }
    let after = saved(all)->Ok_0;
    assert(after.len() > 0 ==> after.drop_last().push(after.last()) =~= after);
}

/// What was saved is shown as it was: every message with what it says, every call with its
/// label, arguments and output, its error if it failed, and its time.
pub proof fn each_saved_message_is_shown_as_it_was(messages: Seq<SavedModel>, id: u64, i: int)
    requires
        0 <= i < messages.len(),
    ensures
        ({
            let shown = restored(messages, id);
            &&& shown.len() == messages.len()
            &&& messages[i] matches SavedModel::User { text } ==> shown[i] == MessageModel::User(
                text,
            )
            &&& messages[i] matches SavedModel::Assistant { text, metrics } ==> shown[i]
                == MessageModel::Assistant { text, metrics }
            &&& messages[i] matches SavedModel::Thinking { id: of, text, duration_ms } ==> (
            shown[i] matches MessageModel::Thinking { id: o, text: t, started, duration, open } && o
                == of && t == text && (duration matches Some(span) && span.nanos == duration_ms
                * 1_000_000) && !open)
            &&& messages[i] matches SavedModel::Tools { tools } ==> (
            shown[i] matches MessageModel::Tools(calls) && calls.len() == tools.len() && (forall|
                k: int,
            |
                0 <= k < tools.len() ==> is_shown_call(#[trigger] calls[k], tools[k])))
        }),
{
}

/// A saved call is shown with all that was saved of it, as one that has ended, and closed.
pub open spec fn is_shown_call(call: ToolModel, saved: SavedToolModel) -> bool {
    &&& call.label == saved.label
    &&& call.args == saved.args
    &&& call.output == saved.output
    &&& call.detail == detail::detail_of(saved.args)
    &&& saved.error is None ==> (call.state matches StateModel::Done(span) && span.nanos
        == saved.duration_ms * 1_000_000)
    &&& saved.error matches Some(error) ==> (call.state matches StateModel::Failed(text, span)
        && text == error && span.nanos == saved.duration_ms * 1_000_000)
    &&& !call.open && !call.output_open
}

proof fn lemma_saved_calls_grow(messages: Seq<SavedModel>, i: int, j: int)
    requires
        0 <= i < j <= messages.len(),
    ensures
        saved_calls(messages.take(i)) + (match messages[i] {
            SavedModel::Tools { tools } => tools.len(),
            _ => 0,
        }) <= saved_calls(messages.take(j)),
    decreases j,
{
    assert(messages.take(j).drop_last() =~= messages.take(j - 1));
    assert(messages.take(j).last() == messages[j - 1]);
    if i < j - 1 {
        lemma_saved_calls_grow(messages, i, j - 1);
    }
}

/// Calls that are restored have identifiers of their own, none of which the next call gets.
pub proof fn restored_calls_have_identifiers_of_their_own(
    messages: Seq<SavedModel>,
    id: u64,
    i: int,
    k: int,
    j: int,
    l: int,
)
    requires
        id + saved_calls(messages) <= u64::MAX,
        0 <= i <= j < messages.len(),
        messages[i] is Tools && 0 <= k < messages[i]->Tools_tools.len(),
        messages[j] is Tools && 0 <= l < messages[j]->Tools_tools.len(),
        i == j ==> k < l,
    ensures
        ({
            let shown = restored(messages, id);
            &&& shown[i] is Tools && shown[j] is Tools
            &&& id <= shown[i]->Tools_0[k].id < shown[j]->Tools_0[l].id < later_id(
                id,
                saved_calls(messages),
            )
        }),
{
    assert(messages.take(messages.len() as int) =~= messages);
    lemma_saved_calls_grow(messages, j, messages.len() as int);
    if i < j {
        lemma_saved_calls_grow(messages, i, j);
    }
    let a = saved_calls(messages.take(i));
    let b = saved_calls(messages.take(j));
    assert(a + k < b + l < saved_calls(messages));
    lemma_small_id(id, a, k as nat);
    lemma_small_id(id, b, l as nat);
    lemma_small_id(id, saved_calls(messages), 0);
    let shown = restored(messages, id);
    assert(shown[i] == restored_message(messages[i], later_id(id, a)));
    assert(shown[j] == restored_message(messages[j], later_id(id, b)));
    assert(shown[i]->Tools_0[k].id == later_id(later_id(id, a), k as nat));
    assert(shown[j]->Tools_0[l].id == later_id(later_id(id, b), l as nat));
}

proof fn lemma_small_id(id: u64, a: nat, b: nat)
    requires
        id + a + b <= u64::MAX,
    ensures
        later_id(id, a) == id + a,
        later_id(later_id(id, a), b) == id + a + b,
{
}

/// A pending call has taken the time since its start; one that has ended the time it took, and
/// it ended that long after its start.
pub proof fn calls_take_their_time(tool: ToolModel, started: Instant, now: Instant)
    requires
        tool.started == Some(started),
        started.nanos <= now.nanos,
    ensures
        tool.state is Pending ==> tool.elapsed(now).nanos == now.nanos - started.nanos,
        tool.finished_at(now) matches Some(end) ==> end.nanos == started.nanos + tool.elapsed(
            now,
        ).nanos,
        tool.state is Pending ==> tool.finished_at(now) == Some(now),
{
}

} // verus!
