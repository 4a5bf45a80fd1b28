//! Calls of tools: how one proceeds from its request to its result.
use std::collections::HashMap;
use vstd::prelude::*;
use vstd::string::*;
use crate::budget;
use crate::clock::{task_poll_interval, Duration};
use crate::host::{HostModel, McpHost, ProgressRouter, ProgressToken};
use crate::json;
use crate::json::{compact_json, to_value, Json, JsonView};
use crate::message;
use crate::message::clone_optional;
use crate::reply;
use crate::reply::{
    encode_tool_result, mcp_tool_error_message, MAX_MODEL_TOOL_RESULT_BYTES,
    MAX_RAW_MCP_RESULT_BYTES, MAX_UI_TOOL_RESULT_BYTES, McpToolResult, OutputView, ReplyBlock,
    ReplyError, ToolOutput, ToolReply,
};
use crate::text;
use crate::text::{blank, push_decimal, same_text};
use crate::thinking;
use crate::turn::ToolEvent;

verus! {

broadcast use vstd::std_specs::hash::group_hash_axioms;

// ---------- Calls under way ----------

/// The calls under way, each with what it takes to cancel it, and the number of times that
/// calls were cancelled.
#[verifier::reject_recursive_types(C)]
pub struct ActiveCalls<C> {
    pub active: HashMap<u64, C>,
    pub cancel_epoch: u64,
}

impl<C> ActiveCalls<C> {
    /// No calls.
    pub fn new() -> (r: ActiveCalls<C>)
        ensures
            r.active@ == Map::<u64, C>::empty(),
            r.cancel_epoch == 0,
    {
        ActiveCalls { active: HashMap::new(), cancel_epoch: 0 }
    }

    /// Takes note of how the call `id` is cancelled.
    pub fn set_active(&mut self, id: u64, call: C)
        ensures
            final(self).active@ == old(self).active@.insert(id, call),
            final(self).cancel_epoch == old(self).cancel_epoch,
    {
        self.active.insert(id, call);
    }

    /// Forgets the call `id`.
    pub fn clear_active(&mut self, id: u64)
        ensures
            final(self).active@ == old(self).active@.remove(id),
            final(self).cancel_epoch == old(self).cancel_epoch,
    {
        self.active.remove(&id);
    }

    /// Tells whether calls were cancelled since `epoch`.
    pub fn was_cancelled(&self, epoch: u64) -> (r: bool)
        ensures
            r == (self.cancel_epoch != epoch),
    {
        self.cancel_epoch != epoch
    }

    /// Cancels the calls under way: gives them out and forgets them. A call that is about to
    /// get under way sees it by the epoch.
    pub fn cancel_calls(&mut self) -> (r: HashMap<u64, C>)
        ensures
            r@ == old(self).active@,
            final(self).active@ == Map::<u64, C>::empty(),
            final(self).cancel_epoch == message::later_id(old(self).cancel_epoch, 1),
    {
        self.cancel_epoch = self.cancel_epoch.wrapping_add(1);
        let mut calls: HashMap<u64, C> = HashMap::new();
        std::mem::swap(&mut calls, &mut self.active);
        calls
    }
}

/// Whoever took the epoch before a cancellation sees that there was one.
pub proof fn a_cancellation_is_seen(epoch: u64)
    ensures
        message::later_id(epoch, 1) != epoch,
{
}

/// Forgets a call that has ended, and takes the route of its progress away.
pub fn end_call<C>(
    calls: &mut ActiveCalls<C>,
    routes: &mut ProgressRouter,
    id: u64,
    token: &ProgressToken,
)
    ensures
        final(calls).active@ == old(calls).active@.remove(id),
        final(calls).cancel_epoch == old(calls).cancel_epoch,
        final(routes)@ == old(routes)@.remove(token@),
{
    calls.clear_active(id);
    routes.remove(token);
}

// ---------- Arguments ----------

/// The error of `serde_json` when a value is read as an object, which it is not.
pub uninterp spec fn object_error(v: JsonView) -> Seq<char>;

/// Reads `json` as an object with `serde_json::from_value`. There is an error exactly where
/// it is none; its text is named.
#[verifier::external_body]
fn read_object(json: &Json) -> (r: Result<(), String>)
    ensures
        r is Ok <==> json@ is Object,
        r matches Err(error) ==> error@ == object_error(json@),
{
    serde_json::from_value::<serde_json::Map<String, serde_json::Value>>(to_value(json))
        .map(|_| ())
        .map_err(|error| error.to_string())
}

/// What a request goes to: a server that is connected, with arguments in an object.
pub open spec fn request_error(host: HostModel, server: nat, arguments: JsonView) -> Option<
    Seq<char>,
> {
    if server >= host.services.len() {
        Some("unknown MCP server index "@ + text::decimal(server))
    } else if !(arguments is Object) {
        Some("MCP tool arguments must be an object: "@ + object_error(arguments))
    } else {
        None
    }
}

/// Starts a call of the tool `name` of server `server`.
pub fn start_call(
    host: &McpHost,
    id: u64,
    server: usize,
    name: &str,
    arguments: &Json,
    output_schema: Option<Json>,
) -> (r: Result<ToolCall, String>)
    ensures
        match request_error(host@, server as nat, arguments@) {
            Some(text) => r matches Err(error) && error@ == text,
            None => r matches Ok(call) && call.id == id && call.name@ == name@ && call.tasks
                == host@.services[server as int].tasks && call.output_schema == output_schema
                && call.stage@ == StageModel::Sending,
        },
{
    if server >= host.services.len() {
        let mut error = "unknown MCP server index ".to_owned();
        push_decimal(&mut error, server as u128);
        return Err(error);
    }
    match read_object(arguments) {
        Err(reason) => {
            let mut error = "MCP tool arguments must be an object: ".to_owned();
            error.append(reason.as_str());
            Err(error)
        },
        Ok(()) => {
            assert(host@.services[server as int] == host.services@[server as int]@);
            Ok(
                ToolCall {
                    id,
                    name: name.to_owned(),
                    tasks: host.services[server].tasks,
                    output_schema,
                    stage: CallStage::Sending,
                },
            )
        },
    }
}

// ---------- Stages ----------

/// Where a call stands.
#[allow(inconsistent_fields)]
#[derive(Debug)]
pub enum CallStage {
    /// Its request is being sent.
    Sending,
    /// Its request is sent, and it gets under way.
    Activating,
    /// It waits for the response.
    Awaiting,
    /// A task does its work, and gets under way.
    ActivatingTask { task_id: String, interval: Duration, status: String },
    /// It waits for its task; `status` is the last status that was reported.
    Polling { task_id: String, status: Option<String> },
    /// Its task, which asks for input, is being cancelled.
    CancellingTask { task_id: String, count: usize },
    /// It has ended.
    Done,
}

/// What a `CallStage` holds.
#[allow(inconsistent_fields)]
#[verifier::ext_equal]
pub enum StageModel {
    Sending,
    Activating,
    Awaiting,
    ActivatingTask { task_id: Seq<char>, interval: Duration, status: Seq<char> },
    Polling { task_id: Seq<char>, status: Option<Seq<char>> },
    CancellingTask { task_id: Seq<char>, count: usize },
    Done,
}

impl View for CallStage {
    type V = StageModel;

    open spec fn view(&self) -> StageModel {
        match self {
            CallStage::Sending => StageModel::Sending,
            CallStage::Activating => StageModel::Activating,
            CallStage::Awaiting => StageModel::Awaiting,
            CallStage::ActivatingTask { task_id, interval, status } => StageModel::ActivatingTask {
                task_id: task_id@,
                interval: *interval,
                status: status@,
            },
            CallStage::Polling { task_id, status } => StageModel::Polling {
                task_id: task_id@,
                status: thinking::optional(*status),
            },
            CallStage::CancellingTask { task_id, count } => StageModel::CancellingTask {
                task_id: task_id@,
                count: *count,
            },
            CallStage::Done => StageModel::Done,
        }
    }
}

/// A call of a tool.
#[derive(Debug)]
pub struct ToolCall {
    pub id: u64,
    pub name: String,
    /// Whether the server may answer with a task.
    pub tasks: bool,
    pub output_schema: Option<Json>,
    pub stage: CallStage,
}

/// What a task is doing.
#[derive(Debug)]
pub enum TaskPayload {
    Working,
    /// It has ended with a reply, or with something that is none, with the error.
    Completed(Result<ToolReply, String>),
    InputRequired { count: usize },
    Failed { error: Json },
    Cancelled,
    Unknown,
}

/// What happens to a call.
#[allow(inconsistent_fields)]
#[derive(Debug)]
pub enum CallEvent {
    /// Its request could not be sent.
    SendFailed { error: String },
    /// Its request is sent; calls were cancelled meanwhile, or not.
    Sent { cancelled: bool },
    /// It is under way; calls were cancelled meanwhile, or not.
    Activated { cancelled: bool },
    /// There is no response.
    ResponseFailed { error: String },
    /// The response is the reply.
    Replied { reply: ToolReply },
    /// The response is a task; calls were cancelled meanwhile, or not.
    TaskCreated {
        task_id: String,
        poll_interval_ms: Option<u64>,
        status_message: Option<String>,
        cancelled: bool,
    },
    /// Its task is under way; calls were cancelled meanwhile, or not.
    TaskActivated { cancelled: bool },
    /// The response asks for input.
    InputRequired,
    /// The response is something else.
    OtherResponse,
    /// The task could not be looked at in time.
    PollTimedOut { error: String },
    /// The task could not be looked at.
    PollFailed { error: String },
    /// The task was looked at.
    Polled {
        poll_interval_ms: Option<u64>,
        status_message: Option<String>,
        payload: TaskPayload,
    },
    /// Its task is cancelled, or could not be, with the error.
    TaskCancelled { error: Option<String> },
}

/// What is to be done next for a call.
#[derive(Debug, Clone, Copy, PartialEq, Eq, Structural)]
pub enum CallAction {
    /// Take note that its request is under way.
    Activate,
    /// Wait for the response.
    Await,
    /// Take note that its task is under way.
    ActivateTask,
    /// Look at its task after some time.
    Poll { after: Duration },
    /// Cancel its request; then it has ended.
    CancelRequest,
    /// Cancel its task; then it has ended.
    CancelTask,
    /// Cancel its task, and see whether that succeeds.
    CancelTaskForInput,
    /// It has ended.
    Finish,
    /// Nothing: the event does not belong to the stage.
    Ignore,
}

/// What a call ends with, if it ends: an error, or what is handed on of a reply.
pub enum Ending {
    Open,
    Error(Seq<char>),
    Reply(ToolReply),
}

/// A status message, unless it is blank.
pub open spec fn telling(message: Option<Seq<char>>) -> Option<Seq<char>> {
    match message {
        Some(message) => if text::is_blank(message) {
            None
        } else {
            Some(message)
        },
        None => None,
    }
}

/// How long to wait before a task is looked at, by what its server asks for.
pub open spec fn interval_for(ms: Option<u64>) -> Duration {
    Duration {
        nanos: match ms {
            Some(ms) => if ms < 100 {
                100_000_000
            } else {
                (ms * 1_000_000) as u128
            },
            None => 1_000_000_000,
        },
    }
}

/// The status of a new task.
pub open spec fn first_status(message: Option<Seq<char>>) -> Seq<char> {
    match telling(message) {
        Some(message) => message,
        None => "Task started"@,
    }
}

/// The status of a task that was looked at.
pub open spec fn polled_status(message: Option<Seq<char>>, payload: TaskPayload) -> Option<
    Seq<char>,
> {
    match telling(message) {
        Some(message) => Some(message),
        None => match payload {
            TaskPayload::Working => Some("Task running"@),
            TaskPayload::InputRequired { count } => Some("Task requires input"@),
            _ => None,
        },
    }
}

/// The start of a message about a task.
pub open spec fn task_text(task_id: Seq<char>, name: Seq<char>) -> Seq<char> {
    "MCP task "@ + task_id + " for tool "@ + name
}

/// The message of a call that was cancelled.
pub open spec fn cancelled_text(name: Seq<char>) -> Seq<char> {
    "MCP tool "@ + name + " was cancelled"@
}

/// The ending of a call whose task has this payload, if it ends it.
pub open spec fn payload_ending(task_id: Seq<char>, name: Seq<char>, payload: TaskPayload) -> Ending {
    match payload {
        TaskPayload::Working => Ending::Open,
        TaskPayload::Completed(result) => match result {
            Ok(reply) => Ending::Reply(reply),
            Err(error) => Ending::Error("MCP task returned an invalid tool result: "@ + error@),
        },
        TaskPayload::InputRequired { count } => Ending::Open,
        TaskPayload::Failed { error } => Ending::Error(
            task_text(task_id, name) + " failed: "@ + json::json_compact(error@),
        ),
        TaskPayload::Cancelled => Ending::Error(task_text(task_id, name) + " was cancelled"@),
        TaskPayload::Unknown => Ending::Error(
            task_text(task_id, name) + " returned an unknown status"@,
        ),
    }
}

/// The message of a call whose task asks for input.
pub open spec fn input_text(
    task_id: Seq<char>,
    name: Seq<char>,
    count: nat,
    error: Option<Seq<char>>,
) -> Seq<char> {
    task_text(task_id, name) + " requires "@ + text::decimal(count) + " client input request(s)"@
        + match error {
        Some(error) => ", and cancelling the unsupported interactive task failed: "@ + error,
        None => "; interactive Task input is not supported by this client"@,
    }
}

/// The stage, the status to report if any, the action and the ending that follow from an
/// event.
pub struct Step {
    pub stage: StageModel,
    pub report: Option<Option<Seq<char>>>,
    pub action: CallAction,
    pub ending: Ending,
}

/// A step to another stage.
pub open spec fn go(stage: StageModel, action: CallAction) -> Step {
    Step { stage, report: None, action, ending: Ending::Open }
}

/// The step to the end.
pub open spec fn end(action: CallAction, ending: Ending) -> Step {
    Step { stage: StageModel::Done, report: None, action, ending }
}

/// What follows from an event for a call.
pub open spec fn next_step(stage: StageModel, name: Seq<char>, tasks: bool, event: CallEvent) -> Step {
    match (stage, event) {
        (StageModel::Sending, CallEvent::SendFailed { error }) => end(
            CallAction::Finish,
            Ending::Error("failed to send MCP tool "@ + name + ": "@ + error@),
        ),
        (StageModel::Sending, CallEvent::Sent { cancelled }) => if cancelled {
            end(CallAction::CancelRequest, Ending::Error(cancelled_text(name)))
        } else {
            go(StageModel::Activating, CallAction::Activate)
        },
        (StageModel::Activating, CallEvent::Activated { cancelled }) => if cancelled {
            end(CallAction::CancelRequest, Ending::Error(cancelled_text(name)))
        } else {
            go(StageModel::Awaiting, CallAction::Await)
        },
        (StageModel::Awaiting, CallEvent::ResponseFailed { error }) => end(
            CallAction::Finish,
            Ending::Error("MCP tool "@ + name + " failed: "@ + error@),
        ),
        (StageModel::Awaiting, CallEvent::Replied { reply }) => end(
            CallAction::Finish,
            Ending::Reply(reply),
        ),
        (
            StageModel::Awaiting,
            CallEvent::TaskCreated { task_id, poll_interval_ms, status_message, cancelled },
        ) => if !tasks {
            end(
                CallAction::Finish,
                Ending::Error(
                    "MCP server returned a Task without declaring the Tasks extension"@,
                ),
            )
        } else {
            let status = first_status(thinking::optional(status_message));
            if cancelled {
                Step {
                    report: Some(Some(status)),
                    ..end(CallAction::CancelTask, Ending::Error(cancelled_text(name)))
                }
            } else {
                Step {
                    report: Some(Some(status)),
                    ..go(
                        StageModel::ActivatingTask {
                            task_id: task_id@,
                            interval: interval_for(poll_interval_ms),
                            status,
                        },
                        CallAction::ActivateTask,
                    )
                }
            }
        },
        (StageModel::Awaiting, CallEvent::InputRequired) => end(
            CallAction::Finish,
            Ending::Error(
                "MCP tool "@ + name
                    + " requires interactive client input; this client does not advertise elicitation or other MRTR input capabilities"@,
            ),
        ),
        (StageModel::Awaiting, CallEvent::OtherResponse) => end(
            CallAction::Finish,
            Ending::Error(
                "MCP tool "@ + name
                    + " returned a response type that is invalid for tools/call"@,
            ),
        ),
        (
            StageModel::ActivatingTask { task_id, interval, status },
            CallEvent::TaskActivated { cancelled },
        ) => if cancelled {
            end(CallAction::CancelTask, Ending::Error(cancelled_text(name)))
        } else {
            go(
                StageModel::Polling { task_id, status: Some(status) },
                CallAction::Poll { after: interval },
            )
        },
        (StageModel::Polling { task_id, status }, CallEvent::PollTimedOut { error }) => end(
            CallAction::Finish,
            Ending::Error(task_text(task_id, name) + " timed out: "@ + error@),
        ),
        (StageModel::Polling { task_id, status }, CallEvent::PollFailed { error }) => end(
            CallAction::Finish,
            Ending::Error("failed to get "@ + task_text(task_id, name) + ": "@ + error@),
        ),
        (
            StageModel::Polling { task_id, status },
            CallEvent::Polled { poll_interval_ms, status_message, payload },
        ) => {
            let new = polled_status(thinking::optional(status_message), payload);
            let report = if new != status {
                Some(new)
            } else {
                None
            };
            match payload {
                TaskPayload::Working => Step {
                    report,
                    ..go(
                        StageModel::Polling { task_id, status: new },
                        CallAction::Poll { after: interval_for(poll_interval_ms) },
                    )
                },
                TaskPayload::InputRequired { count } => Step {
                    report,
                    ..go(
                        StageModel::CancellingTask { task_id, count },
                        CallAction::CancelTaskForInput,
                    )
                },
                _ => Step {
                    report,
                    ..end(CallAction::Finish, payload_ending(task_id, name, payload))
                },
            }
        },
        (StageModel::CancellingTask { task_id, count }, CallEvent::TaskCancelled { error }) => end(
            CallAction::Finish,
            Ending::Error(input_text(task_id, name, count as nat, thinking::optional(error))),
        ),
        _ => go(stage, CallAction::Ignore),
    }
}

/// `result` is what a call ends with.
pub open spec fn ends_with(
    result: Option<Result<McpToolResult, String>>,
    ending: Ending,
    schema: Option<Json>,
) -> bool {
    match ending {
        Ending::Open => result is None,
        Ending::Error(text) => result matches Some(Err(error)) && error@ == text,
        Ending::Reply(reply) => match reply::schema_fault(reply, schema) {
            Some(fault) => result matches Some(Err(error)) && error@ == fault.text(),
            None => if reply.bytes > MAX_RAW_MCP_RESULT_BYTES {
                result matches Some(Err(error)) && error@ == (ReplyError::TooLarge {
                    bytes: reply.bytes,
                }).text()
            } else {
                result matches Some(Ok(r)) && reply::hands_on(r, reply)
            },
        },
    }
}

/// What follows from an event for a call: the report to send if any, the action, and the
/// result if the call has ended.
#[derive(Debug)]
pub struct CallStep {
    pub report: Option<ToolEvent>,
    pub action: CallAction,
    pub result: Option<Result<McpToolResult, String>>,
}

/// `event` reports `status` of the call `id`.
pub open spec fn reports(event: Option<ToolEvent>, id: u64, status: Option<Option<Seq<char>>>) -> bool {
    match status {
        None => event is None,
        Some(text) => event matches Some(ToolEvent::Status { id: i, status }) && i == id
            && thinking::optional(status) == text,
    }
}

/// A status message, unless it is blank.
fn telling_message(message: &Option<String>) -> (r: Option<String>)
    ensures
        thinking::optional(r) == telling(thinking::optional(*message)),
{
    match message {
        Some(message) => if blank(message.as_str()) {
            None
        } else {
            Some(message.clone())
        },
        None => None,
    }
}

/// The status of a task that was looked at.
fn status_of(message: &Option<String>, payload: &TaskPayload) -> (r: Option<String>)
    ensures
        thinking::optional(r) == polled_status(thinking::optional(*message), *payload),
{
    match telling_message(message) {
        Some(message) => Some(message),
        None => match payload {
            TaskPayload::Working => Some("Task running".to_owned()),
            TaskPayload::InputRequired { count } => Some("Task requires input".to_owned()),
            _ => None,
        },
    }
}

/// Tells whether two optional texts are the same.
fn same_optional(a: &Option<String>, b: &Option<String>) -> (r: bool)
    ensures
        r == (thinking::optional(*a) == thinking::optional(*b)),
{
    match (a, b) {
        (Some(a), Some(b)) => same_text(a.as_str(), b.as_str()),
        (None, None) => true,
        _ => false,
    }
}

/// The start of a message about a task.
fn about_task(task_id: &str, name: &str) -> (r: String)
    ensures
        r@ == task_text(task_id@, name@),
{
    let mut out = "MCP task ".to_owned();
    out.append(task_id);
    out.append(" for tool ");
    out.append(name);
    out
}

/// A message about a tool.
fn about_tool(start: &str, name: &str, end: &str) -> (r: String)
    ensures
        r@ == start@ + name@ + end@,
{
    let mut out = start.to_owned();
    out.append(name);
    out.append(end);
    out
}

/// A step to the next action.
fn proceed(action: CallAction) -> (r: CallStep)
    ensures
        r.report is None,
        r.action == action,
        r.result is None,
{
    CallStep { report: None, action, result: None }
}

/// A step to the end, with an error.
fn fail(action: CallAction, error: String) -> (r: CallStep)
    ensures
        r.report is None,
        r.action == action,
        r.result == Some(Err::<McpToolResult, String>(error)),
{
    CallStep { report: None, action, result: Some(Err(error)) }
}

impl ToolCall {
    /// Ends the call with its reply.
    fn conclude(&self, reply: &ToolReply) -> (r: CallStep)
        ensures
            r.report is None,
            r.action == CallAction::Finish,
            ends_with(r.result, Ending::Reply(*reply), self.output_schema),
    {
        let result = match encode_tool_result(reply, &self.output_schema) {
            Ok(result) => Ok(result),
            Err(error) => Err(error.message()),
        };
        CallStep { report: None, action: CallAction::Finish, result: Some(result) }
    }

    /// The step of a call whose task was looked at.
    fn polled(
        &mut self,
        task_id: String,
        last: Option<String>,
        poll_interval_ms: Option<u64>,
        status_message: &Option<String>,
        payload: &TaskPayload,
    ) -> (r: CallStep)
        ensures
            ({
                let step = next_step(
                    StageModel::Polling { task_id: task_id@, status: thinking::optional(last) },
                    old(self).name@,
                    old(self).tasks,
                    CallEvent::Polled {
                        poll_interval_ms,
                        status_message: *status_message,
                        payload: *payload,
                    },
                );
                &&& final(self).stage@ == step.stage
                &&& reports(r.report, old(self).id, step.report)
                &&& r.action == step.action
                &&& ends_with(r.result, step.ending, old(self).output_schema)
                &&& final(self).id == old(self).id
                &&& final(self).name@ == old(self).name@
                &&& final(self).tasks == old(self).tasks
                &&& final(self).output_schema == old(self).output_schema
            }),
    {
        let status = status_of(status_message, payload);
        let report = if same_optional(&status, &last) {
            None
        } else {
            Some(ToolEvent::Status { id: self.id, status: clone_optional(&status) })
        };
        let mut step = match payload {
            TaskPayload::Working => {
                let after = task_poll_interval(poll_interval_ms);
                self.stage = CallStage::Polling { task_id, status };
                proceed(CallAction::Poll { after })
            },
            TaskPayload::Completed(result) => {
                self.stage = CallStage::Done;
                match result {
                    Ok(reply) => self.conclude(reply),
                    Err(error) => {
                        let mut text = "MCP task returned an invalid tool result: ".to_owned();
                        text.append(error.as_str());
                        fail(CallAction::Finish, text)
                    },
                }
            },
            TaskPayload::InputRequired { count } => {
                self.stage = CallStage::CancellingTask { task_id, count: *count };
                proceed(CallAction::CancelTaskForInput)
            },
            TaskPayload::Failed { error } => {
                self.stage = CallStage::Done;
                let mut text = about_task(task_id.as_str(), self.name.as_str());
                text.append(" failed: ");
                text.append(compact_json(error).as_str());
                fail(CallAction::Finish, text)
            },
            TaskPayload::Cancelled => {
                self.stage = CallStage::Done;
                let mut text = about_task(task_id.as_str(), self.name.as_str());
                text.append(" was cancelled");
                fail(CallAction::Finish, text)
            },
            TaskPayload::Unknown => {
                self.stage = CallStage::Done;
                let mut text = about_task(task_id.as_str(), self.name.as_str());
                text.append(" returned an unknown status");
                fail(CallAction::Finish, text)
            },
        };
        step.report = report;
        step
    }
}

impl ToolCall {
    /// Takes in an event of the call, and tells what follows from it.
    pub fn step(&mut self, event: &CallEvent) -> (r: CallStep)
        ensures
            ({
                let step = next_step(old(self).stage@, old(self).name@, old(self).tasks, *event);
                &&& final(self).stage@ == step.stage
                &&& reports(r.report, old(self).id, step.report)
                &&& r.action == step.action
                &&& ends_with(r.result, step.ending, old(self).output_schema)
                &&& final(self).id == old(self).id
                &&& final(self).name@ == old(self).name@
                &&& final(self).tasks == old(self).tasks
                &&& final(self).output_schema == old(self).output_schema
            }),
    {
        let mut stage = CallStage::Done;
        std::mem::swap(&mut stage, &mut self.stage);
        match (stage, event) {
            (CallStage::Sending, CallEvent::SendFailed { error }) => {
                let mut text = about_tool("failed to send MCP tool ", self.name.as_str(), ": ");
                text.append(error.as_str());
                fail(CallAction::Finish, text)
            },
            (CallStage::Sending, CallEvent::Sent { cancelled }) => {
                if *cancelled {
                    fail(
                        CallAction::CancelRequest,
                        about_tool("MCP tool ", self.name.as_str(), " was cancelled"),
                    )
                } else {
                    self.stage = CallStage::Activating;
                    proceed(CallAction::Activate)
                }
            },
            (CallStage::Activating, CallEvent::Activated { cancelled }) => {
                if *cancelled {
                    fail(
                        CallAction::CancelRequest,
                        about_tool("MCP tool ", self.name.as_str(), " was cancelled"),
                    )
                } else {
                    self.stage = CallStage::Awaiting;
                    proceed(CallAction::Await)
                }
            },
            (CallStage::Awaiting, CallEvent::ResponseFailed { error }) => {
                let mut text = about_tool("MCP tool ", self.name.as_str(), " failed: ");
                text.append(error.as_str());
                fail(CallAction::Finish, text)
            },
            (CallStage::Awaiting, CallEvent::Replied { reply }) => self.conclude(reply),
            (
                CallStage::Awaiting,
                CallEvent::TaskCreated { task_id, poll_interval_ms, status_message, cancelled },
            ) => {
                if !self.tasks {
                    return fail(
                        CallAction::Finish,
                        "MCP server returned a Task without declaring the Tasks extension".to_owned(),
                    );
                }
                let status = match telling_message(status_message) {
                    Some(message) => message,
                    None => "Task started".to_owned(),
                };
                let report = ToolEvent::Status { id: self.id, status: Some(status.clone()) };
                let mut step = if *cancelled {
                    fail(
                        CallAction::CancelTask,
                        about_tool("MCP tool ", self.name.as_str(), " was cancelled"),
                    )
                } else {
                    let interval = task_poll_interval(*poll_interval_ms);
                    self.stage =
                    CallStage::ActivatingTask { task_id: task_id.clone(), interval, status };
                    proceed(CallAction::ActivateTask)
                };
                step.report = Some(report);
                step
            },
            (CallStage::Awaiting, CallEvent::InputRequired) => fail(
                CallAction::Finish,
                about_tool(
                    "MCP tool ",
                    self.name.as_str(),
                    " requires interactive client input; this client does not advertise elicitation or other MRTR input capabilities",
                ),
            ),
            (CallStage::Awaiting, CallEvent::OtherResponse) => fail(
                CallAction::Finish,
                about_tool(
                    "MCP tool ",
                    self.name.as_str(),
                    " returned a response type that is invalid for tools/call",
                ),
            ),
            (
                CallStage::ActivatingTask { task_id, interval, status },
                CallEvent::TaskActivated { cancelled },
            ) => {
                if *cancelled {
                    fail(
                        CallAction::CancelTask,
                        about_tool("MCP tool ", self.name.as_str(), " was cancelled"),
                    )
                } else {
                    self.stage = CallStage::Polling { task_id, status: Some(status) };
                    proceed(CallAction::Poll { after: interval })
                }
            },
            (CallStage::Polling { task_id, status }, CallEvent::PollTimedOut { error }) => {
                let mut text = about_task(task_id.as_str(), self.name.as_str());
                text.append(" timed out: ");
                text.append(error.as_str());
                fail(CallAction::Finish, text)
            },
            (CallStage::Polling { task_id, status }, CallEvent::PollFailed { error }) => {
                let mut text = "failed to get ".to_owned();
                text.append(about_task(task_id.as_str(), self.name.as_str()).as_str());
                text.append(": ");
                text.append(error.as_str());
                fail(CallAction::Finish, text)
            },
            (
                CallStage::Polling { task_id, status },
                CallEvent::Polled { poll_interval_ms, status_message, payload },
            ) => self.polled(task_id, status, *poll_interval_ms, status_message, payload),
            (CallStage::CancellingTask { task_id, count }, CallEvent::TaskCancelled { error }) => {
                let mut text = about_task(task_id.as_str(), self.name.as_str());
                text.append(" requires ");
                push_decimal(&mut text, count as u128);
                text.append(" client input request(s)");
                match error {
                    Some(error) => {
                        let mut more =
                            ", and cancelling the unsupported interactive task failed: ".to_owned();
                        more.append(error.as_str());
                        text.append(more.as_str());
                    },
                    None => {
                        text.append("; interactive Task input is not supported by this client");
                    },
                }
                fail(CallAction::Finish, text)
            },
            (stage, _) => {
                self.stage = stage;
                proceed(CallAction::Ignore)
            },
        }
    }
}

// ---------- Results ----------

/// What the model is told of a call, and what the user is.
#[derive(Debug)]
pub struct CallReport {
    pub error: Option<String>,
    pub output: Option<Json>,
    pub model: Result<ToolOutput, String>,
}

/// `report` is what is told of a call with the result `result`: what the tool says, and of a
/// tool that reports an error the message of it; or else why the call failed.
pub open spec fn tells(report: CallReport, result: Result<McpToolResult, String>) -> bool {
    match result {
        Ok(result) => {
            &&& json::optional_view(report.output) == Some(result.ui@)
            &&& if result.is_error {
                let text = reply::error_message(reply::rendered(result.model@));
                thinking::optional(report.error) == Some(text) && (report.model matches Err(error)
                    && error@ == text)
            } else {
                report.error is None && (report.model matches Ok(model) && model@ == result.model@)
            }
        },
        Err(error) => report.output is None && thinking::optional(report.error) == Some(error@) && (
        report.model matches Err(text) && text@ == error@),
    }
}

/// What is told of a call with the result `result`.
pub fn call_report(result: Result<McpToolResult, String>) -> (r: CallReport)
    ensures
        tells(r, result),
{
    match result {
        Ok(result) => {
            if result.is_error {
                let error = mcp_tool_error_message(&result.model);
                CallReport {
                    error: Some(error.clone()),
                    output: Some(result.ui),
                    model: Err(error),
                }
            } else {
                CallReport { error: None, output: Some(result.ui), model: Ok(result.model) }
            }
        },
        Err(error) => CallReport { error: Some(error.clone()), output: None, model: Err(error) },
    }
}

// ---------- Laws ----------

/// A call ends exactly once: every event leaves it going on without an ending or ends it
/// with one, and once it has ended nothing happens to it.
pub proof fn a_call_ends_once(stage: StageModel, name: Seq<char>, tasks: bool, event: CallEvent)
    ensures
        ({
            let step = next_step(stage, name, tasks, event);
            if stage == StageModel::Done {
                step == go(StageModel::Done, CallAction::Ignore)
            } else {
                step.stage == StageModel::Done <==> step.ending != Ending::Open
            }
        }),
{
}

/// A call that sees that calls were cancelled ends with that, and its request or its task is
/// cancelled.
pub proof fn a_cancelled_call_ends(stage: StageModel, name: Seq<char>, tasks: bool, event: CallEvent)
    requires
        match event {
            CallEvent::Sent { cancelled } => cancelled && stage is Sending,
            CallEvent::Activated { cancelled } => cancelled && stage is Activating,
            CallEvent::TaskCreated { task_id, poll_interval_ms, status_message, cancelled } =>
                cancelled && stage is Awaiting && tasks,
            CallEvent::TaskActivated { cancelled } => cancelled && stage is ActivatingTask,
            _ => false,
        },
    ensures
        ({
            let step = next_step(stage, name, tasks, event);
            &&& step.stage == StageModel::Done
            &&& step.ending == Ending::Error(cancelled_text(name))
            &&& step.action == CallAction::CancelRequest || step.action == CallAction::CancelTask
        }),
{
}

/// A task is looked at ten times a second at most.
pub proof fn tasks_are_not_polled_too_often(
    stage: StageModel,
    name: Seq<char>,
    tasks: bool,
    event: CallEvent,
)
    requires
        stage matches StageModel::ActivatingTask { task_id, interval, status } ==> interval.nanos
            >= 100_000_000,
    ensures
        next_step(stage, name, tasks, event).action matches CallAction::Poll { after }
            ==> after.nanos >= 100_000_000,
        next_step(stage, name, tasks, event).stage matches StageModel::ActivatingTask {
            task_id,
            interval,
            status,
        } ==> interval.nanos >= 100_000_000,
{
}

/// A reply ends its call, whether it comes at once or as the result of a task, and the call ends
/// with that very reply.
pub proof fn a_call_ends_with_its_reply(stage: StageModel, name: Seq<char>, tasks: bool, event: CallEvent)
    ensures
        stage is Awaiting ==> (event matches CallEvent::Replied { reply } ==> {
            let step = next_step(stage, name, tasks, event);
            &&& step.stage == StageModel::Done
            &&& step.action == CallAction::Finish
            &&& step.ending == Ending::Reply(reply)
        }),
        stage is Polling ==> (event matches CallEvent::Polled {
            poll_interval_ms,
            status_message,
            payload,
        } ==> (payload matches TaskPayload::Completed(Ok(reply)) ==> {
            let step = next_step(stage, name, tasks, event);
            &&& step.stage == StageModel::Done
            &&& step.action == CallAction::Finish
            &&& step.ending == Ending::Reply(reply)
        })),
        next_step(stage, name, tasks, event).ending matches Ending::Reply(reply) ==> (
        event matches CallEvent::Replied { reply: r } && r == reply) || (
        event matches CallEvent::Polled { poll_interval_ms, status_message, payload }
            && payload == TaskPayload::Completed(Ok(reply))),
{
}

/// A call that nothing goes wrong with is sent, gets under way and waits, in this order, and
/// nothing is reported meanwhile.
pub proof fn a_call_proceeds_to_its_response(name: Seq<char>, tasks: bool)
    ensures
        ({
            let sent = next_step(
                StageModel::Sending,
                name,
                tasks,
                CallEvent::Sent { cancelled: false },
            );
            let active = next_step(
                sent.stage,
                name,
                tasks,
                CallEvent::Activated { cancelled: false },
            );
            &&& sent.action == CallAction::Activate
            &&& sent.ending is Open && sent.report is None
            &&& active.action == CallAction::Await
            &&& active.ending is Open && active.report is None
            &&& active.stage is Awaiting
        }),
{
}

/// A server that may answer with a task is followed by that very task: it gets under way, is
/// looked at after the time that its server asks for, and again and again while it works. What
/// the server says of it is reported, each time that it is something new.
pub proof fn a_task_is_followed(
    name: Seq<char>,
    task_id: String,
    poll_interval_ms: Option<u64>,
    status_message: Option<String>,
    later_ms: Option<u64>,
    later_message: Option<String>,
)
    ensures
        ({
            let created = next_step(
                StageModel::Awaiting,
                name,
                true,
                CallEvent::TaskCreated {
                    task_id,
                    poll_interval_ms,
                    status_message,
                    cancelled: false,
                },
            );
            let active = next_step(
                created.stage,
                name,
                true,
                CallEvent::TaskActivated { cancelled: false },
            );
            let polled = next_step(
                active.stage,
                name,
                true,
                CallEvent::Polled {
                    poll_interval_ms: later_ms,
                    status_message: later_message,
                    payload: TaskPayload::Working,
                },
            );
            &&& created.action == CallAction::ActivateTask
            &&& (status_message matches Some(text) && !text::is_blank(text@)) ==> created.report == Some(
                Some(status_message->0@),
            )
            &&& created.report matches Some(Some(text)) && text.len() > 0
            &&& active.action == CallAction::Poll { after: interval_for(poll_interval_ms) }
            &&& active.stage matches StageModel::Polling { task_id: id, status } && id == task_id@
            &&& polled.action == CallAction::Poll { after: interval_for(later_ms) }
            &&& polled.stage matches StageModel::Polling { task_id: id, status } && id == task_id@
            &&& polled.ending is Open
            &&& (later_message matches Some(text) && !text::is_blank(text@)) ==> (if created.report
                == Some(Some(later_message->0@)) {
                polled.report is None
            } else {
                polled.report == Some(Some(later_message->0@))
            })
        }),
{
    reveal_strlit("Task started");
    if let Some(text) = thinking::optional(status_message) {
        if text.len() == 0 {
            assert(text::is_blank(text));
        }
    }
}

/// A server that did not declare tasks cannot answer with one: the call fails.
pub proof fn undeclared_tasks_are_refused(name: Seq<char>, event: CallEvent)
    requires
        event is TaskCreated,
    ensures
        next_step(StageModel::Awaiting, name, false, event).ending is Error,
        next_step(StageModel::Awaiting, name, false, event).action == CallAction::Finish,
{
}

/// What is waited for is what the server asks for, in milliseconds, where that is a tenth of a
/// second or more.
pub proof fn tasks_are_looked_at_when_asked_for(ms: u64)
    requires
        ms >= 100,
    ensures
        interval_for(Some(ms)).nanos == ms * 1_000_000,
        interval_for(None).nanos == 1_000_000_000,
{
}

/// What a call fails with says why: it holds the name of the tool and the error that came.
pub proof fn failed_calls_say_why(stage: StageModel, name: Seq<char>, tasks: bool, event: CallEvent)
    ensures
        stage is Sending ==> (event matches CallEvent::SendFailed { error } ==> (next_step(
            stage,
            name,
            tasks,
            event,
        ).ending matches Ending::Error(text) && text::holds_in_order(text, seq![name, error@]))),
        stage is Awaiting ==> (event matches CallEvent::ResponseFailed { error } ==> (next_step(
            stage,
            name,
            tasks,
            event,
        ).ending matches Ending::Error(text) && text::holds_in_order(text, seq![name, error@]))),
        stage matches StageModel::Polling { task_id, status } ==> (
        event matches CallEvent::PollFailed { error } ==> (next_step(
            stage,
            name,
            tasks,
            event,
        ).ending matches Ending::Error(text) && text::holds_in_order(
            text,
            seq![task_id, name, error@],
        ))),
        stage matches StageModel::Polling { task_id, status } ==> (
        event matches CallEvent::PollTimedOut { error } ==> (next_step(
            stage,
            name,
            tasks,
            event,
        ).ending matches Ending::Error(text) && text::holds_in_order(
            text,
            seq![task_id, name, error@],
        ))),
{
    let start = Seq::<char>::empty();
    let none = Seq::<Seq<char>>::empty();
    text::lemma_holds_itself(start);
    match (stage, event) {
        (StageModel::Sending, CallEvent::SendFailed { error }) => {
            text::lemma_holds_next(start, "failed to send MCP tool "@, name, none);
            let a = start + "failed to send MCP tool "@ + name;
            text::lemma_holds_next(a, ": "@, error@, none.push(name));
            assert(a + ": "@ + error@ =~= "failed to send MCP tool "@ + name + ": "@ + error@);
            assert(none.push(name).push(error@) =~= seq![name, error@]);
        },
        (StageModel::Awaiting, CallEvent::ResponseFailed { error }) => {
            text::lemma_holds_next(start, "MCP tool "@, name, none);
            let a = start + "MCP tool "@ + name;
            text::lemma_holds_next(a, " failed: "@, error@, none.push(name));
            assert(a + " failed: "@ + error@ =~= "MCP tool "@ + name + " failed: "@ + error@);
            assert(none.push(name).push(error@) =~= seq![name, error@]);
        },
        (StageModel::Polling { task_id, status }, CallEvent::PollFailed { error }) => {
            lemma_task_text(task_id, name);
            let a = "failed to get "@ + task_text(task_id, name);
            text::lemma_holds_behind("failed to get "@, task_text(task_id, name), seq![task_id, name]);
            text::lemma_holds_next(a, ": "@, error@, seq![task_id, name]);
            assert(seq![task_id, name].push(error@) =~= seq![task_id, name, error@]);
        },
        (StageModel::Polling { task_id, status }, CallEvent::PollTimedOut { error }) => {
            lemma_task_text(task_id, name);
            text::lemma_holds_next(
                task_text(task_id, name),
                " timed out: "@,
                error@,
                seq![task_id, name],
            );
            assert(seq![task_id, name].push(error@) =~= seq![task_id, name, error@]);
        },
        _ => {},
    }
}

proof fn lemma_task_text(task_id: Seq<char>, name: Seq<char>)
    ensures
        text::holds_in_order(task_text(task_id, name), seq![task_id, name]),
{
    let start = Seq::<char>::empty();
    let none = Seq::<Seq<char>>::empty();
    text::lemma_holds_itself(start);
    text::lemma_holds_next(start, "MCP task "@, task_id, none);
    let a = start + "MCP task "@ + task_id;
    text::lemma_holds_next(a, " for tool "@, name, none.push(task_id));
    assert(task_text(task_id, name) =~= a + " for tool "@ + name);
    assert(none.push(task_id).push(name) =~= seq![task_id, name]);
}

/// A call whose tool succeeds reaches the model as what the tool says, without an error; one
/// whose tool reports an error reaches model and user as an error that says what the tool says,
/// and the user still sees the output.
pub proof fn replies_reach_model_and_user(
    report: CallReport,
    result: Result<McpToolResult, String>,
    reply: ToolReply,
    schema: Option<Json>,
)
    requires
        ends_with(Some(result), Ending::Reply(reply), schema),
        tells(report, result),
        reply::schema_fault(reply, schema) is None,
        reply.bytes <= MAX_RAW_MCP_RESULT_BYTES,
    ensures
        json::optional_view(report.output) == Some(
            budget::projected(reply::meaning(reply), MAX_UI_TOOL_RESULT_BYTES as nat),
        ),
        json::encoded_len(reply::meaning(reply)) <= MAX_UI_TOOL_RESULT_BYTES ==> json::optional_view(report.output)
            == Some(reply::meaning(reply)),
        reply.is_error != Some(true) ==> report.error is None && report.model is Ok,
        reply.is_error == Some(true) ==> report.error is Some && (report.model matches Err(text)
            && thinking::optional(report.error) == Some(text@)),
        reply.is_error != Some(true) && reply.structured_content is None && reply.content@.len()
            == 1 && (reply.content@[0] matches ReplyBlock::Text { text } && json::encoded_len(
            JsonView::Text(text@),
        ) <= MAX_UI_TOOL_RESULT_BYTES && json::encoded_len(JsonView::Text(text@))
            <= MAX_MODEL_TOOL_RESULT_BYTES && text::utf8_len(text@) <= MAX_MODEL_TOOL_RESULT_BYTES)
            ==> (report.model matches Ok(output) && output@ == OutputView::Text(
            reply.content@[0]->Text_text@,
        )),
{
    let r = result->Ok_0;
    reply::only_a_reported_error_is_an_error(r, reply);
    reply::what_fits_is_handed_on_whole(r, reply);
    if reply.structured_content is None && reply.content@.len() == 1
        && reply.content@[0] is Text {
        let text = reply.content@[0]->Text_text@;
        if json::encoded_len(JsonView::Text(text)) <= MAX_UI_TOOL_RESULT_BYTES && json::encoded_len(
            JsonView::Text(text),
        ) <= MAX_MODEL_TOOL_RESULT_BYTES && text::utf8_len(text) <= MAX_MODEL_TOOL_RESULT_BYTES {
            reply::a_lone_text_is_handed_on(r, reply, text);
        }
    }
}

/// A call that failed before a reply could be handed on reaches model and user with why.
pub proof fn failures_reach_model_and_user(
    report: CallReport,
    result: Result<McpToolResult, String>,
    reason: Seq<char>,
)
    requires
        ends_with(Some(result), Ending::Error(reason), None),
        tells(report, result),
    ensures
        report.output is None,
        thinking::optional(report.error) == Some(reason),
        report.model matches Err(text) && text@ == reason,
{
}

/// A request goes out exactly to a server that is connected, with arguments in an object.
pub proof fn requests_need_a_server_and_an_object(host: HostModel, server: nat, arguments: JsonView)
    ensures
        request_error(host, server, arguments) is None <==> server < host.services.len()
            && arguments is Object,
{
}

/// A call that is cancelled says so, with its name. What was sent is cancelled as a request, and
/// as a task once it is one.
pub proof fn cancelled_calls_say_so(stage: StageModel, name: Seq<char>, tasks: bool, event: CallEvent)
    ensures
        event matches CallEvent::Sent { cancelled } && cancelled && stage is Sending ==> next_step(
            stage,
            name,
            tasks,
            event,
        ).action == CallAction::CancelRequest,
        event matches CallEvent::Activated { cancelled } && cancelled && stage is Activating
            ==> next_step(stage, name, tasks, event).action == CallAction::CancelRequest,
        event matches CallEvent::TaskActivated { cancelled } && cancelled
            && stage is ActivatingTask ==> next_step(stage, name, tasks, event).action
            == CallAction::CancelTask,
        text::holds_in_order(cancelled_text(name), seq![name]),
{
    text::lemma_holds_itself(name);
    text::lemma_holds_behind("MCP tool "@, name, seq![name]);
    text::lemma_holds_before("MCP tool "@ + name, " was cancelled"@, seq![name]);
}

/// A task that fails, is cancelled or ends in a way that is not known ends its call with an
/// error that tells the task and the tool, and why it failed; so does one whose result is none.
/// One that works on does not end it.
pub proof fn tasks_end_their_call(
    task_id: Seq<char>,
    status: Option<Seq<char>>,
    name: Seq<char>,
    tasks: bool,
    event: CallEvent,
)
    ensures
        event matches CallEvent::Polled { poll_interval_ms, status_message, payload } ==> {
            let step = next_step(StageModel::Polling { task_id, status }, name, tasks, event);
            &&& payload is Working || payload is InputRequired <==> step.ending is Open
            &&& payload matches TaskPayload::Failed { error } ==> (
            step.ending matches Ending::Error(text) && text::holds_in_order(
                text,
                seq![task_id, name, json::json_compact(error@)],
            ))
            &&& payload is Cancelled || payload is Unknown ==> (
            step.ending matches Ending::Error(text) && text::holds_in_order(text, seq![task_id, name]))
            &&& payload matches TaskPayload::Completed(Err(error)) ==> (
            step.ending matches Ending::Error(text) && text::holds_in_order(text, seq![error@]))
            &&& payload is InputRequired ==> step.action == CallAction::CancelTaskForInput
        },
{
    if let CallEvent::Polled { poll_interval_ms, status_message, payload } = event {
        lemma_task_text(task_id, name);
        let text = task_text(task_id, name);
        match payload {
            TaskPayload::Failed { error } => {
                text::lemma_holds_next(text, " failed: "@, json::json_compact(error@), seq![task_id, name]);
                assert(seq![task_id, name].push(json::json_compact(error@)) =~= seq![
                    task_id,
                    name,
                    json::json_compact(error@),
                ]);
            },
            TaskPayload::Cancelled => {
                text::lemma_holds_before(text, " was cancelled"@, seq![task_id, name]);
            },
            TaskPayload::Unknown => {
                text::lemma_holds_before(text, " returned an unknown status"@, seq![task_id, name]);
            },
            TaskPayload::Completed(Err(error)) => {
                text::lemma_holds_itself(error@);
                text::lemma_holds_behind(
                    "MCP task returned an invalid tool result: "@,
                    error@,
                    seq![error@],
                );
            },
            _ => {},
        }
    }
}

/// A task that asks for input is cancelled, and its call ends with an error that tells the task,
/// the tool, how many requests there were, and what went wrong with cancelling it if anything
/// did.
pub proof fn tasks_that_ask_for_input_are_cancelled(
    task_id: Seq<char>,
    count: usize,
    name: Seq<char>,
    tasks: bool,
    error: Option<String>,
)
    ensures
        ({
            let step = next_step(
                StageModel::CancellingTask { task_id, count },
                name,
                tasks,
                CallEvent::TaskCancelled { error },
            );
            let known = seq![task_id, name, text::decimal(count as nat)];
            &&& step.stage == StageModel::Done
            &&& step.ending matches Ending::Error(text) && text::holds_in_order(text, known) && (
            error matches Some(cause) ==> text::holds_in_order(text, known.push(cause@)))
        }),
{
    lemma_task_text(task_id, name);
    let text = task_text(task_id, name);
    let two = seq![task_id, name];
    let digits = text::decimal(count as nat);
    text::lemma_holds_next(text, " requires "@, digits, two);
    let known = seq![task_id, name, digits];
    assert(two.push(digits) =~= known);
    let start = text + " requires "@ + digits;
    let asked = " client input request(s)"@;
    match error {
        Some(cause) => {
            let lead = ", and cancelling the unsupported interactive task failed: "@;
            text::lemma_holds_next(start, asked + lead, cause@, known);
            let all = start + (asked + lead) + cause@;
            assert(all =~= start + asked + (lead + cause@));
            text::lemma_holds_before(start, asked + (lead + cause@), known);
            assert(start + (asked + (lead + cause@)) =~= all);
        },
        None => {
            let end = "; interactive Task input is not supported by this client"@;
            text::lemma_holds_before(start, asked + end, known);
            assert(start + (asked + end) =~= start + asked + end);
        },
    }
}

/// What else is answered to a call that no reply is ends it with an error that names the tool.
pub proof fn other_answers_end_the_call(name: Seq<char>, tasks: bool, event: CallEvent)
    requires
        event is InputRequired || event is OtherResponse,
    ensures
        next_step(StageModel::Awaiting, name, tasks, event).ending matches Ending::Error(text)
            && text::holds_in_order(text, seq![name]),
{
    text::lemma_holds_itself(name);
    text::lemma_holds_behind("MCP tool "@, name, seq![name]);
    text::lemma_holds_before(
        "MCP tool "@ + name,
        " requires interactive client input; this client does not advertise elicitation or other MRTR input capabilities"@,
        seq![name],
    );
    text::lemma_holds_before(
        "MCP tool "@ + name,
        " returned a response type that is invalid for tools/call"@,
        seq![name],
    );
}

/// While a task works, the user is told something of it: what its server says, or else that it
/// runs; and so it is where it asks for input.
pub proof fn something_is_told_of_a_working_task(
    task_id: Seq<char>,
    name: Seq<char>,
    tasks: bool,
    event: CallEvent,
)
    ensures
        event matches CallEvent::Polled { poll_interval_ms, status_message, payload } ==> (
        payload is Working || payload is InputRequired ==> (next_step(
            StageModel::Polling { task_id, status: None },
            name,
            tasks,
            event,
        ).report matches Some(Some(text)) && text.len() > 0)),
{
    reveal_strlit("Task running");
    reveal_strlit("Task requires input");
    if let CallEvent::Polled { poll_interval_ms, status_message, payload } = event {
        if let Some(text) = thinking::optional(status_message) {
            if text.len() == 0 {
                assert(text::is_blank(text));
            }
        }
    }
}

} // verus!
