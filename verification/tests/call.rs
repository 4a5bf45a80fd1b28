use thx::call::{
    call_report, end_call, start_call, ActiveCalls, CallAction, CallEvent, CallStage, TaskPayload, ToolCall,
};
use thx::clock::Duration;
use thx::host::{McpConnection, McpHost, ProgressRouter, ProgressToken};
use thx::json::Json;
use thx::reply::{ReplyBlock, McpToolResult, ToolOutput, ToolReply};
use thx::turn::ToolEvent;

fn from_value(value: &serde_json::Value) -> Json {
    match value {
        serde_json::Value::Null => Json::Null,
        serde_json::Value::Bool(value) => Json::Bool(*value),
        serde_json::Value::Number(value) => Json::Number(value.to_string()),
        serde_json::Value::String(value) => Json::Text(value.clone()),
        serde_json::Value::Array(values) => Json::Array(values.iter().map(from_value).collect()),
        serde_json::Value::Object(fields) => Json::Object(
            fields.iter().map(|(name, value)| (name.clone(), from_value(value))).collect(),
        ),
    }
}

fn json(text: &str) -> Json {
    from_value(&serde_json::from_str(text).expect("valid JSON"))
}

fn host(tasks: bool) -> McpHost {
    let mut host = McpHost::new();
    host.add_service(McpConnection { name: "tasks".into(), protocol: "p".into(), tasks });
    host
}

fn call(tasks: bool) -> ToolCall {
    start_call(&host(tasks), 9, 0, "task", &json("{}"), None).unwrap()
}

fn reply(text: &str, is_error: bool) -> ToolReply {
    ToolReply {
        bytes: 64,
        content: vec![ReplyBlock::Text { text: text.into() }],
        structured_content: None,
        is_error: Some(is_error),
    }
}

fn waiting(tasks: bool) -> ToolCall {
    let mut call = call(tasks);
    let step = call.step(&CallEvent::Sent { cancelled: false });
    assert_eq!(step.action, CallAction::Activate);
    let step = call.step(&CallEvent::Activated { cancelled: false });
    assert_eq!(step.action, CallAction::Await);
    assert!(step.report.is_none() && step.result.is_none());
    call
}

fn created(cancelled: bool, status: Option<&str>) -> CallEvent {
    CallEvent::TaskCreated {
        task_id: "task-1".into(),
        poll_interval_ms: Some(1),
        status_message: status.map(|status| status.into()),
        cancelled,
    }
}

fn polling() -> ToolCall {
    let mut call = waiting(true);
    let step = call.step(&created(false, None));
    assert_eq!(step.action, CallAction::ActivateTask);
    assert!(matches!(step.report, Some(ToolEvent::Status { id: 9, status: Some(status) })
        if status == "Task started"));
    let step = call.step(&CallEvent::TaskActivated { cancelled: false });
    assert_eq!(step.action, CallAction::Poll { after: Duration::from_millis(100) });
    call
}

fn polled(status: Option<&str>, payload: TaskPayload) -> CallEvent {
    CallEvent::Polled {
        poll_interval_ms: Some(250),
        status_message: status.map(|status| status.into()),
        payload,
    }
}

fn error_of(result: Option<Result<McpToolResult, String>>) -> String {
    result.expect("an ended call").unwrap_err()
}

#[test]
fn completed_task_preserves_normal_and_tool_error_results() {
    for (is_error, text) in [(false, "task complete"), (true, "task failed")] {
        let mut call = polling();
        let step =
            call.step(&polled(None, TaskPayload::Completed(Ok(reply(text, is_error)))));
        assert_eq!(step.action, CallAction::Finish);
        let result = step.result.unwrap().unwrap();
        assert_eq!(result.is_error, is_error);
        assert!(matches!(&result.model, ToolOutput::Text(model) if model == text));
    }
}

#[test]
fn a_reply_ends_a_call() {
    let mut call = waiting(false);
    let step = call.step(&CallEvent::Replied { reply: reply("complete", false) });
    assert_eq!(step.action, CallAction::Finish);
    assert!(matches!(step.result.unwrap().unwrap().model, ToolOutput::Text(text)
        if text == "complete"));
    assert!(matches!(call.stage, CallStage::Done));
    let step = call.step(&CallEvent::OtherResponse);
    assert_eq!(step.action, CallAction::Ignore);
    assert!(step.result.is_none());
}

#[test]
fn replies_are_held_to_their_schema() {
    let schema = Some(json(r#"{"type":"object"}"#));
    let mut call = start_call(&host(false), 9, 0, "task", &json("{}"), schema).unwrap();
    call.step(&CallEvent::Sent { cancelled: false });
    call.step(&CallEvent::Activated { cancelled: false });
    let step = call.step(&CallEvent::Replied { reply: reply("plain", false) });
    assert_eq!(
        error_of(step.result),
        "MCP server omitted structuredContent required by the tool's declared outputSchema"
    );
}

#[test]
fn requests_need_a_server_and_an_object() {
    assert_eq!(
        start_call(&host(false), 1, 3, "x", &json("{}"), None).unwrap_err(),
        "unknown MCP server index 3"
    );
    let error = start_call(&host(false), 1, 0, "x", &json("[1]"), None).unwrap_err();
    assert!(error.starts_with("MCP tool arguments must be an object: "), "{error}");
    assert!(error.contains("invalid type: sequence"), "{error}");
    let number = Json::Number("{}".into());
    assert!(start_call(&host(false), 1, 0, "x", &number, None).is_err());
}

#[test]
fn cancelled_calls_end_at_every_stage() {
    let cancelled = "MCP tool task was cancelled";
    let mut sent = call(true);
    let step = sent.step(&CallEvent::Sent { cancelled: true });
    assert_eq!(step.action, CallAction::CancelRequest);
    assert_eq!(error_of(step.result), cancelled);

    let mut activated = call(true);
    activated.step(&CallEvent::Sent { cancelled: false });
    let step = activated.step(&CallEvent::Activated { cancelled: true });
    assert_eq!(step.action, CallAction::CancelRequest);
    assert_eq!(error_of(step.result), cancelled);

    let mut started = waiting(true);
    let step = started.step(&created(true, Some("Building")));
    assert_eq!(step.action, CallAction::CancelTask);
    assert!(matches!(step.report, Some(ToolEvent::Status { id: 9, status: Some(status) })
        if status == "Building"));
    assert_eq!(error_of(step.result), cancelled);

    let mut running = waiting(true);
    running.step(&created(false, None));
    let step = running.step(&CallEvent::TaskActivated { cancelled: true });
    assert_eq!(step.action, CallAction::CancelTask);
    assert_eq!(error_of(step.result), cancelled);
}

#[test]
fn failing_calls_say_why() {
    let mut unsent = call(false);
    let step = unsent.step(&CallEvent::SendFailed { error: "closed".into() });
    assert_eq!(error_of(step.result), "failed to send MCP tool task: closed");
    for (event, text) in [
        (
            CallEvent::ResponseFailed { error: "timeout".into() },
            "MCP tool task failed: timeout",
        ),
        (
            created(false, None),
            "MCP server returned a Task without declaring the Tasks extension",
        ),
        (
            CallEvent::InputRequired,
            "MCP tool task requires interactive client input; this client does not advertise elicitation or other MRTR input capabilities",
        ),
        (
            CallEvent::OtherResponse,
            "MCP tool task returned a response type that is invalid for tools/call",
        ),
    ] {
        let step = waiting(false).step(&event);
        assert_eq!(step.action, CallAction::Finish);
        assert_eq!(error_of(step.result), text);
    }
}

#[test]
fn failing_tasks_say_why() {
    for (event, text) in [
        (
            CallEvent::PollTimedOut { error: "deadline has elapsed".into() },
            "MCP task task-1 for tool task timed out: deadline has elapsed",
        ),
        (
            CallEvent::PollFailed { error: "gone".into() },
            "failed to get MCP task task-1 for tool task: gone",
        ),
        (
            polled(None, TaskPayload::Completed(Err("missing field".into()))),
            "MCP task returned an invalid tool result: missing field",
        ),
        (
            polled(None, TaskPayload::Failed { error: json(r#"{"code":1}"#) }),
            r#"MCP task task-1 for tool task failed: {"code":1}"#,
        ),
        (polled(None, TaskPayload::Cancelled), "MCP task task-1 for tool task was cancelled"),
        (
            polled(None, TaskPayload::Unknown),
            "MCP task task-1 for tool task returned an unknown status",
        ),
    ] {
        let step = polling().step(&event);
        assert_eq!(step.action, CallAction::Finish);
        assert_eq!(error_of(step.result), text);
    }
}

#[test]
fn tasks_that_ask_for_input_are_cancelled() {
    let mut task = polling();
    let step = task.step(&polled(None, TaskPayload::InputRequired { count: 2 }));
    assert_eq!(step.action, CallAction::CancelTaskForInput);
    assert!(matches!(step.report, Some(ToolEvent::Status { status: Some(status), .. })
        if status == "Task requires input"));
    let step = task.step(&CallEvent::TaskCancelled { error: None });
    assert_eq!(
        error_of(step.result),
        "MCP task task-1 for tool task requires 2 client input request(s); interactive Task input is not supported by this client"
    );
    let mut task = polling();
    task.step(&polled(None, TaskPayload::InputRequired { count: 1 }));
    let step = task.step(&CallEvent::TaskCancelled { error: Some("refused".into()) });
    assert_eq!(
        error_of(step.result),
        "MCP task task-1 for tool task requires 1 client input request(s), and cancelling the unsupported interactive task failed: refused"
    );
}

#[test]
fn the_status_of_a_task_is_reported_when_it_changes() {
    let mut task = polling();
    let step = task.step(&polled(Some("Step 1"), TaskPayload::Working));
    assert_eq!(step.action, CallAction::Poll { after: Duration::from_millis(250) });
    assert!(matches!(step.report, Some(ToolEvent::Status { status: Some(status), .. })
        if status == "Step 1"));
    assert!(task.step(&polled(Some("Step 1"), TaskPayload::Working)).report.is_none());
    let step = task.step(&polled(Some(" "), TaskPayload::Working));
    assert!(matches!(step.report, Some(ToolEvent::Status { status: Some(status), .. })
        if status == "Task running"));
    let step = task.step(&polled(None, TaskPayload::Cancelled));
    assert!(matches!(step.report, Some(ToolEvent::Status { status: None, .. })));
}

#[test]
fn cancelling_gives_out_the_calls_under_way() {
    let mut calls: ActiveCalls<&str> = ActiveCalls::new();
    let epoch = calls.cancel_epoch;
    calls.set_active(1, "one");
    calls.set_active(2, "two");
    calls.set_active(2, "task");
    calls.clear_active(1);
    assert!(!calls.was_cancelled(epoch));
    let cancelled = calls.cancel_calls();
    assert_eq!(cancelled.len(), 1);
    assert_eq!(cancelled.get(&2), Some(&"task"));
    assert!(calls.was_cancelled(epoch));
    assert!(calls.cancel_calls().is_empty());
    calls.cancel_epoch = u64::MAX;
    calls.cancel_calls();
    assert_eq!(calls.cancel_epoch, 0);
}

#[test]
fn a_call_that_has_ended_is_gone() {
    let mut calls: ActiveCalls<&str> = ActiveCalls::new();
    let mut routes = ProgressRouter::new();
    for id in [7, 8] {
        calls.set_active(id, "request");
        routes.register(ProgressToken::Number(id as i64), id);
    }
    end_call(&mut calls, &mut routes, 7, &ProgressToken::Number(7));
    assert!(calls.active.get(&7).is_none());
    assert_eq!(calls.active.get(&8), Some(&"request"));
    assert_eq!(routes.route(&ProgressToken::Number(7)), None);
    assert_eq!(routes.route(&ProgressToken::Number(8)), Some(8));
    end_call(&mut calls, &mut routes, 7, &ProgressToken::Number(7));
    assert_eq!(calls.active.len(), 1);
}

#[test]
fn the_model_and_the_user_are_told_of_a_call() {
    let result = |is_error| {
        Ok(McpToolResult {
            ui: json("1"),
            model: ToolOutput::Text("done".into()),
            is_error,
        })
    };
    let told = call_report(result(false));
    assert!(told.error.is_none());
    assert!(matches!(told.output, Some(Json::Number(n)) if n == "1"));
    assert!(matches!(told.model, Ok(ToolOutput::Text(text)) if text == "done"));

    let told = call_report(result(true));
    assert_eq!(told.error.as_deref(), Some("MCP tool returned isError=true: done"));
    assert!(told.output.is_some());
    assert_eq!(told.model.unwrap_err(), "MCP tool returned isError=true: done");

    let told = call_report(Err("broken".into()));
    assert_eq!(told.error.as_deref(), Some("broken"));
    assert!(told.output.is_none());
    assert_eq!(told.model.unwrap_err(), "broken");
}
