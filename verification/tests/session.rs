use thx::chat::{handle_command, handle_ctrl_c, CommandAction, COMMAND_HELP};
use thx::host::McpHost;
use thx::json::{same_json, Json};
use thx::message::{Message, SaveError, SavedMessage, SavedTool, ToolState, ToolView};
use thx::clock::{Duration, Instant};
use thx::session::{
    completed_session, export_name, keep_turn, next_session_path, resume_arg_from, session_path_in,
    validate_session_id, ChatState, Session, SessionError,
};
use thx::ui::Ui;

fn from_value(value: &serde_json::Value) -> Json {
    match value {
        serde_json::Value::Null => Json::Null,
        serde_json::Value::Bool(value) => Json::Bool(*value),
        serde_json::Value::Number(value) => Json::Number(value.to_string()),
        serde_json::Value::String(value) => Json::Text(value.clone()),
        serde_json::Value::Array(values) => Json::Array(values.iter().map(from_value).collect()),
        serde_json::Value::Object(fields) => Json::Object(
            fields.iter().map(|(name, value)| (name.clone(), from_value(value))).collect(),
        ),
    }
}

fn json(text: &str) -> Json {
    from_value(&serde_json::from_str(text).expect("valid JSON"))
}

fn representative_session() -> Session<&'static str> {
    Session {
        history: vec!["question", "answer", "result"],
        messages: vec![
            SavedMessage::User { text: "question".into() },
            SavedMessage::Thinking {
                id: "reason-1".into(),
                text: Some("considering".into()),
                duration_ms: 12,
            },
            SavedMessage::Tools {
                tools: vec![SavedTool {
                    label: "server/lookup".into(),
                    args: json(r#"{"query":"rust"}"#),
                    output: Some(json(r#"{"value":"result"}"#)),
                    error: None,
                    duration_ms: 8,
                }],
            },
            SavedMessage::Assistant { text: "answer".into(), metrics: Some("1.0s".into()) },
        ],
    }
}

fn assert_same(a: &[SavedMessage], b: &[SavedMessage]) {
    assert_eq!(format!("{a:?}"), format!("{b:?}"));
}

#[test]
fn session_round_trip_preserves_rig_history_and_visible_messages() {
    let mut next = 1;
    let state =
        ChatState::new("model".into(), None, Some(representative_session()), &mut next);
    assert_eq!(next, 2);
    let restored = completed_session(state.history, &state.ui).unwrap().unwrap();
    let session = representative_session();
    assert_eq!(restored.history, session.history);
    assert_same(&restored.messages, &session.messages);
}

#[test]
fn validates_session_ids() {
    assert!(validate_session_id("20260830-051923").is_ok());
    assert!(validate_session_id("20260830-051923-2").is_ok());
    for invalid in ["", "session", "x.json", "../x", "1/2", "1\\2", "1_2"] {
        assert!(validate_session_id(invalid).is_err(), "accepted {invalid}");
    }
}

#[test]
fn resume_resolution_uses_only_the_session_directory_and_id() {
    let path = session_path_in("sessions", "20260830-051923").unwrap();
    assert_eq!((path.directory, path.file.as_str()), ("sessions", "20260830-051923.json"));
    assert!(session_path_in("sessions", "../outside").is_err());
}

#[test]
fn autosave_collisions_advance_without_overwriting() {
    let timestamp = "20260830-051923";
    let mut kept: Vec<(String, Vec<SavedMessage>)> = Vec::new();
    let mut ids = Vec::new();
    for _ in 0..3 {
        let files = kept.iter().map(|(file, _)| file.clone()).collect();
        let (id, path) = next_session_path("state", timestamp, &files).unwrap();
        assert_eq!((path.directory, path.file.clone()), ("state", format!("{id}.json")));
        assert!(!files.contains(&path.file));
        kept.push((path.file, representative_session().messages));
        ids.push(id);
    }
    assert_eq!(ids, [timestamp, "20260830-051923-2", "20260830-051923-3"]);
    let path = session_path_in("state", timestamp).unwrap();
    let (_, messages) = kept.iter().find(|(file, _)| *file == path.file).unwrap();
    assert_same(messages, &representative_session().messages);
}

#[test]
fn the_least_free_name_is_taken() {
    let taken = vec!["1-2.json".to_owned(), "1.json".to_owned(), "1-4.json".to_owned()];
    assert_eq!(next_session_path("d", "1", &taken).unwrap().0, "1-3");
    assert_eq!(next_session_path("d", "1", &Vec::new()).unwrap().0, "1");
    assert_eq!(next_session_path("d", "now", &taken).unwrap_err(), SessionError::InvalidId);
    let taken = vec!["thx-export-2.md".to_owned(), "thx-export.md".to_owned()];
    assert_eq!(export_name(&taken).as_deref(), Some("thx-export-3.md"));
    assert_eq!(SessionError::NoName.message(), "failed to choose a session filename");
}

#[test]
fn export_transcript_writes_markdown_without_overwriting_existing_exports() {
    let mut files: Vec<(String, &str)> = Vec::new();
    for text in ["first", "second"] {
        let taken = files.iter().map(|(name, _)| name.clone()).collect();
        files.push((export_name(&taken).unwrap(), text));
    }
    assert_eq!(files[0], ("thx-export.md".to_owned(), "first"));
    assert_eq!(files[1], ("thx-export-2.md".to_owned(), "second"));
    assert!(files.iter().all(|(name, _)| !name.ends_with(".json")));
}

#[test]
fn what_a_turn_adds_is_kept() {
    let mut history = vec!["question"];
    keep_turn(&mut history, None);
    assert_eq!(history, ["question"]);
    keep_turn(&mut history, Some(vec!["answer", "result"]));
    assert_eq!(history, ["question", "answer", "result"]);
}

#[test]
fn exit_commands_and_empty_ctrl_c_share_exit_action() {
    let mcp = McpHost::new();
    for command in ["/exit", "/quit"] {
        let mut ui = Ui::new("test".into(), None);
        let mut history: Vec<()> = Vec::new();
        assert_eq!(
            handle_command(command, &mut ui, &mut history, &mcp),
            CommandAction::Exit
        );
    }
    let mut ui = Ui::new("test".into(), None);
    assert_eq!(handle_ctrl_c(&mut ui), CommandAction::Exit);
}

#[test]
fn ctrl_c_with_input_clears_without_exit_or_session() {
    let mut ui = Ui::new("test".into(), None);
    ui.insert_input("draft");
    assert_eq!(handle_ctrl_c(&mut ui), CommandAction::Handled);
    assert!(ui.input.value.is_empty());
    assert!(completed_session(Vec::<()>::new(), &ui).unwrap().is_none());
}

#[test]
fn empty_conversation_produces_no_session_for_every_exit_mechanism() {
    let mcp = McpHost::new();
    for command in [Some("/exit"), Some("/quit"), None] {
        let mut ui = Ui::new("test".into(), None);
        let mut history: Vec<()> = Vec::new();
        let action = match command {
            Some(command) => handle_command(command, &mut ui, &mut history, &mcp),
            None => handle_ctrl_c(&mut ui),
        };
        assert_eq!(action, CommandAction::Exit);
        assert!(completed_session(history, &ui).unwrap().is_none());
    }
}

#[test]
fn restored_startup_state_is_idle_and_has_no_pending_tools() {
    let session = representative_session();
    let mut next = 41;
    let ui = Ui::from_saved("current-model".into(), Some(200_000), session.messages, &mut next);
    assert!(ui.input.value.is_empty());
    assert!(ui.activity.is_none());
    assert!(ui.thinking_since.is_none());
    assert!(!ui.has_pending_tools());
    assert!(ui.follow_tail);
    assert_eq!(ui.last_assistant(), Some("answer"));
    let Message::Tools(tools) = &ui.messages[2] else { panic!("expected tools") };
    assert_eq!(tools[0].id, 41);
    assert_eq!(tools[0].detail, "query rust");
    assert!(matches!(tools[0].state, ToolState::Done(duration)
        if duration == Duration::from_millis(8)));
    assert!(same_json(tools[0].output.as_ref().unwrap(), &json(r#"{"value":"result"}"#)));
}

#[test]
fn resume_cli_accepts_exactly_one_valid_id() {
    let parse = |args: &[&str]| {
        resume_arg_from(&args.iter().map(|arg| Some(arg.to_string())).collect())
    };
    assert_eq!(parse(&[]).unwrap(), None);
    assert_eq!(
        parse(&["--resume", "20260830-051923"]).unwrap().as_deref(),
        Some("20260830-051923")
    );
    assert!(parse(&["--resume"]).is_err());
    assert!(parse(&["--resume", "./file.json"]).is_err());
    assert!(parse(&["--resume", "1", "extra"]).is_err());
    assert!(parse(&["session-id"]).is_err());
}

#[test]
fn arguments_are_refused_for_a_reason() {
    let resume = || Some("--resume".to_owned());
    let one = || Some("1".to_owned());
    assert_eq!(resume_arg_from(&vec![None]).unwrap_err(), SessionError::Usage);
    assert_eq!(resume_arg_from(&vec![resume()]).unwrap_err(), SessionError::MissingId);
    assert_eq!(resume_arg_from(&vec![resume(), None]).unwrap_err(), SessionError::NotUnicode);
    assert_eq!(
        resume_arg_from(&vec![resume(), None, one()]).unwrap_err(),
        SessionError::NotUnicode
    );
    assert_eq!(
        resume_arg_from(&vec![resume(), one(), one()]).unwrap_err(),
        SessionError::Usage
    );
    assert_eq!(SessionError::Usage.message(), "usage: thx [--resume <session-id>]");
    assert_eq!(SessionError::MissingId.message(), "missing session id after --resume");
    assert_eq!(SessionError::NotUnicode.message(), "session id must be valid UTF-8");
    assert_eq!(SessionError::InvalidId.message(), "invalid session id");
}

#[test]
fn unfinished_conversations_are_not_saved() {
    let mut ui = Ui::new("test".into(), None);
    ui.push(Message::User("question".into()));
    ui.push(Message::Info("note".into()));
    ui.reasoning_delta("r", "hm", Instant { nanos: 5 });
    let error = completed_session(vec![1], &ui).unwrap_err();
    assert_eq!(error, SaveError::UnfinishedReasoning);
    assert_eq!(error.message(), "cannot save a session with unfinished reasoning");
    ui.finish_thinking_at(Instant { nanos: 3_000_005 });
    ui.add_tool(ToolView::pending(1, "a/b", &Json::Null, Instant { nanos: 0 }));
    let error = completed_session(vec![1], &ui).unwrap_err();
    assert_eq!(error, SaveError::PendingTools);
    assert_eq!(error.message(), "cannot save a session with pending tools");
    ui.finish_tool(1, Some("no".into()), None, Duration::from_millis(7));
    let session = completed_session(vec![1], &ui).unwrap().unwrap();
    assert_eq!(session.messages.len(), 3);
    assert!(matches!(&session.messages[1], SavedMessage::Thinking { duration_ms: 3, .. }));
    assert!(matches!(&session.messages[2], SavedMessage::Tools { tools }
        if tools[0].error.as_deref() == Some("no") && tools[0].duration_ms == 7));
}

#[test]
fn help_documents_copy_and_export() {
    assert!(COMMAND_HELP.contains("| `/copy` | copy the latest assistant response |"));
    assert!(COMMAND_HELP.contains("| `/export` | save the conversation as Markdown |"));
    assert!(COMMAND_HELP.contains("| `/exit` `/quit` | save the session and exit |"));
}
