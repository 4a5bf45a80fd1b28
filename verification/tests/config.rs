use thx::config::{
    agent_path, config_found, env_or, env_path, env_u64, expand, nonempty, parse_u64, positive_u64, split_agent,
    AgentError, AgentFile, ConfigRead, EnvValue, Environment, Settings, DEFAULT_BASE_URL, DEFAULT_MCP_CONFIG,
    DEFAULT_MODEL,
};
use thx::host::{
    model_tool_name, Closing, ListedTool, McpConnection, McpHost, ProgressRouter, ProgressToken,
};
use thx::json::Json;
use thx::server::{
    header_entry, judge_url, mcp_headers, validate_mcp_url, HttpServer, StdioServer, UrlError,
    UrlHost, UrlParts,
};
use thx::turn::ToolEvent;

fn from_value(value: &serde_json::Value) -> Json {
    match value {
        serde_json::Value::Null => Json::Null,
        serde_json::Value::Bool(value) => Json::Bool(*value),
        serde_json::Value::Number(value) => Json::Number(value.to_string()),
        serde_json::Value::String(value) => Json::Text(value.clone()),
        serde_json::Value::Array(values) => Json::Array(values.iter().map(from_value).collect()),
        serde_json::Value::Object(fields) => Json::Object(
            fields.iter().map(|(name, value)| (name.clone(), from_value(value))).collect(),
        ),
    }
}

fn set(value: &str) -> EnvValue {
    EnvValue::Text(value.into())
}

fn test_settings() -> Settings {
    Settings {
        api_key: "test-key".into(),
        base_url: "https://example.com/v1".into(),
        model: "test-model".into(),
        model_context_window: None,
        system: None,
        agent_name: None,
        agent_description: None,
        additional_params: Json::Object(Vec::new()),
        mcp_config: Some("missing-mcp.json".into()),
    }
}

fn environment() -> Environment {
    Environment {
        api_key: set("secret"),
        base_url: EnvValue::Missing,
        model: EnvValue::Missing,
        context_window: EnvValue::Missing,
        mcp_config: EnvValue::Missing,
    }
}

fn optional_text(value: &serde_json::Value, name: &str) -> Option<String> {
    value.get(name).and_then(|value| value.as_str()).map(|text| text.to_owned())
}

fn parse_agent(text: &str) -> Result<AgentFile, String> {
    let parts = split_agent(text).map_err(|error| error.message())?;
    let yaml: serde_json::Value =
        serde_yaml_ng::from_str(&parts.frontmatter).map_err(|error| error.to_string())?;
    let known = ["name", "description", "base_url", "model", "model_context_window"];
    let params = yaml
        .as_object()
        .expect("settings")
        .iter()
        .filter(|(name, _)| !known.contains(&name.as_str()))
        .map(|(name, value)| (name.clone(), from_value(value)))
        .collect();
    let agent = AgentFile {
        name: optional_text(&yaml, "name"),
        description: optional_text(&yaml, "description"),
        base_url: optional_text(&yaml, "base_url"),
        model: optional_text(&yaml, "model"),
        model_context_window: yaml.get("model_context_window").and_then(|value| value.as_u64()),
        params,
        prompt: String::new(),
    };
    agent.with_prompt(parts.prompt).map_err(|error| error.message())
}

// ---------- Settings ----------

#[test]
fn session_label_shows_model_and_tool_count() {
    let settings = test_settings();
    assert_eq!(settings.session_label(0), "test-model");
    assert_eq!(settings.session_label(1), "test-model · 1 tool");
    assert_eq!(settings.session_label(3), "test-model · 3 tools");
}

#[test]
fn settings_load_uses_defaults() {
    let settings = Settings::load(&environment(), AgentFile::empty()).unwrap();
    assert_eq!(settings.api_key, "secret");
    assert_eq!(settings.base_url, DEFAULT_BASE_URL);
    assert_eq!(settings.model, DEFAULT_MODEL);
    assert_eq!(settings.model_context_window, None);
    assert_eq!(settings.system, None);
    assert_eq!(settings.mcp_config, None);
    assert_eq!(settings.mcp_path(), (DEFAULT_MCP_CONFIG, true));
}

#[test]
fn settings_load_reads_agent_configuration() {
    let agent = parse_agent(
        "---\nname: leader\ndescription: Leads\nbase_url: https://agent.example/v1\nmodel: agent-model\nmodel_context_window: 200000\nother_param: hello\n---\n\nAgent prompt.\n",
    )
    .unwrap();
    let env = Environment {
        api_key: set("secret"),
        base_url: set("https://ignored.example/v1"),
        model: set("ignored-model"),
        context_window: set("not-used"),
        mcp_config: set("custom-mcp.json"),
    };
    let settings = Settings::load(&env, agent).unwrap();
    assert_eq!(settings.base_url, "https://agent.example/v1");
    assert_eq!(settings.model, "agent-model");
    assert_eq!(settings.model_context_window, Some(200_000));
    assert_eq!(settings.system.as_deref(), Some("Agent prompt."));
    assert_eq!(settings.agent_name.as_deref(), Some("leader"));
    assert_eq!(settings.agent_description.as_deref(), Some("Leads"));
    assert!(matches!(&settings.additional_params, Json::Object(fields)
        if fields.len() == 1 && fields[0].0 == "other_param"
            && matches!(&fields[0].1, Json::Text(text) if text == "hello")));
    assert_eq!(settings.mcp_path(), ("custom-mcp.json", false));
}

#[test]
fn parse_agent_preserves_unknown_model_parameters() {
    let agent = parse_agent(
        "---\nname: leader\nmodel: openai/gpt-5\nmodel_context_window: 400000\nreasoning_effort: high\ncount: 3\n---\n\nSystem prompt.\n",
    )
    .unwrap();
    assert_eq!(agent.name.as_deref(), Some("leader"));
    assert_eq!(agent.model.as_deref(), Some("openai/gpt-5"));
    assert_eq!(agent.model_context_window, Some(400_000));
    let param = |name: &str| agent.params.iter().find(|(field, _)| field == name);
    assert!(param("model_context_window").is_none());
    assert!(matches!(&param("reasoning_effort").unwrap().1, Json::Text(text) if text == "high"));
    assert!(matches!(&param("count").unwrap().1, Json::Number(text) if text == "3"));
    assert_eq!(agent.prompt, "System prompt.");
}

#[test]
fn parse_agent_requires_frontmatter_and_prompt() {
    assert!(parse_agent("Prompt only").is_err());
    assert!(parse_agent("---\nname: x\n---\n\n").is_err());
    assert!(parse_agent("---\nname: x\nPrompt").is_err());
}

#[test]
fn agent_files_are_split_at_their_markers() {
    let parts = split_agent("---\r\nname: x\r\n---\r\n\r\n Prompt \n---\nmore\n").unwrap();
    assert_eq!(parts.frontmatter, "name: x\r\n");
    assert_eq!(parts.prompt, "Prompt \n---\nmore");
    let bare = split_agent("---\n---").unwrap();
    assert_eq!((bare.frontmatter.as_str(), bare.prompt.as_str()), ("", ""));
    assert_eq!(split_agent("").unwrap_err(), AgentError::MissingFrontmatter);
    assert_eq!(split_agent("----\n---\nx").unwrap_err(), AgentError::NoFrontmatter);
    assert_eq!(split_agent("---\na: b\n --- \nx").unwrap_err(), AgentError::Unterminated);
    assert_eq!(
        AgentFile::empty().with_prompt(String::new()).unwrap_err(),
        AgentError::EmptyPrompt
    );
    assert_eq!(AgentError::NoFrontmatter.message(), "agent file must start with YAML frontmatter");
    assert_eq!(AgentError::MissingFrontmatter.message(), "missing YAML frontmatter");
    assert_eq!(AgentError::Unterminated.message(), "unterminated YAML frontmatter");
    assert_eq!(AgentError::EmptyPrompt.message(), "agent system prompt must not be empty");
}

#[test]
fn settings_load_reads_context_window_from_env() {
    let env = Environment { context_window: set("400000"), ..environment() };
    assert_eq!(
        Settings::load(&env, AgentFile::empty()).unwrap().model_context_window,
        Some(400_000)
    );
}

#[test]
fn settings_load_rejects_invalid_context_window() {
    let env = Environment { context_window: set("0"), ..environment() };
    assert!(Settings::load(&env, AgentFile::empty()).is_err());
}

#[test]
fn settings_load_names_the_first_fault() {
    let fault = |env: Environment| Settings::load(&env, AgentFile::empty()).unwrap_err();
    assert_eq!(
        fault(Environment { api_key: EnvValue::Missing, ..environment() }),
        "OPENAI_API_KEY must not be empty"
    );
    assert_eq!(
        fault(Environment { model: set("  "), api_key: EnvValue::Missing, ..environment() }),
        "OPENAI_MODEL must not be empty"
    );
    assert_eq!(
        fault(Environment { base_url: EnvValue::Unreadable("no text".into()), ..environment() }),
        "failed to read OPENAI_BASE_URL: no text"
    );
    assert_eq!(
        fault(Environment { context_window: set("many"), ..environment() }),
        "MODEL_CONTEXT_WINDOW must be a positive integer: invalid digit found in string"
    );
    assert_eq!(
        fault(Environment { mcp_config: set(" "), ..environment() }),
        "MCP_CONFIG must not be empty"
    );
    let agent = AgentFile { model_context_window: Some(0), ..AgentFile::empty() };
    assert_eq!(
        Settings::load(&environment(), agent).unwrap_err(),
        "agent model_context_window must be greater than zero"
    );
    let agent = AgentFile { base_url: Some(" ".into()), ..AgentFile::empty() };
    assert_eq!(
        Settings::load(&environment(), agent).unwrap_err(),
        "agent base_url must not be empty"
    );
}

#[test]
fn single_settings_are_checked() {
    assert_eq!(nonempty("NAME", " x ".into()).unwrap(), " x ");
    assert_eq!(nonempty("NAME", "\t".into()).unwrap_err(), "NAME must not be empty");
    assert_eq!(env_or("NAME", &EnvValue::Missing, "default").unwrap(), "default");
    assert_eq!(env_or("NAME", &set("value"), "default").unwrap(), "value");
    assert_eq!(positive_u64("N", 3).unwrap(), 3);
    assert_eq!(positive_u64("N", 0).unwrap_err(), "N must be greater than zero");
    assert_eq!(env_u64("N", &EnvValue::Missing).unwrap(), None);
    assert_eq!(env_u64("N", &set(" 12\n")).unwrap(), Some(12));
    assert_eq!(
        env_u64("N", &EnvValue::Unreadable("why".into())).unwrap_err(),
        "failed to read N: why"
    );
    for text in ["", "x", "-1", "99999999999999999999"] {
        let cause = text.parse::<u64>().unwrap_err();
        assert_eq!(
            env_u64("N", &set(text)).unwrap_err(),
            format!("N must be a positive integer: {cause}")
        );
    }
    assert_eq!(env_path("P", &EnvValue::Missing).unwrap(), None);
    assert_eq!(env_path("P", &set("a/b")).unwrap().as_deref(), Some("a/b"));
}

#[test]
fn numbers_are_read_as_the_standard_library_reads_them() {
    for text in [
        "", "+", "-", "0", "+0", "-0", "00012", "+7", "1 ", " 1", "1_0", "18446744073709551615",
        "18446744073709551616", "99999999999999999999999", "٣", "1.0", "++1", "0x10",
    ] {
        assert_eq!(parse_u64(text), text.parse::<u64>().ok(), "{text}");
    }
}

#[test]
fn agents_are_found_by_file_or_by_name() {
    let path = |file: EnvValue, name: EnvValue| agent_path(&file, &name);
    assert_eq!(path(EnvValue::Missing, EnvValue::Missing).unwrap(), None);
    assert_eq!(
        path(set("agents/x.md"), set("ignored")).unwrap().as_deref(),
        Some("agents/x.md")
    );
    assert_eq!(
        path(EnvValue::Missing, set("leader")).unwrap().as_deref(),
        Some(".agents/agents/leader.md")
    );
    assert_eq!(
        path(EnvValue::Missing, set("")).unwrap_err(),
        "THX_AGENT must not be empty"
    );
}

#[test]
fn expand_uses_standard_shell_syntax() {
    dotenvy::from_read("THX_EXPAND=value\nHOME=/home/thx\n".as_bytes()).unwrap();
    assert_eq!(expand("${THX_EXPAND}/x").unwrap(), "value/x");
    assert_eq!(expand("$THX_EXPAND/x").unwrap(), "value/x");
    assert!(!expand("~/x").unwrap().starts_with('~'));
    assert_eq!(expand("${THX_EXPAND_UNSET:-value}/x").unwrap(), "value/x");
    assert_eq!(expand("plain/path").unwrap(), "plain/path");
    assert_eq!(expand("cost: $$5").unwrap(), "cost: $5");
    assert_eq!(expand("$ 5, ${ and $").unwrap(), "$ 5, ${ and $");
    assert_eq!(expand("é$$é").unwrap(), "é$é");
    assert_eq!(expand("${THX_EXPAND:-no}${THX_EXPAND_UNSET:-a:-b}").unwrap(), "valuea:-b");
    assert_eq!(expand("~user/$$").unwrap(), "~user/$");
    assert!(expand("~").unwrap() != "~");
    assert!(expand("~/$$/x").unwrap().ends_with("/$/x"));
    assert!(expand("${:-x}").is_err());
}

#[test]
fn expand_rejects_missing_shell_variable() {
    assert!(expand("${THX_MISSING_EXPAND}").is_err());
}

#[test]
fn only_the_default_file_of_servers_may_be_missing() {
    let missing = || ConfigRead::NotFound("no such file".into());
    assert_eq!(config_found("mcp.json", true, missing()), Ok(None));
    assert_eq!(
        config_found("mcp.json", false, missing()).unwrap_err(),
        "failed to read mcp.json: no such file"
    );
    for optional in [false, true] {
        assert_eq!(
            config_found("m", optional, ConfigRead::Text("{}".into())).unwrap().as_deref(),
            Some("{}")
        );
        assert_eq!(
            config_found("m", optional, ConfigRead::Failed("locked".into())).unwrap_err(),
            "failed to read m: locked"
        );
    }
}

// ---------- Servers ----------

#[test]
fn validates_secure_mcp_urls() {
    assert!(validate_mcp_url("https://example.com/mcp").is_ok());
    assert!(validate_mcp_url("http://localhost:3000/mcp").is_ok());
    assert!(validate_mcp_url("http://127.0.0.1:3000/mcp").is_ok());
    assert!(validate_mcp_url("http://[::1]:3000/mcp").is_ok());
    assert!(validate_mcp_url("http://example.com/mcp").is_err());
    assert!(validate_mcp_url("ws://localhost/mcp").is_err());
}

#[test]
fn urls_are_refused_for_a_reason() {
    let invalid = UrlError::Invalid("relative URL without a base".into());
    assert_eq!(invalid.message(), "invalid MCP URL: relative URL without a base");
    assert_eq!(validate_mcp_url("no url"), Err(invalid));
    assert_eq!(validate_mcp_url("https://me@example.com/"), Err(UrlError::Credentials));
    assert_eq!(validate_mcp_url("https://:pw@example.com/"), Err(UrlError::Credentials));
    assert_eq!(validate_mcp_url("http://128.0.0.1/"), Err(UrlError::Insecure));
    assert_eq!(validate_mcp_url("http://127.9.9.9/"), Ok(()));
    assert_eq!(validate_mcp_url("http://[::2]/"), Err(UrlError::Insecure));
    assert_eq!(
        UrlError::Credentials.message(),
        "MCP URL must not contain embedded credentials; use headers instead"
    );
    assert_eq!(UrlError::Insecure.message(), "MCP HTTP must use HTTPS except on localhost");
    let parts = |scheme: &str, host: UrlHost| {
        judge_url(Ok(UrlParts {
            scheme: scheme.into(),
            username: String::new(),
            password: false,
            host,
        }))
    };
    assert_eq!(parts("http", UrlHost::Missing), Err(UrlError::Insecure));
    assert_eq!(parts("http", UrlHost::Domain("localhost".into())), Ok(()));
    assert_eq!(parts("https", UrlHost::Missing), Ok(()));
}

#[test]
fn mcp_headers_validate_and_expand_values() {
    dotenvy::from_read("THX_TOKEN='Bearer abc'\n".as_bytes()).unwrap();
    let headers =
        mcp_headers(&vec![("authorization".into(), "${THX_TOKEN}".into())]).unwrap();
    assert_eq!(headers, vec![("authorization".to_owned(), "Bearer abc".to_owned())]);
    let lowered = mcp_headers(&vec![("Authorization".into(), "plain".into())]).unwrap();
    assert_eq!(lowered, vec![("authorization".to_owned(), "plain".to_owned())]);
    assert!(mcp_headers(&vec![("bad header".into(), "x".into())]).is_err());
    assert_eq!(
        header_entry("bad header", Ok("x".into())).unwrap_err(),
        "invalid MCP header name: invalid HTTP header name"
    );
    assert_eq!(
        header_entry("x", Ok("line\nbreak".into())).unwrap_err(),
        "invalid MCP header value: failed to parse header value"
    );
    assert_eq!(header_entry("x", Err("unknown".into())).unwrap_err(), "unknown");
}

#[test]
fn header_values_are_those_without_control_characters() {
    for code in 0..0x250u32 {
        if let Some(c) = char::from_u32(code) {
            let accepted = header_entry("x", Ok(c.to_string())).is_ok();
            assert_eq!(accepted, (c >= ' ' && c != '\u{7f}') || c == '\t', "{code:x}");
        }
    }
}

#[test]
fn servers_are_expanded_before_they_are_reached() {
    let server = StdioServer {
        command: "server".into(),
        args: vec!["a".into(), "${THX_ARG_UNSET:-b}".into()],
        env: vec![("A".into(), "B".into())],
    };
    let started = server.expanded().unwrap();
    assert_eq!(started.command, "server");
    assert_eq!(started.args, ["a", "b"]);
    assert_eq!(started.env, [("A".to_owned(), "B".to_owned())]);
    let broken = StdioServer { args: vec!["$THX_NOT_SET_ANYWHERE".into()], ..started };
    assert!(broken.expanded().is_err());

    let http = HttpServer {
        url: "https://example.com/mcp".into(),
        headers: vec![("X-Test".into(), "yes".into())],
    };
    let target = http.target().unwrap();
    assert_eq!(target.url, "https://example.com/mcp");
    assert_eq!(target.headers, [("x-test".to_owned(), "yes".to_owned())]);
    let insecure = HttpServer { url: "http://example.com".into(), headers: Vec::new() };
    assert_eq!(insecure.target().unwrap_err(), "MCP HTTP must use HTTPS except on localhost");
}

// ---------- Tools ----------

#[test]
fn model_tool_names_are_safe_unique_and_bounded() {
    assert_eq!(
        model_tool_name(2, "my server", "read/file"),
        "mcp_2_my_server_read_file"
    );
    assert_ne!(
        model_tool_name(0, "server", "tool"),
        model_tool_name(1, "server", "tool")
    );
    let name = model_tool_name(999, &"s".repeat(100), &"t".repeat(100));
    assert!(name.len() <= 64);
    assert!(
        name.chars()
            .all(|c| c.is_ascii_alphanumeric() || "_-".contains(c))
    );
}

fn listed(name: &str) -> ListedTool {
    ListedTool {
        name: name.into(),
        description: None,
        input_schema: Json::Object(Vec::new()),
        output_schema: None,
    }
}

#[test]
fn tools_are_offered_under_different_names() {
    let mut host = McpHost::new();
    host.add_tool(0, "files", listed("read/file")).unwrap();
    assert_eq!(
        host.add_tool(0, "files", listed("read file")).unwrap_err(),
        "MCP tool name collision after model-safe normalization: mcp_0_files_read_file"
    );
    host.add_tool(1, "files", listed("read file")).unwrap();
    assert_eq!(host.tools.len(), 2);
    assert_eq!(host.tools[0].label, "files/read/file");
    assert_eq!(host.tools[0].alias, "mcp_0_files_read_file");
    assert_eq!(host.tools[1].alias, "mcp_1_files_read_file");
    assert_eq!(host.tools[1].description, "");
}

#[test]
fn the_summary_counts_servers_and_tools() {
    let mut host = McpHost::new();
    assert_eq!(host.summary(), "No MCP servers connected.");
    host.add_tool(0, "a", listed("x")).unwrap();
    host.add_service(McpConnection {
        name: "a".into(),
        protocol: "2026-07-28".into(),
        tasks: true,
    });
    assert_eq!(
        host.summary(),
        "**MCP** · 1 server · 1 tool\n\n- **a** · 1 tool · MCP 2026-07-28 · Tasks"
    );
    host.add_service(McpConnection { name: "b".into(), protocol: "p".into(), tasks: false });
    assert_eq!(
        host.summary(),
        "**MCP** · 2 servers · 1 tool\n\n- **a** · 1 tool · MCP 2026-07-28 · Tasks\n\n- **b** · 0 tools · MCP p"
    );
    assert_eq!(host.shutdown_result(&vec![Closing::Closed, Closing::Closed]), Ok(()));
    assert_eq!(
        host.shutdown_result(&vec![Closing::TimedOut, Closing::Failed("gone".into())]),
        Err("MCP server a shutdown timed out; MCP server b shutdown failed: gone".into())
    );
}

#[test]
fn progress_routes_only_known_tokens_to_tool_state() {
    let mut router = ProgressRouter::new();
    router.register(ProgressToken::Text("known".into()), 7);

    let ignored = router.handle(&ProgressToken::Number(99), Some("ignored".into()), None);
    assert!(ignored.is_none());

    let known = ProgressToken::Text("known".into());
    let event = router.handle(&known, Some("Compiling 1/2".into()), None);
    assert!(matches!(
        event,
        Some(ToolEvent::Progress { id: 7, status: Some(status) }) if status == "Compiling 1/2"
    ));
}

#[test]
fn progress_without_a_message_is_counted() {
    let mut router = ProgressRouter::new();
    let token = || ProgressToken::Number(5);
    router.register(token(), 1);
    router.register(token(), 2);
    assert_eq!(router.route(&token()), Some(2));
    let event = router.handle(&token(), Some("  ".into()), Some("3/4".into()));
    assert!(matches!(event, Some(ToolEvent::Progress { id: 2, status: Some(s) }) if s == "3/4"));
    assert!(router.handle(&token(), None, None).is_none());
    router.remove(&token());
    assert_eq!(router.route(&token()), None);
}
