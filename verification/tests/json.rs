use rmcp::model::{CallToolResult, ResourceContents};
use thx::budget::limit_json;
use thx::detail::{preview_text, tool_detail, tool_output_preview, MAX_TOOL_OUTPUT_PREVIEW_BYTES};
use thx::history::{
    compact_tool_history, HistoryMessage, ResultContent, UserItem, MAX_HISTORY_TOOL_RESULT_BYTES,
};
use thx::json::{same_json, set_field, Json};
use thx::reply::{
    encode_tool_result, judge, mcp_tool_error_message, project_tool_result, read_reply, reply_of,
    validate_structured_output, ReplyBlock, ReplyError, ReplyParts, ToolOutput, ToolReply,
    MAX_MODEL_TOOL_RESULT_BYTES, MAX_RAW_MCP_RESULT_BYTES, MAX_UI_TOOL_RESULT_BYTES,
};

fn from_value(value: &serde_json::Value) -> Json {
    match value {
        serde_json::Value::Null => Json::Null,
        serde_json::Value::Bool(value) => Json::Bool(*value),
        serde_json::Value::Number(value) => Json::Number(value.to_string()),
        serde_json::Value::String(value) => Json::Text(value.clone()),
        serde_json::Value::Array(values) => Json::Array(values.iter().map(from_value).collect()),
        serde_json::Value::Object(fields) => Json::Object(
            fields.iter().map(|(name, value)| (name.clone(), from_value(value))).collect(),
        ),
    }
}

fn json(text: &str) -> Json {
    from_value(&serde_json::from_str(text).expect("valid JSON"))
}

fn number(text: &str) -> serde_json::Value {
    match (text.parse::<u64>(), text.parse::<i64>()) {
        (Ok(number), _) => number.into(),
        (_, Ok(number)) => number.into(),
        _ => text.parse::<f64>().expect("a number").into(),
    }
}

fn to_value(json: &Json) -> serde_json::Value {
    match json {
        Json::Null => serde_json::Value::Null,
        Json::Bool(value) => serde_json::Value::Bool(*value),
        Json::Number(text) => number(text),
        Json::Text(text) => serde_json::Value::String(text.clone()),
        Json::Array(items) => serde_json::Value::Array(items.iter().map(to_value).collect()),
        Json::Object(fields) => serde_json::Value::Object(
            fields.iter().map(|(name, value)| (name.clone(), to_value(value))).collect(),
        ),
    }
}

fn compact_json(json: &Json) -> String {
    to_value(json).to_string()
}

fn json_len(json: &Json) -> usize {
    compact_json(json).len()
}

fn field<'a>(value: &'a Json, name: &str) -> &'a Json {
    match value {
        Json::Object(fields) => {
            &fields.iter().find(|(field, _)| field == name).expect("a field of that name").1
        }
        _ => panic!("expected an object"),
    }
}

fn text(value: &Json) -> &str {
    match value {
        Json::Text(text) => text,
        _ => panic!("expected a text"),
    }
}

fn block(value: &str) -> ReplyBlock {
    ReplyBlock::Text { text: value.into() }
}

fn structured(value: Json) -> ToolReply {
    let result = CallToolResult::structured(to_value(&value));
    ToolReply {
        bytes: serde_json::to_vec(&result).unwrap().len(),
        content: vec![block(&compact_json(&value))],
        structured_content: Some(value),
        is_error: Some(false),
    }
}

fn unstructured(content: Vec<ReplyBlock>, is_error: bool) -> ToolReply {
    ToolReply { bytes: 64, content, structured_content: None, is_error: Some(is_error) }
}

fn as_json(output: &ToolOutput) -> &Json {
    match output {
        ToolOutput::Json(json) => json,
        ToolOutput::Text(_) => panic!("expected JSON"),
    }
}

fn as_text(output: &ToolOutput) -> &str {
    match output {
        ToolOutput::Text(text) => text,
        ToolOutput::Json(_) => panic!("expected text"),
    }
}

// ---------- Values ----------

#[test]
fn values_are_written_as_serde_json_writes_them() {
    let source = r#"{"b":[1,2.5,-3,1e30],"a":{"x":null,"y":true},"c":"é\n\"","d":-0.0}"#;
    let value = json(source);
    let expected: serde_json::Value = serde_json::from_str(source).unwrap();
    assert_eq!(tool_output_preview(&value), serde_json::to_string_pretty(&expected).unwrap());
    assert_eq!(
        mcp_tool_error_message(&ToolOutput::Json(value.copy())),
        format!("MCP tool returned isError=true: {expected}")
    );
    let len = serde_json::to_vec(&expected).unwrap().len();
    assert!(same_json(&limit_json(value.copy(), len), &value));
    assert!(!same_json(&limit_json(value.copy(), len - 1), &value));
}

#[test]
fn numbers_keep_their_value() {
    for number in [
        51.24817837550540_4,
        -93.3113703768803_3,
        52.31400820410624_4,
        2.0030397744267762e-253,
        3.9287532173373315e299,
        0.1 + 0.2,
        5e-324,
        f64::MAX,
        1e21,
        -0.0,
    ] {
        let expected = serde_json::Value::from(number);
        let shown = mcp_tool_error_message(&ToolOutput::Json(from_value(&expected)));
        assert_eq!(shown, format!("MCP tool returned isError=true: {expected}"));
    }
    for number in [0, 7, u64::MAX] {
        let expected = serde_json::Value::from(number);
        let shown = mcp_tool_error_message(&ToolOutput::Json(from_value(&expected)));
        assert_eq!(shown, format!("MCP tool returned isError=true: {number}"));
    }
    let shown = mcp_tool_error_message(&ToolOutput::Json(Json::Number(i64::MIN.to_string())));
    assert_eq!(shown, format!("MCP tool returned isError=true: {}", i64::MIN));
    for text in ["inf", "{}", ""] {
        let shown = mcp_tool_error_message(&ToolOutput::Json(Json::Number(text.into())));
        assert_eq!(shown, "MCP tool returned isError=true: null");
    }
}

#[test]
fn empty_values_have_known_lengths() {
    for (text, len) in [("null", 4), ("\"\"", 2), ("[]", 2), ("{}", 2)] {
        let items = (0..200).map(|_| json(text)).collect();
        let whole = 200 * (len + 1) + 1;
        assert_eq!(compact_json(&limit_json(Json::Array(items), whole)).len(), whole);
    }
}

#[test]
fn texts_that_are_no_json_are_kept() {
    for text in ["{", "nul", "", "{\"answer\":43}", "{\"answer\":42} x"] {
        let mut result = structured(json(r#"{"answer":42}"#));
        result.content.push(block(text));
        let projected = project_tool_result(&result).unwrap();
        let Json::Array(content) = field(&projected.ui, "content") else { panic!("an array") };
        assert_eq!(content.len(), 1);
    }
    let mut result = structured(json(r#"{"answer":42}"#));
    result.content.push(block(" { \"answer\" : 42 } "));
    assert_eq!(compact_json(&project_tool_result(&result).unwrap().ui), r#"{"answer":42}"#);
}

#[test]
fn numbers_that_are_none_count_as_null() {
    for text in ["{}", "[1]", "", "x"] {
        assert_eq!(
            mcp_tool_error_message(&ToolOutput::Json(Json::Number(text.into()))),
            "MCP tool returned isError=true: null"
        );
    }
}

#[test]
fn values_are_compared_as_serde_json_compares_them() {
    let samples = [
        "null", "true", "false", "0", "0.0", "-0.0", "-0", "1", "1.0", "10e-1", "\"1\"", "[]",
        "[1]", "[1,2]", "{}", "{\"a\":1}", "{\"a\":1.0}", "{\"b\":1}", "{\"a\":1,\"b\":2}",
        "{\"b\":2,\"a\":1}", "[0.0]", "[-0.0]", "18446744073709551615", "-9223372036854775808",
    ];
    for a in samples {
        for b in samples {
            let expected = serde_json::from_str::<serde_json::Value>(a).unwrap()
                == serde_json::from_str::<serde_json::Value>(b).unwrap();
            assert_eq!(same_json(&json(a), &json(b)), expected, "{a} and {b}");
        }
    }
}

#[test]
fn fields_are_set_in_order() {
    let mut fields: Vec<(String, Json)> = Vec::new();
    for name in ["m", "a", "z", "b", "m"] {
        set_field(&mut fields, name.into(), Json::Text(name.to_uppercase()));
    }
    let names: Vec<&str> = fields.iter().map(|(name, _)| name.as_str()).collect();
    assert_eq!(names, ["a", "b", "m", "z"]);
}

// ---------- Details and previews ----------

#[test]
fn tool_detail_prefers_paths_and_urls() {
    assert_eq!(
        tool_detail(&json(r#"{"max_length":1000,"url":"https://example.com"}"#)),
        "url https://example.com"
    );
    assert_eq!(tool_detail(&json(r#"{"paths":["/a","/b"]}"#)), "paths /a, /b");
}

#[test]
fn tool_detail_picks_the_most_telling_argument() {
    assert_eq!(tool_detail(&json("{}")), "");
    assert_eq!(tool_detail(&json("null")), "");
    assert_eq!(tool_detail(&json("\"  plain   text \"")), "plain text");
    assert_eq!(tool_detail(&json("true")), "true");
    assert_eq!(tool_detail(&json(r#"{"a":1,"b":22,"c":33}"#)), "c 33");
    assert_eq!(tool_detail(&json(r#"{"a":"longer","b":"short"}"#)), "a longer");
    assert_eq!(tool_detail(&json(r#"{"a":["x",null],"b":false}"#)), "b false");
    assert_eq!(tool_detail(&json(r#"{"a":"../up","b":"much longer text"}"#)), "a ../up");
}

#[test]
fn previews_stop_at_their_limits() {
    let lines: Vec<String> = (0..300).map(|n| n.to_string()).collect();
    let shown = preview_text(lines.join("\n"));
    assert!(shown.ends_with("198\n… [output preview truncated]"), "{shown}");
    assert_eq!(shown.lines().count(), 200);
    let fitting = lines[..199].join("\n");
    assert_eq!(preview_text(fitting.clone()), fitting);
    let long = "x".repeat(MAX_TOOL_OUTPUT_PREVIEW_BYTES + 1);
    assert_eq!(
        preview_text(long.clone()),
        format!("{}\n… [output preview truncated]", &long[..MAX_TOOL_OUTPUT_PREVIEW_BYTES])
    );
    assert_eq!(tool_output_preview(&json("[1]")), "[\n  1\n]");
}

// ---------- Replies ----------

#[test]
fn tool_result_projection_deduplicates_structured_compatibility_text() {
    let result = structured(json(r#"{"answer":42}"#));
    let projected = project_tool_result(&result).unwrap();
    assert!(same_json(as_json(&projected.model), &json(r#"{"answer":42}"#)));
    assert!(same_json(&projected.ui, &json(r#"{"answer":42}"#)));
}

#[test]
fn tool_result_projection_preserves_additional_text() {
    let mut result = structured(json(r#"{"answer":42}"#));
    result.content.push(block("Additional note"));
    let projected = project_tool_result(&result).unwrap();
    let value = as_json(&projected.model);
    assert!(same_json(field(value, "structuredContent"), &json(r#"{"answer":42}"#)));
    let Json::Array(content) = field(value, "content") else { panic!("expected an array") };
    assert_eq!(text(field(&content[0], "text")), "Additional note");
}

#[test]
fn tool_result_projection_preserves_error_state_and_small_text() {
    let result = unstructured(vec![block("failed")], true);
    let projected = project_tool_result(&result).unwrap();
    assert!(projected.is_error);
    assert_eq!(as_text(&projected.model), "failed");
    assert!(mcp_tool_error_message(&projected.model).contains("failed"));
}

#[test]
fn large_text_projection_keeps_head_and_tail() {
    let log = format!("BEGIN\n{}\nFINAL ERROR", "x".repeat(50 * 1024));
    let result = unstructured(vec![ReplyBlock::Text { text: log }], false);
    let projected = project_tool_result(&result).unwrap();
    let model = as_text(&projected.model);
    assert!(model.contains("BEGIN"));
    assert!(model.contains("FINAL ERROR"));
    assert!(model.contains("bytes omitted"));
    assert!(model.len() <= MAX_MODEL_TOOL_RESULT_BYTES);
}

#[test]
fn structured_projection_remains_valid_bounded_json() {
    let value = json(&format!(r#"{{"log":"{}"}}"#, "🙂".repeat(20_000)));
    let result = structured(value);
    let projected = project_tool_result(&result).unwrap();
    let value = as_json(&projected.model);
    assert!(json_len(value) <= MAX_MODEL_TOOL_RESULT_BYTES);
    assert!(text(field(value, "log")).contains("bytes omitted"));

    let preview = tool_output_preview(&json(&format!(
        r#"{{"text":"{}"}}"#,
        "🙂".repeat(MAX_TOOL_OUTPUT_PREVIEW_BYTES)
    )));
    assert!(preview.contains("output preview truncated"));
}

#[test]
fn structured_projections_apply_one_global_budget_with_array_sampling() {
    let rows: Vec<String> = (0..1_000)
        .map(|index| {
            format!(
                r#"{{"index":{index},"payload":"HEAD-{index}|{}|TAIL-{index}"}}"#,
                "🙂".repeat(400)
            )
        })
        .collect();
    let value = json(&format!(
        r#"{{"requestId":"stress-123","status":"complete","rows":[{}]}}"#,
        rows.join(",")
    ));
    let result = structured(value);
    let projected = project_tool_result(&result).unwrap();
    let projections = [
        (as_json(&projected.model).copy(), MAX_MODEL_TOOL_RESULT_BYTES),
        (projected.ui, MAX_UI_TOOL_RESULT_BYTES),
        (
            limit_json(result.structured_content.unwrap(), MAX_HISTORY_TOOL_RESULT_BYTES),
            MAX_HISTORY_TOOL_RESULT_BYTES,
        ),
    ];

    for (projection, budget) in projections {
        let encoded = compact_json(&projection);
        assert!(encoded.len() <= budget, "{} > {budget}", encoded.len());
        let decoded: serde_json::Value = serde_json::from_str(&encoded).unwrap();
        let rendered = decoded.to_string();
        assert!(rendered.contains("stress-123"), "{rendered}");
        assert!(rendered.contains("HEAD-0"), "{rendered}");
        assert!(rendered.contains("TAIL-999"), "{rendered}");
        assert!(rendered.matches("__thx_omitted_items").count() <= 1);
        assert!(rendered.matches("bytes omitted").count() <= 8);
    }
}

#[test]
fn array_projection_does_not_grow_with_omission_markers() {
    let large_item = "x".repeat(1_000);
    for count in [100, 10_000] {
        let items: Vec<Json> = (0..count).map(|_| Json::Text(large_item.clone())).collect();
        let projection = limit_json(Json::Array(items), 512);
        let encoded = compact_json(&projection);
        assert!(encoded.len() <= 512, "{} > 512", encoded.len());
        assert!(serde_json::from_str::<serde_json::Value>(&encoded).is_ok());
        assert_eq!(encoded.matches("__thx_omitted_items").count(), 1);
    }
}

#[test]
fn historical_object_compaction_keeps_metadata_and_a_significant_scalar() {
    let large = format!(
        "BEGIN-UNIQUE|{}MIDDLE-UNIQUE{}|END-UNIQUE",
        "x".repeat(4_000),
        "y".repeat(4_000)
    );
    let value = json(&format!(
        r#"{{"a_compact_fact":"useful","b_count":17,"z_arbitrary_payload_name":"{large}"}}"#
    ));
    let compact = limit_json(value, MAX_HISTORY_TOOL_RESULT_BYTES);
    let rendered = compact_json(&compact);

    assert!(rendered.len() <= MAX_HISTORY_TOOL_RESULT_BYTES);
    assert_eq!(text(field(&compact, "a_compact_fact")), "useful");
    assert!(rendered.contains("BEGIN-UNIQUE"), "{rendered}");
    assert!(rendered.contains("END-UNIQUE"), "{rendered}");
    assert!(rendered.contains("bytes omitted"), "{rendered}");
    assert!(!rendered.contains("MIDDLE-UNIQUE"), "{rendered}");
}

#[test]
fn projections_of_small_budgets_are_exact() {
    let numbers = json("[1,2,3,4,5,6,7,8,9,10]");
    assert_eq!(
        compact_json(&limit_json(numbers.copy(), 20)),
        "[]"
    );
    assert_eq!(compact_json(&limit_json(numbers.copy(), 22)), compact_json(&numbers));
    assert_eq!(compact_json(&limit_json(json("[\"aaaaaaaaaa\",1]"), 10)), "[\"\\n\\n\",1]");
    assert_eq!(compact_json(&limit_json(json("123456"), 5)), "null");
    for (text, bare) in [("123456", "null"), ("\"abc\"", "\"\""), ("[1]", "[]"), ("{\"a\":1}", "{}")] {
        for budget in 0..2 {
            let shown = limit_json(json(text), budget);
            assert_eq!(compact_json(&shown), bare);
            assert_eq!(compact_json(&limit_json(shown, budget)), bare);
        }
    }
    assert_eq!(compact_json(&limit_json(json("\"abcdefgh\""), 6)), "\"\\n\\n\"");
    assert_eq!(compact_json(&limit_json(json("\"abcdefgh\""), 10)), "\"abcdefgh\"");
}

#[test]
fn omitted_items_are_counted_in_the_middle() {
    let items: Vec<Json> = (0..40).map(|n| Json::Number(n.to_string())).collect();
    let shown = limit_json(Json::Array(items), 60);
    assert_eq!(
        compact_json(&shown),
        "[0,1,2,3,{\"__thx_omitted_items\":32},36,37,38,39]"
    );
}

#[test]
fn omitted_fields_are_counted_under_a_free_name() {
    let fields: Vec<String> = (10..40).map(|n| format!(r#""k{n}":{n}"#)).collect();
    let value = json(&format!(r#"{{"__thx_omitted_fields":1,{}}}"#, fields.join(",")));
    let shown = limit_json(value, 120);
    let rendered = compact_json(&shown);
    assert!(rendered.len() <= 120);
    assert_eq!(
        rendered,
        concat_texts(&[
            r#"{"___thx_omitted_fields":23,"__thx_omitted_fields":1,"#,
            r#""k10":10,"k11":11,"k12":12,"k13":13,"k14":14,"k15":15,"k39":39}"#,
        ])
    );
}

fn concat_texts(parts: &[&str]) -> String {
    parts.iter().copied().collect()
}

#[test]
fn what_fits_is_left_alone() {
    let value = json(r#"{"a":[1,{"b":"c"}]}"#);
    let len = json_len(&value);
    assert!(same_json(&limit_json(value.copy(), len), &value));
    let once = limit_json(value.copy(), len - 1);
    assert!(json_len(&once) < len);
    assert!(same_json(&limit_json(once.copy(), len - 1), &once));
}

#[test]
fn non_text_projection_omits_binary_payloads_and_keeps_resource_metadata() {
    let result = CallToolResult::success(vec![
        rmcp::model::ContentBlock::image("IMAGE_BASE64_SECRET", "image/png"),
        rmcp::model::ContentBlock::audio("AUDIO_BASE64_SECRET", "audio/wav"),
        rmcp::model::ContentBlock::resource(ResourceContents::blob(
            "BLOB_BASE64_SECRET",
            "file:///artifact.bin",
        )),
        rmcp::model::ContentBlock::resource_link(
            rmcp::model::Resource::new("file:///report.txt", "report").with_mime_type("text/plain"),
        ),
    ]);
    let payload = serde_json::to_value(&result).unwrap();
    for secret in ["IMAGE_BASE64_SECRET", "AUDIO_BASE64_SECRET", "BLOB_BASE64_SECRET"] {
        assert!(payload.to_string().contains(secret));
    }
    let result = read_reply(&from_value(&payload)).unwrap();
    let projected = project_tool_result(&result).unwrap();
    let model = compact_json(as_json(&projected.model));
    for secret in ["IMAGE_BASE64_SECRET", "AUDIO_BASE64_SECRET", "BLOB_BASE64_SECRET"] {
        assert!(!model.contains(secret));
    }
    assert!(model.contains("MCP image omitted: image/png"));
    assert!(model.contains("MCP audio omitted: audio/wav"));
    assert!(model.contains("file:///artifact.bin"));
    assert!(model.contains("file:///report.txt"));
}

#[test]
fn blocks_are_kept_with_their_names_in_order() {
    let result = unstructured(
        vec![
            block("note"),
            ReplyBlock::TextResource {
                uri: "file:///a".into(),
                mime_type: Some("text/plain".into()),
                text: "body".into(),
            },
            ReplyBlock::OtherResource,
            ReplyBlock::ResourceLink {
                uri: "file:///b".into(),
                name: "b".into(),
                title: Some("B".into()),
                description: Some("second".into()),
                mime_type: None,
                size: Some(12),
            },
            ReplyBlock::Other,
        ],
        false,
    );
    let projected = project_tool_result(&result).unwrap();
    assert_eq!(
        compact_json(&projected.ui),
        concat_texts(&[
            r#"{"content":[{"text":"note","type":"text"},"#,
            r#"{"mimeType":"text/plain","text":"body","type":"resource","uri":"file:///a"},"#,
            r#""[MCP resource omitted]","#,
            r#"{"description":"second","mimeType":null,"name":"b","size":12,"title":"B","#,
            r#""type":"resource_link","uri":"file:///b"},"#,
            r#""[unsupported MCP content omitted]"]}"#,
        ])
    );
    let nothing = unstructured(Vec::new(), false);
    assert_eq!(compact_json(&project_tool_result(&nothing).unwrap().ui), "{}");
}

#[test]
fn replies_are_read_from_values() {
    let reply = read_reply(&json(
        r#"{"content":[
            {"type":"text","text":"note"},
            {"type":"image","data":"AAAA","mimeType":"image/png"},
            {"type":"audio","data":"AAAA","mimeType":"audio/wav"},
            {"type":"resource","resource":{"uri":"file:///a","mimeType":"text/plain","text":"body"}},
            {"type":"resource","resource":{"uri":"file:///b","blob":"AAAA"}},
            {"type":"resource_link","uri":"file:///c","name":"c","title":"C","size":12}
        ],"structuredContent":{"answer":42},"isError":true}"#,
    ))
    .unwrap();
    assert_eq!(reply.is_error, Some(true));
    assert!(same_json(&reply.structured_content.unwrap(), &json(r#"{"answer":42}"#)));
    assert_eq!(
        format!("{:?}", reply.content),
        concat_texts(&[
            r#"[Text { text: "note" }, Image { mime_type: "image/png" }, "#,
            r#"Audio { mime_type: "audio/wav" }, TextResource { uri: "file:///a", "#,
            r#"mime_type: Some("text/plain"), text: "body" }, "#,
            r#"BlobResource { uri: "file:///b", mime_type: None }, "#,
            r#"ResourceLink { uri: "file:///c", name: "c", title: Some("C"), "#,
            r#"description: None, mime_type: None, size: Some(12) }]"#,
        ])
    );
    let error = read_reply(&json(r#"{"other":1}"#)).unwrap_err();
    assert!(error.contains("at least one known CallToolResult field"), "{error}");
    assert!(read_reply(&json("[]")).is_err());
}

#[test]
fn replies_are_as_long_as_they_are_written() {
    for source in [
        r#"{"content":[],"isError":false}"#,
        r#"{"content":[{"type":"text","text":"note","annotations":{"priority":0.1}}]}"#,
        r#"{"content":[{"type":"text","text":"é\n"}],"structuredContent":{"x":2.5,"y":[1]}}"#,
    ] {
        let value: serde_json::Value = serde_json::from_str(source).unwrap();
        let result: CallToolResult = serde_json::from_value(value).unwrap();
        let written = serde_json::to_vec(&result).unwrap().len();
        assert_eq!(read_reply(&json(source)).unwrap().bytes, written);
        let payload = serde_json::to_value(&result).unwrap();
        assert_eq!(read_reply(&from_value(&payload)).unwrap().bytes, written);
    }
    let priority = r#"{"content":[{"type":"text","text":"","annotations":{"priority":0.1}}]}"#;
    let result: CallToolResult = serde_json::from_str(priority).unwrap();
    let widened = serde_json::to_value(&result).unwrap().to_string().len();
    assert!(read_reply(&json(priority)).unwrap().bytes < widened);
}

#[test]
fn replies_need_parts_and_a_length() {
    let parts = || ReplyParts {
        content: vec![block("x")],
        structured_content: Some(Json::Null),
        is_error: Some(true),
    };
    let reply = reply_of(Ok(parts()), Some(7)).unwrap();
    assert_eq!((reply.bytes, reply.content.len(), reply.is_error), (7, 1, Some(true)));
    assert!(matches!(reply.structured_content, Some(Json::Null)));
    let error = reply_of(Ok(parts()), None).unwrap_err();
    assert_eq!(error, "failed to encode MCP tool result");
    assert_eq!(reply_of(Err("no reply".into()), Some(7)).unwrap_err(), "no reply");
    assert_eq!(reply_of(Err("no reply".into()), None).unwrap_err(), "no reply");
}

#[test]
fn replies_that_are_too_large_are_refused() {
    let limit = MAX_RAW_MCP_RESULT_BYTES;
    let mut reply = unstructured(vec![block("x")], false);
    reply.bytes = limit;
    assert!(project_tool_result(&reply).is_ok());
    reply.bytes = limit + 1;
    let error = project_tool_result(&reply).unwrap_err();
    assert_eq!(error, ReplyError::TooLarge { bytes: limit + 1 });
    assert_eq!(
        error.message(),
        "MCP tool result exceeded raw safety limit (4194305 bytes > 4194304 bytes)"
    );
}

#[test]
fn errors_of_tools_name_what_the_tool_says() {
    let message = |output: ToolOutput| mcp_tool_error_message(&output);
    assert_eq!(
        message(ToolOutput::Text(" ".into())),
        "MCP tool returned isError=true: MCP tool error"
    );
    assert_eq!(
        message(ToolOutput::Json(json(r#"{"b":1,"a":2}"#))),
        r#"MCP tool returned isError=true: {"a":2,"b":1}"#
    );
    let long = message(ToolOutput::Text("x".repeat(20_000)));
    assert!(long.contains("bytes omitted from tool error"));
}

// ---------- Output schemas ----------

#[test]
fn output_schema_validates_structured_content() {
    let schema = Some(json(
        r#"{"type":"object","properties":{"answer":{"type":"integer"}},
            "required":["answer"],"additionalProperties":false}"#,
    ));
    let valid = structured(json(r#"{"answer":42}"#));
    assert!(validate_structured_output(&valid, &schema).is_ok());

    let invalid = structured(json(r#"{"answer":"forty-two"}"#));
    let error = validate_structured_output(&invalid, &schema).unwrap_err().message();
    assert_eq!(
        error,
        "MCP server returned structuredContent that does not match its declared outputSchema"
    );
    assert!(error.len() < 128);
    assert!(encode_tool_result(&valid, &schema).is_ok());
    assert_eq!(encode_tool_result(&invalid, &schema).unwrap_err(), ReplyError::SchemaMismatch);
}

#[test]
fn output_schema_requires_structured_content_only_for_success() {
    let schema = Some(json(r#"{"type":"string"}"#));
    let missing = unstructured(vec![block("plain")], false);
    assert!(
        validate_structured_output(&missing, &None).is_ok(),
        "tools without outputSchema may return unstructured output"
    );
    assert_eq!(
        validate_structured_output(&missing, &schema).unwrap_err().message(),
        "MCP server omitted structuredContent required by the tool's declared outputSchema"
    );

    let error = unstructured(vec![block("failed")], true);
    assert!(validate_structured_output(&error, &schema).is_ok());
}

#[test]
fn output_schema_supports_2020_12_root_types_and_composition() {
    for (schema, value) in [
        (r#"{"type":"array","items":{"type":"integer"}}"#, "[1,2]"),
        (r#"{"type":"string","minLength":2}"#, "\"ok\""),
        (r#"{"type":"number","minimum":1}"#, "1.5"),
        (r#"{"type":"boolean"}"#, "true"),
        (r#"{"type":"null"}"#, "null"),
        (r#"{"oneOf":[{"type":"string"},{"type":"integer"}]}"#, "7"),
    ] {
        let result = structured(json(value));
        assert!(validate_structured_output(&result, &Some(json(schema))).is_ok());
    }
}

#[test]
fn output_schema_resolves_local_defs_but_rejects_external_refs() {
    let local = Some(json(
        r##"{"$defs":{"item":{"type":"string","pattern":"^[a-z]+$"}},
            "type":"array","items":{"$ref":"#/$defs/item"}}"##,
    ));
    assert!(
        validate_structured_output(&structured(json(r#"["alpha","beta"]"#)), &local).is_ok()
    );

    for reference in [
        "https://127.0.0.1:9/schema.json",
        "file:///definitely-not-readable-by-thx/schema.json",
    ] {
        let schema = Some(json(&format!(r#"{{"$ref":"{reference}"}}"#)));
        assert!(validate_structured_output(&structured(json("{}")), &schema).is_err());
    }
}

#[test]
fn output_schema_rejects_invalid_and_handles_deep_recursive_schemas() {
    let invalid = Some(json(r#"{"type":42}"#));
    assert_eq!(
        validate_structured_output(&structured(json("42")), &invalid).unwrap_err().message(),
        "MCP tool declared an invalid outputSchema"
    );

    let recursive = Some(json(
        r##"{"$defs":{"node":{"oneOf":[
            {"type":"null"},
            {"type":"object","properties":{"next":{"$ref":"#/$defs/node"}},"required":["next"]}
        ]}},"$ref":"#/$defs/node"}"##,
    ));
    let mut value = Json::Null;
    for _ in 0..64 {
        value = Json::Object(vec![("next".into(), value)]);
    }
    assert!(validate_structured_output(&structured(value), &recursive).is_ok());
}

#[test]
fn verdicts_of_schemas_are_judged() {
    assert_eq!(judge(None), Err(ReplyError::InvalidSchema));
    assert_eq!(judge(Some(false)), Err(ReplyError::SchemaMismatch));
    assert_eq!(judge(Some(true)), Ok(()));
}

// ---------- History ----------

fn result_message(content: &str) -> HistoryMessage {
    HistoryMessage::User(vec![UserItem::ToolResult(vec![ResultContent::Text(content.into())])])
}

fn result_text(message: &HistoryMessage, item: usize) -> &str {
    match message {
        HistoryMessage::User(items) => match &items[item] {
            UserItem::ToolResult(content) => match &content[0] {
                ResultContent::Text(text) => text,
                _ => panic!("expected text"),
            },
            UserItem::Other => panic!("expected tool result content"),
        },
        HistoryMessage::Other => panic!("expected a message of the user"),
    }
}

#[test]
fn newest_tool_result_batch_stays_current_then_becomes_historical() {
    let large = "start".to_owned() + &"x".repeat(20_000) + "end";
    let batch = HistoryMessage::User(vec![
        UserItem::ToolResult(vec![ResultContent::Text(large.clone())]),
        UserItem::ToolResult(vec![ResultContent::Text(large.clone())]),
    ]);
    let history = vec![result_message(&large), HistoryMessage::Other, batch];
    let compacted = compact_tool_history(&history, true);
    assert!(result_text(&compacted[0], 0).len() <= MAX_HISTORY_TOOL_RESULT_BYTES);
    assert!(result_text(&compacted[0], 0).ends_with("end"));
    assert_eq!(result_text(&compacted[2], 0), large);
    assert_eq!(result_text(&compacted[2], 1), large);

    let historical = compact_tool_history(&history, false);
    assert!(matches!(&historical[2], HistoryMessage::User(items) if items.len() == 2));
    for item in 0..2 {
        let text = result_text(&historical[2], item);
        assert!(text.len() <= MAX_HISTORY_TOOL_RESULT_BYTES && text.ends_with("end"));
    }
}

#[test]
fn small_historical_tool_results_remain_unchanged() {
    let history = vec![result_message("useful exact value")];
    let compacted = compact_tool_history(&history, false);
    assert_eq!(compacted.len(), 1);
    assert_eq!(result_text(&compacted[0], 0), "useful exact value");
}

#[test]
fn earlier_tool_results_stay_full_until_the_user_turn_finishes() {
    let exact = "EXACT-VALUE-FROM-TOOL-A";
    let large = format!("{}{}{}", "a".repeat(900), exact, "z".repeat(7_000));
    let prompt = || HistoryMessage::User(vec![UserItem::Other]);
    let mut history = vec![
        prompt(),
        HistoryMessage::Other,
        result_message(&large),
        HistoryMessage::Other,
        result_message("second operation complete"),
    ];
    let during = compact_tool_history(&history, true);
    assert!(result_text(&during[2], 0).contains(exact));
    assert_eq!(result_text(&during[4], 0), "second operation complete");

    history.push(HistoryMessage::Other);
    history.push(prompt());
    let after = compact_tool_history(&history, true);
    assert!(!result_text(&after[2], 0).contains(exact));
    assert!(result_text(&after[2], 0).len() < result_text(&during[2], 0).len());
}

#[test]
fn images_are_left_out_of_older_results() {
    let history = vec![HistoryMessage::User(vec![
        UserItem::ToolResult(vec![
            ResultContent::Image,
            ResultContent::Json(json(&format!(r#"{{"a":"{}"}}"#, "x".repeat(5_000)))),
        ]),
        UserItem::Other,
    ])];
    let compacted = compact_tool_history(&history, false);
    let HistoryMessage::User(items) = &compacted[0] else { panic!("expected a user message") };
    let UserItem::ToolResult(content) = &items[0] else { panic!("expected a result") };
    assert!(matches!(&content[0], ResultContent::Text(text)
        if text == "[image omitted from older tool result]"));
    let ResultContent::Json(value) = &content[1] else { panic!("expected JSON") };
    assert!(json_len(value) <= MAX_HISTORY_TOOL_RESULT_BYTES);
    assert!(matches!(&items[1], UserItem::Other));
}
