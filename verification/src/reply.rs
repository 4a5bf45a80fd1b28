//! Replies of MCP tools: what the model and the user get to see of them.
use rmcp::model;
use vstd::prelude::*;
use vstd::string::*;
use crate::budget;
use crate::budget::limit_json;
use crate::detail::MAX_TOOL_OUTPUT_PREVIEW_BYTES;
use crate::json;
use crate::json::{
    array, compact_json, from_value, object, parse_json, push_field, same_json, to_value, Json,
    JsonView,
};
use crate::text;
use crate::text::{blank, decimal_text, push_decimal};
use crate::thinking;
use crate::truncate;
use crate::truncate::truncate_head_tail;

verus! {

/// The most bytes that the encoding of a reply may take.
pub const MAX_RAW_MCP_RESULT_BYTES: usize = 4194304;

/// The most bytes of a reply that the model is given.
pub const MAX_MODEL_TOOL_RESULT_BYTES: usize = 10240;

/// The most bytes of a reply that the user is shown.
pub const MAX_UI_TOOL_RESULT_BYTES: usize = 8192;

// ---------- Replies ----------

/// One block of a reply's content.
#[allow(inconsistent_fields)]
#[derive(Debug)]
pub enum ReplyBlock {
    Text { text: String },
    Image { mime_type: String },
    Audio { mime_type: String },
    TextResource { uri: String, mime_type: Option<String>, text: String },
    BlobResource { uri: String, mime_type: Option<String> },
    OtherResource,
    ResourceLink {
        uri: String,
        name: String,
        title: Option<String>,
        description: Option<String>,
        mime_type: Option<String>,
        size: Option<u64>,
    },
    Other,
}

/// The reply of a tool: the bytes that its encoding takes as a whole, and the parts that are
/// read.
#[derive(Debug)]
pub struct ToolReply {
    pub bytes: usize,
    pub content: Vec<ReplyBlock>,
    pub structured_content: Option<Json>,
    pub is_error: Option<bool>,
}

/// What a `ReplyBlock` holds.
#[allow(inconsistent_fields)]
pub enum BlockModel {
    Text { text: Seq<char> },
    Image { mime_type: Seq<char> },
    Audio { mime_type: Seq<char> },
    TextResource { uri: Seq<char>, mime_type: Option<Seq<char>>, text: Seq<char> },
    BlobResource { uri: Seq<char>, mime_type: Option<Seq<char>> },
    OtherResource,
    ResourceLink {
        uri: Seq<char>,
        name: Seq<char>,
        title: Option<Seq<char>>,
        description: Option<Seq<char>>,
        mime_type: Option<Seq<char>>,
        size: Option<u64>,
    },
    Other,
}

impl View for ReplyBlock {
    type V = BlockModel;

    open spec fn view(&self) -> BlockModel {
        match self {
            ReplyBlock::Text { text } => BlockModel::Text { text: text@ },
            ReplyBlock::Image { mime_type } => BlockModel::Image { mime_type: mime_type@ },
            ReplyBlock::Audio { mime_type } => BlockModel::Audio { mime_type: mime_type@ },
            ReplyBlock::TextResource { uri, mime_type, text } => BlockModel::TextResource {
                uri: uri@,
                mime_type: thinking::optional(*mime_type),
                text: text@,
            },
            ReplyBlock::BlobResource { uri, mime_type } => BlockModel::BlobResource {
                uri: uri@,
                mime_type: thinking::optional(*mime_type),
            },
            ReplyBlock::OtherResource => BlockModel::OtherResource,
            ReplyBlock::ResourceLink { uri, name, title, description, mime_type, size } =>
                BlockModel::ResourceLink {
                uri: uri@,
                name: name@,
                title: thinking::optional(*title),
                description: thinking::optional(*description),
                mime_type: thinking::optional(*mime_type),
                size: *size,
            },
            ReplyBlock::Other => BlockModel::Other,
        }
    }
}

/// What a `ToolReply` holds.
pub struct ReplyModel {
    pub bytes: usize,
    pub content: Seq<BlockModel>,
    pub structured_content: Option<JsonView>,
    pub is_error: Option<bool>,
}

impl View for ToolReply {
    type V = ReplyModel;

    open spec fn view(&self) -> ReplyModel {
        ReplyModel {
            bytes: self.bytes,
            content: Seq::new(self.content@.len(), |i: int| self.content@[i]@),
            structured_content: json::optional_view(self.structured_content),
            is_error: self.is_error,
        }
    }
}

/// What a result of reading a reply holds.
pub open spec fn reply_result(r: Result<ToolReply, String>) -> Result<ReplyModel, Seq<char>> {
    match r {
        Ok(reply) => Ok(reply@),
        Err(error) => Err(error@),
    }
}

/// `rmcp`'s block of content.
#[verifier::external_type_specification]
#[verifier::external_body]
pub struct ExContentBlock(rmcp::model::ContentBlock);

/// `rmcp`'s contents of a resource.
#[verifier::external_type_specification]
#[verifier::external_body]
pub struct ExResourceContents(rmcp::model::ResourceContents);

/// `rmcp`'s resource, which a block may link to.
#[verifier::external_type_specification]
#[verifier::external_body]
pub struct ExResource(rmcp::model::Resource);

/// The same contents of a resource as the library holds them, without binary data.
#[verifier::external_body]
fn own_resource(contents: &model::ResourceContents) -> ReplyBlock {
    match contents.clone() {
        model::ResourceContents::TextResourceContents { uri, mime_type, text, .. } => {
            ReplyBlock::TextResource { uri, mime_type, text }
        },
        model::ResourceContents::BlobResourceContents { uri, mime_type, .. } => {
            ReplyBlock::BlobResource { uri, mime_type }
        },
        _ => ReplyBlock::OtherResource,
    }
}

/// The same link to a resource as the library holds it.
#[verifier::external_body]
fn own_link(link: &model::Resource) -> ReplyBlock {
    ReplyBlock::ResourceLink {
        uri: link.uri.clone(),
        name: link.name.clone(),
        title: link.title.clone(),
        description: link.description.clone(),
        mime_type: link.mime_type.clone(),
        size: link.size,
    }
}

/// The same block as the library holds it, without binary data.
#[verifier::external_body]
fn own_block(block: &model::ContentBlock) -> ReplyBlock {
    match block {
        model::ContentBlock::Text(text) => ReplyBlock::Text { text: text.text.clone() },
        model::ContentBlock::Image(image) => {
            ReplyBlock::Image { mime_type: image.mime_type.clone() }
        },
        model::ContentBlock::Audio(audio) => {
            ReplyBlock::Audio { mime_type: audio.mime_type.clone() }
        },
        model::ContentBlock::Resource(resource) => own_resource(&resource.resource),
        model::ContentBlock::ResourceLink(link) => own_link(link),
        _ => ReplyBlock::Other,
    }
}

/// The parts of a reply that are read.
#[derive(Debug)]
pub struct ReplyParts {
    pub content: Vec<ReplyBlock>,
    pub structured_content: Option<Json>,
    pub is_error: Option<bool>,
}

/// What a `ReplyParts` holds.
pub struct PartsModel {
    pub content: Seq<BlockModel>,
    pub structured_content: Option<JsonView>,
    pub is_error: Option<bool>,
}

impl View for ReplyParts {
    type V = PartsModel;

    open spec fn view(&self) -> PartsModel {
        PartsModel {
            content: Seq::new(self.content@.len(), |i: int| self.content@[i]@),
            structured_content: json::optional_view(self.structured_content),
            is_error: self.is_error,
        }
    }
}

/// What a result of reading the parts of a reply holds.
pub open spec fn parts_read(r: Result<ReplyParts, String>) -> Result<PartsModel, Seq<char>> {
    match r {
        Ok(parts) => Ok(parts@),
        Err(error) => Err(error@),
    }
}

/// The parts of the reply that `rmcp` reads from a value; the text of the error where it is
/// none.
pub uninterp spec fn reply_read(payload: JsonView) -> Result<PartsModel, Seq<char>>;

/// Reads a value as `rmcp`'s `CallToolResult` with `serde_json::from_value`, and holds its
/// parts. The outcome is named.
#[verifier::external_body]
fn parts_from(payload: &Json) -> (r: Result<ReplyParts, String>)
    ensures
        parts_read(r) == reply_read(payload@),
{
    let result = serde_json::from_value::<model::CallToolResult>(to_value(payload));
    let result = result.map_err(|error| error.to_string())?;
    Ok(ReplyParts {
        content: result.content.iter().map(own_block).collect(),
        structured_content: result.structured_content.as_ref().map(|value| from_value(value)),
        is_error: result.is_error,
    })
}

/// The bytes that `serde_json::to_vec` writes for the reply that a value is; none where it is
/// no reply, or cannot be encoded.
pub uninterp spec fn reply_bytes(payload: JsonView) -> Option<usize>;

/// The length in bytes of what `serde_json::to_vec` writes for a reply, named. The reply is
/// given by its value, which `serde_json::from_value` turns into `rmcp`'s `CallToolResult`;
/// `None` where the value is no reply, or the reply cannot be encoded.
#[verifier::external_body]
fn bytes_of(payload: &Json) -> (r: Option<usize>)
    ensures
        r == reply_bytes(payload@),
{
    let result = serde_json::from_value::<model::CallToolResult>(to_value(payload)).ok()?;
    serde_json::to_vec(&result).ok().map(|encoded| encoded.len())
}

/// The reply with these parts, whose encoding takes `bytes` bytes; an error where it is none, or
/// cannot be encoded.
pub open spec fn whole_reply(
    parts: Result<PartsModel, Seq<char>>,
    bytes: Option<usize>,
) -> Result<ReplyModel, Seq<char>> {
    match (parts, bytes) {
        (Err(error), _) => Err(error),
        (Ok(_), None) => Err("failed to encode MCP tool result"@),
        (Ok(parts), Some(bytes)) => Ok(
            ReplyModel {
                bytes,
                content: parts.content,
                structured_content: parts.structured_content,
                is_error: parts.is_error,
            },
        ),
    }
}

/// The reply with these parts, whose encoding takes `bytes` bytes.
pub fn reply_of(parts: Result<ReplyParts, String>, bytes: Option<usize>) -> (r: Result<
    ToolReply,
    String,
>)
    ensures
        reply_result(r) == whole_reply(parts_read(parts), bytes),
{
    match (parts, bytes) {
        (Err(error), _) => Err(error),
        (Ok(_), None) => Err("failed to encode MCP tool result".to_owned()),
        (Ok(parts), Some(bytes)) => Ok(
            ToolReply {
                bytes,
                content: parts.content,
                structured_content: parts.structured_content,
                is_error: parts.is_error,
            },
        ),
    }
}

/// The reply that a value is, or why it is none.
pub fn read_reply(payload: &Json) -> (r: Result<ToolReply, String>)
    ensures
        reply_result(r) == whole_reply(reply_read(payload@), reply_bytes(payload@)),
{
    reply_of(parts_from(payload), bytes_of(payload))
}

/// What the model is given of a reply.
#[derive(Debug)]
pub enum ToolOutput {
    Text(String),
    Json(Json),
}

/// What a `ToolOutput` holds.
pub enum OutputView {
    Text(Seq<char>),
    Json(JsonView),
}

impl View for ToolOutput {
    type V = OutputView;

    open spec fn view(&self) -> OutputView {
        match self {
            ToolOutput::Text(text) => OutputView::Text(text@),
            ToolOutput::Json(json) => OutputView::Json(json@),
        }
    }
}

/// A reply as it is handed on: what the user is shown, what the model is given, and whether
/// the tool reports an error.
#[derive(Debug)]
pub struct McpToolResult {
    pub ui: Json,
    pub model: ToolOutput,
    pub is_error: bool,
}

/// Why a reply is refused.
#[derive(Debug, Clone, Copy, PartialEq, Eq, Structural)]
pub enum ReplyError {
    /// Its encoding takes too many bytes: as many as given.
    TooLarge { bytes: usize },
    /// It has no structured content, which the tool's output schema calls for.
    MissingStructuredContent,
    /// The tool's output schema is no schema.
    InvalidSchema,
    /// Its structured content does not meet the tool's output schema.
    SchemaMismatch,
}

impl ReplyError {
    /// The message of the error.
    pub open spec fn text(self) -> Seq<char> {
        match self {
            ReplyError::TooLarge { bytes } => "MCP tool result exceeded raw safety limit ("@
                + text::decimal(bytes as nat) + " bytes > "@ + text::decimal(MAX_RAW_MCP_RESULT_BYTES as nat)
                + " bytes)"@,
            ReplyError::MissingStructuredContent =>
                "MCP server omitted structuredContent required by the tool's declared outputSchema"@,
            ReplyError::InvalidSchema => "MCP tool declared an invalid outputSchema"@,
            ReplyError::SchemaMismatch =>
                "MCP server returned structuredContent that does not match its declared outputSchema"@,
        }
    }

    /// The message of the error.
    pub fn message(&self) -> (r: String)
        ensures
            r@ == self.text(),
    {
        match self {
            ReplyError::TooLarge { bytes } => {
                let mut out = "MCP tool result exceeded raw safety limit (".to_owned();
                push_decimal(&mut out, *bytes as u128);
                out.append(" bytes > ");
                push_decimal(&mut out, MAX_RAW_MCP_RESULT_BYTES as u128);
                out.append(" bytes)");
                out
            },
            ReplyError::MissingStructuredContent =>
                "MCP server omitted structuredContent required by the tool's declared outputSchema".to_owned(),
            ReplyError::InvalidSchema => "MCP tool declared an invalid outputSchema".to_owned(),
            ReplyError::SchemaMismatch =>
                "MCP server returned structuredContent that does not match its declared outputSchema".to_owned(),
        }
    }
}

// ---------- Content ----------

/// A text that may be missing, as JSON.
pub open spec fn text_or_null(text: Option<String>) -> JsonView {
    match text {
        Some(text) => JsonView::Text(text@),
        None => JsonView::Null,
    }
}

/// A number that may be missing, as JSON.
pub open spec fn size_or_null(size: Option<u64>) -> JsonView {
    match size {
        Some(size) => JsonView::Number(text::decimal(size as nat)),
        None => JsonView::Null,
    }
}

/// What is kept of a block: texts and the descriptions of resources, and a note in place of
/// binary content.
pub open spec fn block_json(block: ReplyBlock) -> JsonView {
    match block {
        ReplyBlock::Text { text } => JsonView::Object(
            seq![("text"@, JsonView::Text(text@)), ("type"@, JsonView::Text("text"@))],
        ),
        ReplyBlock::Image { mime_type } => JsonView::Text(
            "[MCP image omitted: "@ + truncate::inlined(mime_type@) + "]"@,
        ),
        ReplyBlock::Audio { mime_type } => JsonView::Text(
            "[MCP audio omitted: "@ + truncate::inlined(mime_type@) + "]"@,
        ),
        ReplyBlock::TextResource { uri, mime_type, text } => JsonView::Object(
            seq![
                ("mimeType"@, text_or_null(mime_type)),
                ("text"@, JsonView::Text(text@)),
                ("type"@, JsonView::Text("resource"@)),
                ("uri"@, JsonView::Text(uri@)),
            ],
        ),
        ReplyBlock::BlobResource { uri, mime_type } => JsonView::Object(
            seq![
                ("content"@, JsonView::Text("[MCP binary resource omitted]"@)),
                ("mimeType"@, text_or_null(mime_type)),
                ("type"@, JsonView::Text("resource"@)),
                ("uri"@, JsonView::Text(uri@)),
            ],
        ),
        ReplyBlock::OtherResource => JsonView::Text("[MCP resource omitted]"@),
        ReplyBlock::ResourceLink { uri, name, title, description, mime_type, size } =>
            JsonView::Object(
            seq![
                ("description"@, text_or_null(description)),
                ("mimeType"@, text_or_null(mime_type)),
                ("name"@, JsonView::Text(name@)),
                ("size"@, size_or_null(size)),
                ("title"@, text_or_null(title)),
                ("type"@, JsonView::Text("resource_link"@)),
                ("uri"@, JsonView::Text(uri@)),
            ],
        ),
        ReplyBlock::Other => JsonView::Text("[unsupported MCP content omitted]"@),
    }
}

fn text_json(text: &str) -> (r: Json)
    ensures
        r@ == JsonView::Text(text@),
{
    Json::Text(text.to_owned())
}

fn optional_json(text: &Option<String>) -> (r: Json)
    ensures
        r@ == text_or_null(*text),
{
    match text {
        Some(text) => Json::Text(text.clone()),
        None => Json::Null,
    }
}

/// A note on an omitted block of the kind `kind`.
fn omitted(kind: &str, mime_type: &str) -> (r: Json)
    ensures
        r@ == JsonView::Text(kind@ + truncate::inlined(mime_type@) + "]"@),
{
    let mut out = kind.to_owned();
    out.append(crate::truncate::inline(mime_type).as_str());
    out.append("]");
    Json::Text(out)
}

/// What is kept of a block.
pub fn project_content_block(block: &ReplyBlock) -> (r: Json)
    ensures
        r@ == block_json(*block),
{
    let mut fields: Vec<(String, Json)> = Vec::new();
    assert(json::fields_view(fields@) =~= Seq::empty());
    match block {
        ReplyBlock::Text { text } => {
            push_field(&mut fields, "text", text_json(text.as_str()));
            push_field(&mut fields, "type", text_json("text"));
            assert(json::fields_view(fields@) =~= block_json(*block)->Object_0);
            object(fields)
        },
        ReplyBlock::Image { mime_type } => omitted("[MCP image omitted: ", mime_type.as_str()),
        ReplyBlock::Audio { mime_type } => omitted("[MCP audio omitted: ", mime_type.as_str()),
        ReplyBlock::TextResource { uri, mime_type, text } => {
            push_field(&mut fields, "mimeType", optional_json(mime_type));
            push_field(&mut fields, "text", text_json(text.as_str()));
            push_field(&mut fields, "type", text_json("resource"));
            push_field(&mut fields, "uri", text_json(uri.as_str()));
            assert(json::fields_view(fields@) =~= block_json(*block)->Object_0);
            object(fields)
        },
        ReplyBlock::BlobResource { uri, mime_type } => {
            push_field(&mut fields, "content", text_json("[MCP binary resource omitted]"));
            push_field(&mut fields, "mimeType", optional_json(mime_type));
            push_field(&mut fields, "type", text_json("resource"));
            push_field(&mut fields, "uri", text_json(uri.as_str()));
            assert(json::fields_view(fields@) =~= block_json(*block)->Object_0);
            object(fields)
        },
        ReplyBlock::OtherResource => text_json("[MCP resource omitted]"),
        ReplyBlock::ResourceLink { uri, name, title, description, mime_type, size } => {
            let size = match size {
                Some(size) => Json::Number(decimal_text(*size as u128)),
                None => Json::Null,
            };
            push_field(&mut fields, "description", optional_json(description));
            push_field(&mut fields, "mimeType", optional_json(mime_type));
            push_field(&mut fields, "name", text_json(name.as_str()));
            push_field(&mut fields, "size", size);
            push_field(&mut fields, "title", optional_json(title));
            push_field(&mut fields, "type", text_json("resource_link"));
            push_field(&mut fields, "uri", text_json(uri.as_str()));
            assert(json::fields_view(fields@) =~= block_json(*block)->Object_0);
            object(fields)
        },
        ReplyBlock::Other => text_json("[unsupported MCP content omitted]"),
    }
}

/// `block` only repeats the structured content as text: it reads as the same value.
pub open spec fn repeats(block: ReplyBlock, structured: Option<JsonView>) -> bool {
    match (block, structured) {
        (ReplyBlock::Text { text }, Some(value)) => match json::json_parsed(text@) {
            Some(parsed) => json::same_value(parsed, value),
            None => false,
        },
        _ => false,
    }
}

/// The blocks that do more than repeat the structured content.
pub open spec fn telling_blocks(
    blocks: Seq<ReplyBlock>,
    structured: Option<JsonView>,
) -> Seq<ReplyBlock>
    decreases blocks.len(),
{
    if blocks.len() == 0 {
        Seq::empty()
    } else {
        let rest = telling_blocks(blocks.drop_last(), structured);
        if repeats(blocks.last(), structured) {
            rest
        } else {
            rest.push(blocks.last())
        }
    }
}

/// What is kept of each block.
pub open spec fn blocks_json(blocks: Seq<ReplyBlock>) -> Seq<JsonView> {
    Seq::new(blocks.len(), |i: int| block_json(blocks[i]))
}

/// What a reply says as one value, when `blocks` are its telling blocks: its structured
/// content where there is nothing else, its text where there is only that, and an object of
/// both otherwise.
pub open spec fn merged(structured: Option<JsonView>, blocks: Seq<ReplyBlock>) -> JsonView {
    match structured {
        Some(value) => if blocks.len() == 0 {
            value
        } else {
            JsonView::Object(
                seq![
                    ("content"@, JsonView::Array(blocks_json(blocks))),
                    ("structuredContent"@, value),
                ],
            )
        },
        None => if blocks.len() == 0 {
            JsonView::Object(Seq::empty())
        } else if blocks.len() == 1 && blocks[0] is Text {
            JsonView::Text(blocks[0]->Text_text@)
        } else {
            JsonView::Object(seq![("content"@, JsonView::Array(blocks_json(blocks)))])
        },
    }
}

/// What a reply says as one value.
pub open spec fn meaning(reply: ToolReply) -> JsonView {
    let structured = json::optional_view(reply.structured_content);
    merged(structured, telling_blocks(reply.content@, structured))
}

/// What the model is given of a reply that says `value`.
pub open spec fn model_output(value: JsonView) -> OutputView {
    match budget::projected(value, MAX_MODEL_TOOL_RESULT_BYTES as nat) {
        JsonView::Text(text) => OutputView::Text(
            truncate::head_and_tail(text, MAX_MODEL_TOOL_RESULT_BYTES as nat, "model tool result"@),
        ),
        value => OutputView::Json(value),
    }
}

/// `r` is what is handed on of `reply`.
pub open spec fn hands_on(r: McpToolResult, reply: ToolReply) -> bool {
    &&& r.ui@ == budget::projected(meaning(reply), MAX_UI_TOOL_RESULT_BYTES as nat)
    &&& r.model@ == model_output(meaning(reply))
    &&& r.is_error == (reply.is_error == Some(true))
}

/// Tells whether `block` only repeats the structured content as text.
fn repeats_structured(block: &ReplyBlock, structured: &Option<Json>) -> (r: bool)
    ensures
        r == repeats(*block, json::optional_view(*structured)),
{
    match (block, structured) {
        (ReplyBlock::Text { text }, Some(value)) => match parse_json(text.as_str()) {
            Some(parsed) => same_json(&parsed, value),
            None => false,
        },
        _ => false,
    }
}

/// What a reply says as one value.
fn reply_value(reply: &ToolReply) -> (r: Json)
    ensures
        r@ == meaning(*reply),
{
    let ghost structured = json::optional_view(reply.structured_content);
    let ghost blocks = reply.content@;
    let mut content: Vec<Json> = Vec::new();
    let mut only: Option<usize> = None;
    let mut i: usize = 0;
    assert(blocks.take(0) =~= Seq::empty());
    assert(json::items_view(content@) =~= blocks_json(Seq::empty()));
    while i < reply.content.len()
        invariant
            i <= reply.content@.len(),
            blocks == reply.content@,
            structured == json::optional_view(reply.structured_content),
            json::items_view(content@) == blocks_json(telling_blocks(blocks.take(i as int), structured)),
            content@.len() == telling_blocks(blocks.take(i as int), structured).len(),
            only matches Some(k) ==> k < i && content@.len() > 0 && telling_blocks(
                blocks.take(i as int),
                structured,
            )[0] == blocks[k as int],
            only is Some <==> content@.len() > 0,
        decreases reply.content.len() - i,
    {
        let ghost earlier = telling_blocks(blocks.take(i as int), structured);
        proof {
            assert(blocks.take(i + 1).drop_last() =~= blocks.take(i as int));
            assert(blocks.take(i + 1).last() == blocks[i as int]);
        }
        if !repeats_structured(&reply.content[i], &reply.structured_content) {
            if content.len() == 0 {
                only = Some(i);
            }
            let ghost kept = json::items_view(content@);
            content.push(project_content_block(&reply.content[i]));
            assert(json::items_view(content@) =~= kept.push(block_json(blocks[i as int])));
            assert(blocks_json(earlier.push(blocks[i as int])) =~= kept.push(
                block_json(blocks[i as int]),
            ));
        }
        i += 1;
    }
    assert(blocks.take(i as int) =~= blocks);
    let ghost telling = telling_blocks(blocks, structured);
    if content.len() == 1 && reply.structured_content.is_none() {
        if let Some(k) = only {
            if let ReplyBlock::Text { text } = &reply.content[k] {
                return Json::Text(text.clone());
            }
        }
    }
    let mut fields: Vec<(String, Json)> = Vec::new();
    assert(json::fields_view(fields@) =~= Seq::empty());
    if content.len() > 0 {
        push_field(&mut fields, "content", array(content));
    }
    assert(fields@.len() == json::fields_view(fields@).len());
    if let Some(value) = &reply.structured_content {
        if fields.len() == 0 {
            return value.copy();
        }
        push_field(&mut fields, "structuredContent", value.copy());
    }
    assert(json::fields_view(fields@) =~= meaning(*reply)->Object_0);
    object(fields)
}

/// What the model is given of a reply that says `value`.
fn model_view(value: Json) -> (r: ToolOutput)
    ensures
        r@ == model_output(value@),
{
    match limit_json(value, MAX_MODEL_TOOL_RESULT_BYTES) {
        Json::Text(text) => ToolOutput::Text(
            truncate_head_tail(text.as_str(), MAX_MODEL_TOOL_RESULT_BYTES, "model tool result"),
        ),
        value => ToolOutput::Json(value),
    }
}

/// What is handed on of a reply. One whose encoding takes more than
/// `MAX_RAW_MCP_RESULT_BYTES` bytes is refused.
pub fn project_tool_result(reply: &ToolReply) -> (r: Result<McpToolResult, ReplyError>)
    ensures
        r is Ok <==> reply.bytes <= MAX_RAW_MCP_RESULT_BYTES,
        r matches Ok(result) ==> hands_on(result, *reply),
        r matches Err(error) ==> error == (ReplyError::TooLarge { bytes: reply.bytes }),
{
    let bytes = reply.bytes;
    if bytes > MAX_RAW_MCP_RESULT_BYTES {
        return Err(ReplyError::TooLarge { bytes });
    }
    let value = reply_value(reply);
    let ui = limit_json(value.copy(), MAX_UI_TOOL_RESULT_BYTES);
    let model = model_view(value);
    Ok(
        McpToolResult {
            ui,
            model,
            is_error: match reply.is_error {
                Some(is_error) => is_error,
                None => false,
            },
        },
    )
}

// ---------- Output schemas ----------

/// What `jsonschema` says of an instance under a schema: nothing where the schema does not
/// build, else whether the instance is valid.
pub uninterp spec fn schema_verdict(schema: JsonView, instance: JsonView) -> Option<bool>;

/// Builds a validator of `schema` with `jsonschema`, by draft 2020-12 and without fetching
/// references, and validates `instance`. `None` where no validator can be built, else the
/// result of `is_valid`; the outcome is named.
#[verifier::external_body]
fn check_schema(schema: &Json, instance: &Json) -> (r: Option<bool>)
    ensures
        r == schema_verdict(schema@, instance@),
{
    jsonschema::options()
        .with_draft(jsonschema::Draft::Draft202012)
        .offline()
        .build(&to_value(schema))
        .ok()
        .map(|validator| validator.is_valid(&to_value(instance)))
}

/// What is wrong with a reply, when `verdict` is what the schema says of its structured
/// content.
pub open spec fn fault(
    is_error: Option<bool>,
    has_schema: bool,
    has_structured: bool,
    verdict: Option<bool>,
) -> Option<ReplyError> {
    if is_error == Some(true) || !has_schema {
        None
    } else if !has_structured {
        Some(ReplyError::MissingStructuredContent)
    } else {
        match verdict {
            None => Some(ReplyError::InvalidSchema),
            Some(false) => Some(ReplyError::SchemaMismatch),
            Some(true) => None,
        }
    }
}

/// What is wrong with a reply under the output schema of its tool.
pub open spec fn schema_fault(reply: ToolReply, schema: Option<Json>) -> Option<ReplyError> {
    fault(
        reply.is_error,
        schema is Some,
        reply.structured_content is Some,
        match (schema, reply.structured_content) {
            (Some(schema), Some(structured)) => schema_verdict(schema@, structured@),
            _ => None,
        },
    )
}

/// Judges structured content by what its schema says of it.
pub fn judge(verdict: Option<bool>) -> (r: Result<(), ReplyError>)
    ensures
        r == (match fault(None, true, true, verdict) {
            Some(error) => Err::<(), ReplyError>(error),
            None => Ok(()),
        }),
{
    match verdict {
        None => Err(ReplyError::InvalidSchema),
        Some(false) => Err(ReplyError::SchemaMismatch),
        Some(true) => Ok(()),
    }
}

/// Holds a reply to the output schema of its tool. The reply of a tool that reports an error
/// and that of a tool without an output schema pass.
pub fn validate_structured_output(reply: &ToolReply, output_schema: &Option<Json>) -> (r: Result<
    (),
    ReplyError,
>)
    ensures
        r == (match schema_fault(*reply, *output_schema) {
            Some(error) => Err::<(), ReplyError>(error),
            None => Ok(()),
        }),
{
    if let Some(true) = reply.is_error {
        return Ok(());
    }
    match output_schema {
        None => Ok(()),
        Some(schema) => match &reply.structured_content {
            None => Err(ReplyError::MissingStructuredContent),
            Some(structured) => judge(check_schema(schema, structured)),
        },
    }
}

/// Holds a reply to the output schema of its tool, and hands on what is kept of it.
pub fn encode_tool_result(reply: &ToolReply, output_schema: &Option<Json>) -> (r: Result<
    McpToolResult,
    ReplyError,
>)
    ensures
        match schema_fault(*reply, *output_schema) {
            Some(error) => r matches Err(e) && e == error,
            None => if reply.bytes > MAX_RAW_MCP_RESULT_BYTES {
                r matches Err(e) && e == (ReplyError::TooLarge { bytes: reply.bytes })
            } else {
                r matches Ok(result) && hands_on(result, *reply)
            },
        },
{
    match validate_structured_output(reply, output_schema) {
        Err(error) => Err(error),
        Ok(()) => project_tool_result(reply),
    }
}

// ---------- Errors of tools ----------

/// A tool's output as text.
pub open spec fn rendered(output: OutputView) -> Seq<char> {
    match output {
        OutputView::Text(text) => text,
        OutputView::Json(json) => json::json_compact(json),
    }
}

/// The message of a tool that reports an error with the rendered output `text`.
pub open spec fn error_message(text: Seq<char>) -> Seq<char> {
    "MCP tool returned isError=true: "@ + if text::is_blank(text) {
        "MCP tool error"@
    } else {
        truncate::head_and_tail(text, MAX_TOOL_OUTPUT_PREVIEW_BYTES as nat, "tool error"@)
    }
}

/// The message of a tool that reports an error with the rendered output `text`.
pub fn rendered_error_message(text: &str) -> (r: String)
    ensures
        r@ == error_message(text@),
{
    let mut out = "MCP tool returned isError=true: ".to_owned();
    if blank(text) {
        out.append("MCP tool error");
    } else {
        out.append(
            truncate_head_tail(text, MAX_TOOL_OUTPUT_PREVIEW_BYTES, "tool error").as_str(),
        );
    }
    out
}

/// The message of a tool that reports an error with the output `output`.
pub fn mcp_tool_error_message(output: &ToolOutput) -> (r: String)
    ensures
        r@ == error_message(rendered(output@)),
{
    match output {
        ToolOutput::Text(text) => rendered_error_message(text.as_str()),
        ToolOutput::Json(json) => rendered_error_message(compact_json(json).as_str()),
    }
}

// ---------- Laws ----------

/// Every block is kept as a value with its names in order.
proof fn lemma_block_valid(block: ReplyBlock)
    ensures
        json::valid(block_json(block)),
{
    reveal_with_fuel(json::valid, 2);
    reveal_with_fuel(json::before, 12);
    reveal_strlit("text");
    reveal_strlit("type");
    reveal_strlit("mimeType");
    reveal_strlit("uri");
    reveal_strlit("content");
    reveal_strlit("description");
    reveal_strlit("name");
    reveal_strlit("size");
    reveal_strlit("title");
}

/// What the user is shown and what the model is given keep to their budgets.
pub proof fn what_is_handed_on_keeps_the_budgets(r: McpToolResult, reply: ToolReply)
    requires
        hands_on(r, reply),
    ensures
        json::encoded_len(r.ui@) <= MAX_UI_TOOL_RESULT_BYTES,
        match r.model@ {
            OutputView::Text(text) => text::utf8_len(text) <= MAX_MODEL_TOOL_RESULT_BYTES,
            OutputView::Json(json) => json::encoded_len(json) <= MAX_MODEL_TOOL_RESULT_BYTES,
        },
{
    let value = meaning(reply);
    budget::projection_keeps_the_budget(value, MAX_UI_TOOL_RESULT_BYTES as nat);
    budget::projection_keeps_the_budget(value, MAX_MODEL_TOOL_RESULT_BYTES as nat);
    if let JsonView::Text(text) = budget::projected(value, MAX_MODEL_TOOL_RESULT_BYTES as nat) {
        truncate::truncation_keeps_the_budget(
            text,
            MAX_MODEL_TOOL_RESULT_BYTES as nat,
            "model tool result"@,
        );
    }
}

/// What the user is shown and the JSON that the model is given have the fields of every
/// object in ascending order of their names, where the structured content has.
pub proof fn what_is_handed_on_keeps_names_in_order(r: McpToolResult, reply: ToolReply)
    requires
        hands_on(r, reply),
        reply.structured_content matches Some(structured) ==> json::valid(structured@),
    ensures
        json::valid(r.ui@),
        r.model@ matches OutputView::Json(json) ==> json::valid(json),
{
    let structured = json::optional_view(reply.structured_content);
    let blocks = telling_blocks(reply.content@, structured);
    assert(json::valid(meaning(reply))) by {
        reveal_with_fuel(json::valid, 3);
        reveal_with_fuel(json::before, 2);
        reveal_strlit("content");
        reveal_strlit("structuredContent");
        assert forall|i: int| 0 <= i < blocks.len() implies json::valid(
            #[trigger] blocks_json(blocks)[i],
        ) by {
            lemma_block_valid(blocks[i]);
        }
        assert(json::valid(JsonView::Array(blocks_json(blocks))));
    }
    budget::projection_keeps_names_in_order(meaning(reply), MAX_UI_TOOL_RESULT_BYTES as nat);
    budget::projection_keeps_names_in_order(meaning(reply), MAX_MODEL_TOOL_RESULT_BYTES as nat);
}

/// A reply that repeats its structured content as text says no more than the structured
/// content.
pub proof fn repeated_text_adds_nothing(reply: ToolReply)
    requires
        reply.structured_content is Some,
        forall|i: int|
            0 <= i < reply.content@.len() ==> repeats(
                #[trigger] reply.content@[i],
                json::optional_view(reply.structured_content),
            ),
    ensures
        meaning(reply) == reply.structured_content->0@,
{
    lemma_no_telling_blocks(reply.content@, json::optional_view(reply.structured_content));
}

proof fn lemma_no_telling_blocks(blocks: Seq<ReplyBlock>, structured: Option<JsonView>)
    requires
        forall|i: int| 0 <= i < blocks.len() ==> repeats(#[trigger] blocks[i], structured),
    ensures
        telling_blocks(blocks, structured).len() == 0,
    decreases blocks.len(),
{
    if blocks.len() > 0 {
        let d = blocks.drop_last();
        assert forall|i: int| 0 <= i < d.len() implies repeats(#[trigger] d[i], structured) by {
            assert(d[i] == blocks[i]);
        }
        lemma_no_telling_blocks(d, structured);
    }
}

/// A reply counts as an error of its tool exactly where it says so itself: one that says nothing
/// of errors is a success, as one that denies them.
pub proof fn only_a_reported_error_is_an_error(r: McpToolResult, reply: ToolReply)
    requires
        hands_on(r, reply),
    ensures
        r.is_error ==> reply.is_error == Some(true),
        reply.is_error == Some(true) ==> r.is_error,
        reply.is_error is None ==> !r.is_error,
{
}

/// Saying nothing of errors is saying that there is none: a reply that leaves it out is held to
/// the schema as one that denies errors is, and the same is handed on of both.
pub proof fn silence_on_errors_is_success(
    silent: ToolReply,
    denying: ToolReply,
    schema: Option<Json>,
    r: McpToolResult,
)
    requires
        silent.is_error is None,
        denying.is_error == Some(false),
        silent.content == denying.content,
        silent.structured_content == denying.structured_content,
    ensures
        schema_fault(silent, schema) == schema_fault(denying, schema),
        hands_on(r, silent) == hands_on(r, denying),
        hands_on(r, silent) ==> !r.is_error,
{
}

/// A success passes under a declared schema only with structured content that the schema
/// approves; an error, and any reply without a declared schema, passes as it is.
pub proof fn schemas_bind_successes_alone(reply: ToolReply, schema: Option<Json>)
    ensures
        schema is Some && reply.is_error != Some(true) && schema_fault(reply, schema) is None
            ==> reply.structured_content is Some && schema_verdict(
            schema->0@,
            reply.structured_content->0@,
        ) == Some(true),
        schema is Some && reply.is_error != Some(true) && reply.structured_content is None
            ==> schema_fault(reply, schema) == Some(ReplyError::MissingStructuredContent),
        schema is None || reply.is_error == Some(true) ==> schema_fault(reply, schema) is None,
{
}

/// A reply that is one text is that text, for the user and for the model, where it fits.
pub proof fn a_lone_text_is_handed_on(r: McpToolResult, reply: ToolReply, text: Seq<char>)
    requires
        hands_on(r, reply),
        reply.structured_content is None,
        reply.content@.len() == 1,
        reply.content@[0] is Text && reply.content@[0]->Text_text@ == text,
        json::encoded_len(JsonView::Text(text)) <= MAX_UI_TOOL_RESULT_BYTES,
        json::encoded_len(JsonView::Text(text)) <= MAX_MODEL_TOOL_RESULT_BYTES,
        text::utf8_len(text) <= MAX_MODEL_TOOL_RESULT_BYTES,
    ensures
        r.ui@ == JsonView::Text(text),
        r.model@ == OutputView::Text(text),
{
    let blocks = reply.content@;
    assert(blocks.drop_last() =~= Seq::empty());
    assert(telling_blocks(blocks, None) =~= blocks) by {
        reveal_with_fuel(telling_blocks, 2);
    }
}

/// Structured content that is no text is handed on as it is, for the user and for the model,
/// where nothing else is said and it fits.
pub proof fn structured_content_is_handed_on(r: McpToolResult, reply: ToolReply)
    requires
        hands_on(r, reply),
        reply.structured_content is Some,
        !(reply.structured_content->0@ is Text),
        forall|i: int|
            0 <= i < reply.content@.len() ==> repeats(
                #[trigger] reply.content@[i],
                json::optional_view(reply.structured_content),
            ),
        json::encoded_len(reply.structured_content->0@) <= MAX_UI_TOOL_RESULT_BYTES,
        json::encoded_len(reply.structured_content->0@) <= MAX_MODEL_TOOL_RESULT_BYTES,
    ensures
        r.ui@ == reply.structured_content->0@,
        r.model@ == OutputView::Json(reply.structured_content->0@),
{
    repeated_text_adds_nothing(reply);
}

/// Every block that does more than repeat the structured content is among the telling ones, and
/// they stand in the order of the reply.
proof fn lemma_telling(blocks: Seq<ReplyBlock>, structured: Option<JsonView>)
    ensures
        forall|i: int|
            0 <= i < blocks.len() && !repeats(#[trigger] blocks[i], structured) ==> telling_blocks(
                blocks,
                structured,
            ).contains(blocks[i]),
        forall|k: int|
            0 <= k < telling_blocks(blocks, structured).len() ==> blocks.contains(
                #[trigger] telling_blocks(blocks, structured)[k],
            ) && !repeats(telling_blocks(blocks, structured)[k], structured),
        telling_blocks(blocks, structured).len() <= blocks.len(),
    decreases blocks.len(),
{
    if blocks.len() > 0 {
        let d = blocks.drop_last();
        let rest = telling_blocks(d, structured);
        let all = telling_blocks(blocks, structured);
        lemma_telling(d, structured);
        assert forall|i: int|
            0 <= i < blocks.len() && !repeats(#[trigger] blocks[i], structured) implies all.contains(
            blocks[i],
        ) by {
            if i < d.len() {
                assert(d[i] == blocks[i]);
                assert(rest.contains(d[i]));
                let k = choose|k: int| 0 <= k < rest.len() && rest[k] == d[i];
                assert(all[k] == blocks[i]);
            } else {
                assert(all[rest.len() as int] == blocks[i]);
            }
        }
        assert forall|k: int| 0 <= k < all.len() implies blocks.contains(#[trigger] all[k])
            && !repeats(all[k], structured) by {
            if k < rest.len() {
                assert(all[k] == rest[k]);
                let i = choose|i: int| 0 <= i < d.len() && d[i] == rest[k];
                assert(blocks[i] == all[k]);
            } else {
                assert(blocks[blocks.len() - 1] == all[k]);
            }
        }
    }
}

/// What a reply says as one value leaves nothing out: a block that does more than repeat the
/// structured content is the value itself, as text, or stands in its content; the structured
/// content is the value itself or stands beside it. And it holds nothing but that.
pub proof fn nothing_said_is_left_out(reply: ToolReply, i: int)
    requires
        0 <= i < reply.content@.len(),
        !repeats(reply.content@[i], json::optional_view(reply.structured_content)),
    ensures
        (reply.content@[i] matches ReplyBlock::Text { text } && meaning(reply) == JsonView::Text(
            text@,
        )) || (meaning(reply) is Object && exists|items: Seq<JsonView>|
            meaning(reply)->Object_0.contains(("content"@, JsonView::Array(items)))
                && #[trigger] items.contains(block_json(reply.content@[i])) && items.len()
                <= reply.content@.len()),
        reply.structured_content matches Some(value) ==> meaning(reply) is Object && meaning(
            reply,
        )->Object_0.contains(("structuredContent"@, value@)),
        reply.structured_content is None && reply.content@.len() == 1 && reply.content@[0] is Text
            ==> meaning(reply) == JsonView::Text(reply.content@[0]->Text_text@),
{
    let structured = json::optional_view(reply.structured_content);
    let blocks = reply.content@;
    let telling = telling_blocks(blocks, structured);
    lemma_telling(blocks, structured);
    assert(telling.contains(blocks[i]));
    let k = choose|k: int| 0 <= k < telling.len() && telling[k] == blocks[i];
    let items = blocks_json(telling);
    assert(items[k] == block_json(blocks[i]));
    assert(items.contains(block_json(blocks[i])));
    let whole = JsonView::Array(items);
    match structured {
        Some(value) => {
            let fields = meaning(reply)->Object_0;
            assert(fields[0] == ("content"@, whole));
            assert(fields[1] == ("structuredContent"@, value));
        },
        None => {
            if telling.len() == 1 && telling[0] is Text {
                assert(telling[0] == blocks[i]);
            } else {
                assert(meaning(reply)->Object_0[0] == ("content"@, whole));
            }
        },
    }
}

/// What is kept of a block holds its text, and the name, the address and the size of what it
/// points to; of an image or a sound its type is kept, in a note.
pub proof fn blocks_keep_what_can_be_read(block: ReplyBlock)
    ensures
        block matches ReplyBlock::Text { text } ==> block_json(block) is Object && block_json(
            block,
        )->Object_0.contains(("text"@, JsonView::Text(text@))),
        block matches ReplyBlock::TextResource { uri, mime_type, text } ==> block_json(
            block,
        ) is Object && block_json(block)->Object_0.contains(("text"@, JsonView::Text(text@)))
            && block_json(block)->Object_0.contains(("uri"@, JsonView::Text(uri@))) && (
        mime_type matches Some(kind) ==> block_json(block)->Object_0.contains(
            ("mimeType"@, JsonView::Text(kind@)),
        )),
        block matches ReplyBlock::BlobResource { uri, mime_type } ==> block_json(block) is Object
            && block_json(block)->Object_0.contains(("uri"@, JsonView::Text(uri@))) && (
        mime_type matches Some(kind) ==> block_json(block)->Object_0.contains(
            ("mimeType"@, JsonView::Text(kind@)),
        )),
        block matches ReplyBlock::ResourceLink {
            uri,
            name,
            title,
            description,
            mime_type,
            size,
        } ==> block_json(block) is Object && block_json(block)->Object_0.contains(
            ("uri"@, JsonView::Text(uri@)),
        ) && block_json(block)->Object_0.contains(("name"@, JsonView::Text(name@))) && (
        title matches Some(text) ==> block_json(block)->Object_0.contains(
            ("title"@, JsonView::Text(text@)),
        )) && (description matches Some(text) ==> block_json(block)->Object_0.contains(
            ("description"@, JsonView::Text(text@)),
        )) && (mime_type matches Some(text) ==> block_json(block)->Object_0.contains(
            ("mimeType"@, JsonView::Text(text@)),
        )) && (size matches Some(bytes) ==> block_json(block)->Object_0.contains(
            ("size"@, JsonView::Number(text::decimal(bytes as nat))),
        )),
        block matches ReplyBlock::Image { mime_type } ==> block_json(block) is Text && exists|
            a: Seq<char>,
            b: Seq<char>,
        |
            block_json(block)->Text_0 == #[trigger] (a + truncate::inlined(mime_type@) + b),
        block matches ReplyBlock::Audio { mime_type } ==> block_json(block) is Text && exists|
            a: Seq<char>,
            b: Seq<char>,
        |
            block_json(block)->Text_0 == #[trigger] (a + truncate::inlined(mime_type@) + b),
{
    if let JsonView::Object(fields) = block_json(block) {
        assert(fields.len() > 0 ==> fields.contains(fields[0]));
        assert(fields.len() > 1 ==> fields.contains(fields[1]));
        assert(fields.len() > 2 ==> fields.contains(fields[2]));
        assert(fields.len() > 3 ==> fields.contains(fields[3]));
        assert(fields.len() > 4 ==> fields.contains(fields[4]));
        assert(fields.len() > 5 ==> fields.contains(fields[5]));
        assert(fields.len() > 6 ==> fields.contains(fields[6]));
    }
}

/// The message of a tool that reports an error ends in what the tool says, where that is more
/// than white space and fits; it always says that an error was reported.
pub proof fn error_messages_say_what_the_tool_says(text: Seq<char>)
    ensures
        exists|said: Seq<char>|
            said.len() > 0 && error_message(text) == #[trigger] (
            "MCP tool returned isError=true: "@ + said) && (!text::is_blank(text) && text::utf8_len(text)
                <= MAX_TOOL_OUTPUT_PREVIEW_BYTES ==> said == text),
{
    reveal_strlit("MCP tool error");
    if !text::is_blank(text) {
        let said = truncate::head_and_tail(text, MAX_TOOL_OUTPUT_PREVIEW_BYTES as nat, "tool error"@);
        if text::utf8_len(text) <= MAX_TOOL_OUTPUT_PREVIEW_BYTES {
            truncate::truncation_leaves_short_text(text, MAX_TOOL_OUTPUT_PREVIEW_BYTES as nat, "tool error"@);
            assert(text.len() > 0);
        }
        truncate::truncation_leaves_something(text, MAX_TOOL_OUTPUT_PREVIEW_BYTES as nat, "tool error"@);
        assert(error_message(text) == "MCP tool returned isError=true: "@ + said);
    } else {
        assert(error_message(text) == "MCP tool returned isError=true: "@ + "MCP tool error"@);
    }
}

/// Structured content is judged by the schema alone: it passes where the schema approves it, and
/// is refused for a mismatch where it does not, or for the schema where that is none.
pub proof fn schemas_decide_on_structured_content(reply: ToolReply, schema: Json, structured: Json)
    requires
        reply.is_error != Some(true),
        reply.structured_content == Some(structured),
    ensures
        schema_verdict(schema@, structured@) == Some(true) ==> schema_fault(
            reply,
            Some(schema),
        ) is None,
        schema_verdict(schema@, structured@) == Some(false) ==> schema_fault(reply, Some(schema))
            == Some(ReplyError::SchemaMismatch),
        schema_verdict(schema@, structured@) is None ==> schema_fault(reply, Some(schema)) == Some(
            ReplyError::InvalidSchema,
        ),
{
}

/// What a reply says that fits is handed on as it is: to the user, and to the model.
pub proof fn what_fits_is_handed_on_whole(r: McpToolResult, reply: ToolReply)
    requires
        hands_on(r, reply),
    ensures
        json::encoded_len(meaning(reply)) <= MAX_UI_TOOL_RESULT_BYTES ==> r.ui@ == meaning(reply),
        json::encoded_len(meaning(reply)) <= MAX_MODEL_TOOL_RESULT_BYTES && !(meaning(reply) is Text)
            ==> r.model@ == OutputView::Json(meaning(reply)),
        json::encoded_len(meaning(reply)) <= MAX_MODEL_TOOL_RESULT_BYTES && meaning(reply) is Text
            && text::utf8_len(meaning(reply)->Text_0) <= MAX_MODEL_TOOL_RESULT_BYTES ==> r.model@
            == OutputView::Text(meaning(reply)->Text_0),
{
    if json::encoded_len(meaning(reply)) <= MAX_UI_TOOL_RESULT_BYTES {
        budget::projection_leaves_what_fits(meaning(reply), MAX_UI_TOOL_RESULT_BYTES as nat);
    }
    if json::encoded_len(meaning(reply)) <= MAX_MODEL_TOOL_RESULT_BYTES {
        budget::projection_leaves_what_fits(meaning(reply), MAX_MODEL_TOOL_RESULT_BYTES as nat);
        if let JsonView::Text(text) = meaning(reply) {
            if text::utf8_len(text) <= MAX_MODEL_TOOL_RESULT_BYTES {
                truncate::truncation_leaves_short_text(
                    text,
                    MAX_MODEL_TOOL_RESULT_BYTES as nat,
                    "model tool result"@,
                );
            }
        }
    }
}

proof fn lemma_telling_in_order(
    blocks: Seq<ReplyBlock>,
    structured: Option<JsonView>,
    i: int,
    j: int,
) -> (r: (int, int))
    requires
        0 <= i < j < blocks.len(),
        !repeats(blocks[i], structured),
        !repeats(blocks[j], structured),
    ensures
        0 <= r.0 < r.1 < telling_blocks(blocks, structured).len(),
        telling_blocks(blocks, structured)[r.0] == blocks[i],
        telling_blocks(blocks, structured)[r.1] == blocks[j],
    decreases blocks.len(),
{
    let d = blocks.drop_last();
    let rest = telling_blocks(d, structured);
    if j < blocks.len() - 1 {
        lemma_telling_in_order(d, structured, i, j)
    } else {
        lemma_telling(d, structured);
        assert(d[i] == blocks[i]);
        assert(rest.contains(d[i]));
        let k = choose|k: int| 0 <= k < rest.len() && rest[k] == d[i];
        (k, rest.len() as int)
    }
}

/// `first` stands in `items` before `second`.
pub open spec fn stand_in_order(items: Seq<JsonView>, first: JsonView, second: JsonView) -> bool {
    exists|a: int, b: int|
        #![trigger items[a], items[b]]
        0 <= a < b < items.len() && items[a] == first && items[b] == second
}

/// What is kept of blocks stands in the order of the reply.
pub proof fn blocks_stay_in_order(reply: ToolReply, i: int, j: int)
    requires
        0 <= i < j < reply.content@.len(),
        !repeats(reply.content@[i], json::optional_view(reply.structured_content)),
        !repeats(reply.content@[j], json::optional_view(reply.structured_content)),
    ensures
        meaning(reply) is Object,
        meaning(reply)->Object_0.len() > 0 && meaning(reply)->Object_0[0].0 == "content"@,
        meaning(reply)->Object_0[0].1 matches JsonView::Array(items) && stand_in_order(
            items,
            block_json(reply.content@[i]),
            block_json(reply.content@[j]),
        ),
{
    let structured = json::optional_view(reply.structured_content);
    let telling = telling_blocks(reply.content@, structured);
    let (a, b) = lemma_telling_in_order(reply.content@, structured, i, j);
    let items = blocks_json(telling);
    assert(items[a] == block_json(reply.content@[i]));
    assert(items[b] == block_json(reply.content@[j]));
    assert(stand_in_order(
        items,
        block_json(reply.content@[i]),
        block_json(reply.content@[j]),
    ));
    assert(telling.len() > 1);
    assert(meaning(reply)->Object_0[0] == ("content"@, JsonView::Array(items)));
}

/// A reply is made of what was read of it, and nothing else.
pub proof fn replies_are_what_was_read(parts: PartsModel, bytes: usize)
    ensures
        whole_reply(Ok(parts), Some(bytes)) matches Ok(reply) && reply.bytes == bytes
            && reply.content == parts.content && reply.structured_content
            == parts.structured_content && reply.is_error == parts.is_error,
        whole_reply(Ok(parts), None) is Err,
{
}

/// A reply that is too large is refused with its size and the limit.
pub proof fn refusals_tell_the_size(bytes: usize)
    ensures
        text::holds_in_order(
            (ReplyError::TooLarge { bytes }).text(),
            seq![text::decimal(bytes as nat), text::decimal(MAX_RAW_MCP_RESULT_BYTES as nat)],
        ),
{
    let none = Seq::<Seq<char>>::empty();
    let start = Seq::<char>::empty();
    let size = text::decimal(bytes as nat);
    let limit = text::decimal(MAX_RAW_MCP_RESULT_BYTES as nat);
    let lead = "MCP tool result exceeded raw safety limit ("@;
    text::lemma_holds_itself(start);
    text::lemma_holds_next(start, lead, size, none);
    let a = start + lead + size;
    text::lemma_holds_next(a, " bytes > "@, limit, none.push(size));
    text::lemma_holds_before(a + " bytes > "@ + limit, " bytes)"@, none.push(size).push(limit));
    assert((ReplyError::TooLarge { bytes }).text() =~= a + " bytes > "@ + limit + " bytes)"@);
    assert(none.push(size).push(limit) =~= seq![size, limit]);
}

/// A reply may take four mebibytes; ten kibibytes of it are given to the model, and eight are
/// shown to the user.
pub proof fn replies_have_their_budgets(r: McpToolResult, reply: ToolReply)
    requires
        hands_on(r, reply),
    ensures
        json::encoded_len(r.ui@) <= 8192,
        json::encoded_len(meaning(reply)) <= 8192 ==> r.ui@ == meaning(reply),
        r.model@ matches OutputView::Json(json) ==> json::encoded_len(json) <= 10240,
        json::encoded_len(meaning(reply)) <= 10240 && !(meaning(reply) is Text) ==> r.model@
            == OutputView::Json(meaning(reply)),
        MAX_RAW_MCP_RESULT_BYTES == 4 * 1024 * 1024,
{
    what_is_handed_on_keeps_the_budgets(r, reply);
    what_fits_is_handed_on_whole(r, reply);
}

} // verus!
