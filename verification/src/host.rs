//! The MCP servers and their tools.
use vstd::prelude::*;
use vstd::string::*;
use crate::json;
use crate::json::{Json, JsonView};
use crate::text;
use crate::text::{blank, join_texts, push_decimal, same_text, slice_text, to_chars};
use crate::thinking;
use crate::turn::ToolEvent;

verus! {

// ---------- Names of tools ----------

/// The most characters of a tool's name towards the model.
pub const MAX_TOOL_NAME: usize = 64;

/// `c` may stand in a tool's name towards the model.
pub open spec fn is_safe(c: char) -> bool {
    text::is_ascii_alnum(c) || c == '_' || c == '-'
}

/// `s` with an underscore in place of every character that may not stand in a name.
pub open spec fn safe_name(s: Seq<char>) -> Seq<char> {
    Seq::new(
        s.len(),
        |i: int|
            if is_safe(s[i]) {
                s[i]
            } else {
                '_'
            },
    )
}

/// The name of a tool towards the model, before it is cut off.
pub open spec fn full_tool_name(index: nat, server: Seq<char>, tool: Seq<char>) -> Seq<char> {
    "mcp_"@ + text::decimal(index) + "_"@ + safe_name(server) + "_"@ + safe_name(tool)
}

/// The name of a tool towards the model.
pub open spec fn tool_name(index: nat, server: Seq<char>, tool: Seq<char>) -> Seq<char> {
    let full = full_tool_name(index, server, tool);
    if full.len() <= MAX_TOOL_NAME {
        full
    } else {
        full.take(MAX_TOOL_NAME as int)
    }
}

/// Appends `s` with underscores in place of unsafe characters.
fn push_safe(out: &mut String, s: &str)
    ensures
        final(out)@ == old(out)@ + safe_name(s@),
{
    let ghost start = out@;
    let chars = to_chars(s);
    let mut i: usize = 0;
    assert(out@ =~= start + safe_name(chars@.take(0)));
    while i < chars.len()
        invariant
            i <= chars@.len(),
            out@ == start + safe_name(chars@.take(i as int)),
        decreases chars.len() - i,
    {
        let c = chars[i];
        let safe = ('0' <= c && c <= '9') || ('A' <= c && c <= 'Z') || ('a' <= c && c <= 'z') || c
            == '_' || c == '-';
        assert(safe == is_safe(c));
        if safe {
            out.push(c);
        } else {
            out.push('_');
        }
        i += 1;
        assert(out@ =~= start + safe_name(chars@.take(i as int)));
    }
    assert(chars@.take(i as int) =~= s@);
}

/// The name of a tool towards the model: made of the server's position and name and of the
/// tool's own name, of letters, digits, underscores and hyphens, and not too long.
pub fn model_tool_name(index: usize, server: &str, tool: &str) -> (r: String)
    ensures
        r@ == tool_name(index as nat, server@, tool@),
{
    let mut name = "mcp_".to_owned();
    push_decimal(&mut name, index as u128);
    name.append("_");
    push_safe(&mut name, server);
    name.append("_");
    push_safe(&mut name, tool);
    let chars = to_chars(name.as_str());
    if chars.len() <= MAX_TOOL_NAME {
        return name;
    }
    let r = slice_text(&chars, 0, MAX_TOOL_NAME);
    assert(r@ =~= name@.take(MAX_TOOL_NAME as int));
    r
}

/// A tool's name towards the model is not too long, and holds only safe characters.
pub proof fn tool_names_are_safe_and_bounded(index: nat, server: Seq<char>, tool: Seq<char>)
    ensures
        tool_name(index, server, tool).len() <= MAX_TOOL_NAME,
        forall|i: int|
            0 <= i < tool_name(index, server, tool).len() ==> is_safe(
                #[trigger] tool_name(index, server, tool)[i],
            ),
{
    let full = full_tool_name(index, server, tool);
    reveal_strlit("mcp_");
    reveal_strlit("_");
    text::lemma_decimal(index);
    assert forall|i: int| 0 <= i < full.len() implies is_safe(#[trigger] full[i]) by {
        let a = "mcp_"@;
        let b = a + text::decimal(index);
        let c = b + "_"@;
        let d = c + safe_name(server);
        let e = d + "_"@;
        if i < a.len() {
        } else if i < b.len() {
            assert(full[i] == text::decimal(index)[i - a.len()]);
        } else if i < c.len() {
        } else if i < d.len() {
            assert(full[i] == safe_name(server)[i - c.len()]);
        } else if i < e.len() {
        } else {
            assert(full[i] == safe_name(tool)[i - e.len()]);
        }
    }
}

/// Tools of different servers have different names towards the model, whatever the servers
/// and the tools are called.
pub proof fn tool_names_of_servers_differ(
    a: usize,
    server_a: Seq<char>,
    tool_a: Seq<char>,
    b: usize,
    server_b: Seq<char>,
    tool_b: Seq<char>,
)
    requires
        a != b,
    ensures
        tool_name(a as nat, server_a, tool_a) != tool_name(b as nat, server_b, tool_b),
{
    let x = tool_name(a as nat, server_a, tool_a);
    let y = tool_name(b as nat, server_b, tool_b);
    if x == y {
        lemma_index_in_name(a, server_a, tool_a);
        lemma_index_in_name(b, server_b, tool_b);
        let m = text::decimal(a as nat).len() as int;
        let n = text::decimal(b as nat).len() as int;
        text::lemma_decimal(a as nat);
        text::lemma_decimal(b as nat);
        if m < n {
            assert(x[4 + m] == '_');
            assert(y[4 + m] == text::decimal(b as nat)[m]);
        } else if n < m {
            assert(y[4 + n] == '_');
            assert(x[4 + n] == text::decimal(a as nat)[n]);
        } else {
            assert forall|i: int| 0 <= i < m implies text::decimal(a as nat)[i] == text::decimal(
                b as nat,
            )[i] by {
                assert(x[4 + i] == text::decimal(a as nat)[i]);
                assert(y[4 + i] == text::decimal(b as nat)[i]);
            }
            assert(text::decimal(a as nat) =~= text::decimal(b as nat));
            text::decimal_is_injective(a as nat, b as nat);
        }
    }
}

/// The position of the server stands whole in the name of a tool, with an underscore behind.
proof fn lemma_index_in_name(index: usize, server: Seq<char>, tool: Seq<char>)
    ensures
        ({
            let name = tool_name(index as nat, server, tool);
            let digits = text::decimal(index as nat);
            &&& digits.len() <= 20
            &&& name.len() > 4 + digits.len()
            &&& forall|i: int| 0 <= i < digits.len() ==> #[trigger] name[4 + i] == digits[i]
            &&& name[4 + digits.len() as int] == '_'
        }),
{
    let digits = text::decimal(index as nat);
    let full = full_tool_name(index as nat, server, tool);
    reveal_strlit("mcp_");
    reveal_strlit("_");
    text::lemma_decimal_monotone(index as nat, 99999999999999999999);
    assert(text::decimal(99999999999999999999).len() == 20) by {
        reveal_with_fuel(text::decimal, 21);
    }
    assert forall|i: int| 0 <= i < digits.len() implies #[trigger] full[4 + i] == digits[i] by {}
    assert(full[4 + digits.len() as int] == '_');
}

// ---------- Tools ----------

/// A tool as its server lists it.
#[derive(Debug)]
pub struct ListedTool {
    pub name: String,
    pub description: Option<String>,
    pub input_schema: Json,
    pub output_schema: Option<Json>,
}

/// A tool as it is offered to the model.
#[derive(Debug)]
pub struct ToolSpec {
    pub server: usize,
    pub alias: String,
    pub name: String,
    pub label: String,
    pub description: String,
    pub parameters: Json,
    pub output_schema: Option<Json>,
}

/// What a `ToolSpec` holds.
#[verifier::ext_equal]
pub struct SpecModel {
    pub server: usize,
    pub alias: Seq<char>,
    pub name: Seq<char>,
    pub label: Seq<char>,
    pub description: Seq<char>,
    pub parameters: JsonView,
    pub output_schema: Option<JsonView>,
}

impl View for ToolSpec {
    type V = SpecModel;

    open spec fn view(&self) -> SpecModel {
        SpecModel {
            server: self.server,
            alias: self.alias@,
            name: self.name@,
            label: self.label@,
            description: self.description@,
            parameters: self.parameters@,
            output_schema: json::optional_view(self.output_schema),
        }
    }
}

/// A connected server.
#[derive(Debug)]
pub struct McpConnection {
    pub name: String,
    pub protocol: String,
    pub tasks: bool,
}

/// What a `McpConnection` holds.
#[verifier::ext_equal]
pub struct ConnectionModel {
    pub name: Seq<char>,
    pub protocol: Seq<char>,
    pub tasks: bool,
}

impl View for McpConnection {
    type V = ConnectionModel;

    open spec fn view(&self) -> ConnectionModel {
        ConnectionModel { name: self.name@, protocol: self.protocol@, tasks: self.tasks }
    }
}

/// The connected servers and their tools.
#[derive(Debug)]
pub struct McpHost {
    pub services: Vec<McpConnection>,
    pub tools: Vec<ToolSpec>,
}

/// What a `McpHost` holds.
#[verifier::ext_equal]
pub struct HostModel {
    pub services: Seq<ConnectionModel>,
    pub tools: Seq<SpecModel>,
}

/// What a list of tools holds.
pub open spec fn spec_models(tools: Seq<ToolSpec>) -> Seq<SpecModel> {
    Seq::new(tools.len(), |i: int| tools[i]@)
}

/// What a list of servers holds.
pub open spec fn connection_models(services: Seq<McpConnection>) -> Seq<ConnectionModel> {
    Seq::new(services.len(), |i: int| services[i]@)
}

impl View for McpHost {
    type V = HostModel;

    open spec fn view(&self) -> HostModel {
        HostModel {
            services: connection_models(self.services@),
            tools: spec_models(self.tools@),
        }
    }
}

/// The tool `tool` of server `server`, as it is offered to the model.
pub open spec fn offered(server: usize, server_name: Seq<char>, tool: ListedTool) -> SpecModel {
    SpecModel {
        server,
        alias: tool_name(server as nat, server_name, tool.name@),
        name: tool.name@,
        label: server_name + "/"@ + tool.name@,
        description: match tool.description {
            Some(description) => description@,
            None => Seq::empty(),
        },
        parameters: tool.input_schema@,
        output_schema: json::optional_view(tool.output_schema),
    }
}

/// A tool is offered to the model under the name `alias`.
pub open spec fn is_taken(tools: Seq<SpecModel>, alias: Seq<char>) -> bool {
    exists|i: int| 0 <= i < tools.len() && (#[trigger] tools[i]).alias == alias
}

/// No two tools are offered to the model under the same name.
pub open spec fn aliases_differ(tools: Seq<SpecModel>) -> bool {
    forall|i: int, j: int|
        0 <= i < j < tools.len() ==> (#[trigger] tools[i]).alias != (#[trigger] tools[j]).alias
}

/// The message of the error on a name that is taken.
pub open spec fn collision_text(alias: Seq<char>) -> Seq<char> {
    "MCP tool name collision after model-safe normalization: "@ + alias
}

impl McpHost {
    /// No servers.
    pub fn new() -> (r: McpHost)
        ensures
            r@ == (HostModel { services: Seq::empty(), tools: Seq::empty() }),
    {
        let r = McpHost { services: Vec::new(), tools: Vec::new() };
        assert(r@.services =~= Seq::empty());
        assert(r@.tools =~= Seq::empty());
        r
    }

    /// Tells whether a tool is offered to the model under the name `alias`.
    fn has_alias(&self, alias: &str) -> (r: bool)
        ensures
            r == is_taken(self@.tools, alias@),
    {
        let mut i: usize = 0;
        while i < self.tools.len()
            invariant
                i <= self.tools@.len(),
                forall|j: int| 0 <= j < i ==> (#[trigger] self@.tools[j]).alias != alias@,
            decreases self.tools.len() - i,
        {
            if same_text(self.tools[i].alias.as_str(), alias) {
                assert(self@.tools[i as int].alias == alias@);
                return true;
            }
            i += 1;
        }
        false
    }

    /// Adds a tool of server `server`. One whose name towards the model is taken is refused,
    /// with the message of the error.
    pub fn add_tool(&mut self, server: usize, server_name: &str, tool: ListedTool) -> (r: Result<
        (),
        String,
    >)
        ensures
            match r {
                Ok(()) => !is_taken(
                    old(self)@.tools,
                    tool_name(server as nat, server_name@, tool.name@),
                ) && final(self)@ == (HostModel {
                    tools: old(self)@.tools.push(offered(server, server_name@, tool)),
                    ..old(self)@
                }),
                Err(message) => {
                    &&& is_taken(
                        old(self)@.tools,
                        tool_name(server as nat, server_name@, tool.name@),
                    )
                    &&& message@ == collision_text(
                        tool_name(server as nat, server_name@, tool.name@),
                    )
                    &&& final(self)@ == old(self)@
                },
            },
            aliases_differ(old(self)@.tools) ==> aliases_differ(final(self)@.tools),
    {
        let alias = model_tool_name(server, server_name, tool.name.as_str());
        if self.has_alias(alias.as_str()) {
            let mut message = "MCP tool name collision after model-safe normalization: ".to_owned();
            message.append(alias.as_str());
            return Err(message);
        }
        let mut label = server_name.to_owned();
        label.append("/");
        label.append(tool.name.as_str());
        let description = match tool.description {
            Some(description) => description,
            None => {
                let empty = String::new();
                assert(empty@ =~= Seq::empty());
                empty
            },
        };
        self.tools.push(
            ToolSpec {
                server,
                alias,
                name: tool.name,
                label,
                description,
                parameters: tool.input_schema,
                output_schema: tool.output_schema,
            },
        );
        assert(self@.tools =~= old(self)@.tools.push(offered(server, server_name@, tool)));
        Ok(())
    }

    /// Adds a connected server, whose tools were added with its position.
    pub fn add_service(&mut self, connection: McpConnection)
        ensures
            final(self)@ == (HostModel {
                services: old(self)@.services.push(connection@),
                ..old(self)@
            }),
    {
        self.services.push(connection);
        assert(self@.services =~= old(self)@.services.push(connection@));
    }
}

// ---------- Summary ----------

/// How many of `tools` belong to server `index`.
pub open spec fn tools_of(tools: Seq<SpecModel>, index: nat) -> nat
    decreases tools.len(),
{
    if tools.len() == 0 {
        0
    } else {
        tools_of(tools.drop_last(), index) + if tools.last().server == index {
            1nat
        } else {
            0nat
        }
    }
}

/// The ending of a plural.
pub open spec fn plural(count: nat) -> Seq<char> {
    if count == 1 {
        ""@
    } else {
        "s"@
    }
}

/// The account of one server.
pub open spec fn service_line(connection: ConnectionModel, tools: nat) -> Seq<char> {
    "\n\n- **"@ + connection.name + "** · "@ + text::decimal(tools) + " tool"@ + plural(tools)
        + " · MCP "@ + connection.protocol + if connection.tasks {
        " · Tasks"@
    } else {
        ""@
    }
}

/// The accounts of the first `n` servers.
pub open spec fn service_lines(host: HostModel, n: nat) -> Seq<char>
    decreases n,
{
    if n == 0 {
        Seq::empty()
    } else {
        service_lines(host, (n - 1) as nat) + service_line(
            host.services[n - 1],
            tools_of(host.tools, (n - 1) as nat),
        )
    }
}

/// The account of the servers and their tools.
pub open spec fn host_summary(host: HostModel) -> Seq<char> {
    if host.services.len() == 0 {
        "No MCP servers connected."@
    } else {
        "**MCP** · "@ + text::decimal(host.services.len()) + " server"@ + plural(host.services.len())
            + " · "@ + text::decimal(host.tools.len()) + " tool"@ + plural(host.tools.len())
            + service_lines(host, host.services.len())
    }
}

/// The ending of a plural.
fn plural_ending(count: usize) -> (r: &'static str)
    ensures
        r@ == plural(count as nat),
{
    if count == 1 {
        ""
    } else {
        "s"
    }
}

impl McpHost {
    /// How many tools belong to server `index`.
    fn count_tools(&self, index: usize) -> (r: usize)
        ensures
            r == tools_of(self@.tools, index as nat),
    {
        let ghost models = self@.tools;
        let mut count: usize = 0;
        let mut i: usize = 0;
        assert(models.take(0) =~= Seq::empty());
        while i < self.tools.len()
            invariant
                i <= self.tools@.len(),
                models == spec_models(self.tools@),
                count == tools_of(models.take(i as int), index as nat),
                count <= i,
            decreases self.tools.len() - i,
        {
            proof {
                assert(models.take(i + 1).drop_last() =~= models.take(i as int));
                assert(models.take(i + 1).last() == self.tools@[i as int]@);
            }
            if self.tools[i].server == index {
                count += 1;
            }
            i += 1;
        }
        assert(models.take(i as int) =~= models);
        count
    }

    /// The account of the servers and their tools.
    pub fn summary(&self) -> (r: String)
        ensures
            r@ == host_summary(self@),
    {
        if self.services.len() == 0 {
            return "No MCP servers connected.".to_owned();
        }
        let mut output = "**MCP** · ".to_owned();
        push_decimal(&mut output, self.services.len() as u128);
        output.append(" server");
        output.append(plural_ending(self.services.len()));
        output.append(" · ");
        push_decimal(&mut output, self.tools.len() as u128);
        output.append(" tool");
        output.append(plural_ending(self.tools.len()));
        let ghost head = output@;
        let mut i: usize = 0;
        assert(output@ =~= head + service_lines(self@, 0));
        while i < self.services.len()
            invariant
                i <= self.services@.len(),
                output@ == head + service_lines(self@, i as nat),
            decreases self.services.len() - i,
        {
            let tools = self.count_tools(i);
            let connection = &self.services[i];
            let mut line = "\n\n- **".to_owned();
            line.append(connection.name.as_str());
            line.append("** · ");
            push_decimal(&mut line, tools as u128);
            line.append(" tool");
            line.append(plural_ending(tools));
            line.append(" · MCP ");
            line.append(connection.protocol.as_str());
            line.append(
                if connection.tasks {
                    " · Tasks"
                } else {
                    ""
                },
            );
            assert(self@.services[i as int] == connection@);
            output.append(line.as_str());
            i += 1;
            assert(output@ =~= head + service_lines(self@, i as nat));
        }
        output
    }
}

// ---------- Shutdown ----------

/// How the connection to a server ended.
#[derive(Debug)]
pub enum Closing {
    Closed,
    TimedOut,
    Failed(String),
}

/// What went wrong when the connection to the server `name` was closed, if anything.
pub open spec fn closing_error(name: Seq<char>, closing: Closing) -> Option<Seq<char>> {
    match closing {
        Closing::Closed => None,
        Closing::TimedOut => Some("MCP server "@ + name + " shutdown timed out"@),
        Closing::Failed(error) => Some("MCP server "@ + name + " shutdown failed: "@ + error@),
    }
}

/// What went wrong with the first `n` servers.
pub open spec fn closing_errors(
    services: Seq<ConnectionModel>,
    closings: Seq<Closing>,
    n: nat,
) -> Seq<Seq<char>>
    decreases n,
{
    if n == 0 {
        Seq::empty()
    } else {
        let earlier = closing_errors(services, closings, (n - 1) as nat);
        match closing_error(services[n - 1].name, closings[n - 1]) {
            Some(error) => earlier.push(error),
            None => earlier,
        }
    }
}

impl McpHost {
    /// Sums up how the connections ended: all that went wrong, one after the other.
    pub fn shutdown_result(&self, closings: &Vec<Closing>) -> (r: Result<(), String>)
        requires
            closings@.len() == self.services@.len(),
        ensures
            match r {
                Ok(()) => closing_errors(
                    self@.services,
                    closings@,
                    closings@.len(),
                ).len() == 0,
                Err(message) => {
                    let errors = closing_errors(self@.services, closings@, closings@.len());
                    errors.len() > 0 && message@ == text::join(errors, "; "@)
                },
            },
    {
        let mut errors: Vec<String> = Vec::new();
        let mut i: usize = 0;
        assert(text::texts(errors@) =~= Seq::empty());
        while i < closings.len()
            invariant
                i <= closings@.len(),
                closings@.len() == self.services@.len(),
                text::texts(errors@) == closing_errors(self@.services, closings@, i as nat),
            decreases closings.len() - i,
        {
            let ghost earlier = text::texts(errors@);
            let name = self.services[i].name.as_str();
            assert(self@.services[i as int].name == name@);
            match &closings[i] {
                Closing::Closed => {},
                Closing::TimedOut => {
                    let mut message = "MCP server ".to_owned();
                    message.append(name);
                    message.append(" shutdown timed out");
                    errors.push(message);
                    assert(text::texts(errors@) =~= earlier.push(message@));
                },
                Closing::Failed(error) => {
                    let mut message = "MCP server ".to_owned();
                    message.append(name);
                    message.append(" shutdown failed: ");
                    message.append(error.as_str());
                    errors.push(message);
                    assert(text::texts(errors@) =~= earlier.push(message@));
                },
            }
            i += 1;
        }
        assert(text::texts(errors@).len() == errors@.len());
        if errors.len() == 0 {
            Ok(())
        } else {
            Err(join_texts(&errors, "; "))
        }
    }
}

// ---------- Progress ----------

/// The token by which a server names a request when it reports progress.
#[derive(Debug)]
pub enum ProgressToken {
    Number(i64),
    Text(String),
}

/// What a `ProgressToken` holds.
pub enum TokenModel {
    Number(i64),
    Text(Seq<char>),
}

impl View for ProgressToken {
    type V = TokenModel;

    open spec fn view(&self) -> TokenModel {
        match self {
            ProgressToken::Number(n) => TokenModel::Number(*n),
            ProgressToken::Text(s) => TokenModel::Text(s@),
        }
    }
}

/// Tells whether two tokens are the same.
fn same_token(a: &ProgressToken, b: &ProgressToken) -> (r: bool)
    ensures
        r == (a@ == b@),
{
    match (a, b) {
        (ProgressToken::Number(x), ProgressToken::Number(y)) => *x == *y,
        (ProgressToken::Text(x), ProgressToken::Text(y)) => same_text(x.as_str(), y.as_str()),
        _ => false,
    }
}

/// Which call a token belongs to, for the requests under way.
#[derive(Debug)]
pub struct ProgressRouter {
    pub active: Vec<(ProgressToken, u64)>,
}

/// The routes in a list of tokens and calls: the last one of a token counts.
pub open spec fn routes(active: Seq<(ProgressToken, u64)>) -> Map<TokenModel, u64>
    decreases active.len(),
{
    if active.len() == 0 {
        Map::empty()
    } else {
        routes(active.drop_last()).insert(active.last().0@, active.last().1)
    }
}

impl View for ProgressRouter {
    type V = Map<TokenModel, u64>;

    open spec fn view(&self) -> Map<TokenModel, u64> {
        routes(self.active@)
    }
}

/// What is said of progress: the message, unless it is blank, else the counts, if any.
pub open spec fn progress_text(message: Option<Seq<char>>, counts: Option<Seq<char>>) -> Option<
    Seq<char>,
> {
    match message {
        Some(message) => if text::is_blank(message) {
            counts
        } else {
            Some(message)
        },
        None => counts,
    }
}

/// What is said of progress.
pub fn progress_status(message: Option<String>, counts: Option<String>) -> (r: Option<String>)
    ensures
        thinking::optional(r) == progress_text(thinking::optional(message), thinking::optional(counts)),
{
    match message {
        Some(message) => if blank(message.as_str()) {
            counts
        } else {
            Some(message)
        },
        None => counts,
    }
}

impl ProgressRouter {
    /// No routes.
    pub fn new() -> (r: ProgressRouter)
        ensures
            r@ == Map::<TokenModel, u64>::empty(),
    {
        ProgressRouter { active: Vec::new() }
    }

    /// Routes the token `token` to the call `id`.
    pub fn register(&mut self, token: ProgressToken, id: u64)
        ensures
            final(self)@ == old(self)@.insert(token@, id),
    {
        self.active.push((token, id));
        assert(self.active@.drop_last() =~= old(self).active@);
    }

    /// Takes the route of the token `token` away.
    pub fn remove(&mut self, token: &ProgressToken)
        ensures
            final(self)@ == old(self)@.remove(token@),
    {
        let mut i: usize = 0;
        let ghost start = self.active@;
        let ghost mut seen: int = 0;
        assert(start.take(0) =~= Seq::empty());
        assert(self.active@.take(0) =~= Seq::empty());
        assert(routes(start.take(0)).remove(token@) =~= routes(self.active@.take(0)));
        assert(start.skip(0) =~= self.active@.skip(0));
        while i < self.active.len()
            invariant
                i <= self.active@.len(),
                0 <= seen <= start.len(),
                start.skip(seen) == self.active@.skip(i as int),
                routes(self.active@.take(i as int)) == routes(start.take(seen)).remove(token@),
            decreases self.active@.len() - i,
        {
            let ghost before = self.active@;
            proof {
                assert(start.skip(seen)[0] == before.skip(i as int)[0]);
                assert(start.skip(seen).len() == before.skip(i as int).len());
                assert(start.take(seen + 1).drop_last() =~= start.take(seen));
                assert(start.take(seen + 1).last() == before[i as int]);
                assert(before.skip(i as int).drop_first() =~= before.skip(i + 1));
                assert(start.skip(seen).drop_first() =~= start.skip(seen + 1));
            }
            if same_token(&self.active[i].0, token) {
                self.active.remove(i);
                proof {
                    assert(self.active@.take(i as int) =~= before.take(i as int));
                    assert(self.active@.skip(i as int) =~= before.skip(i + 1));
                    assert(routes(start.take(seen + 1)).remove(token@) =~= routes(
                        start.take(seen),
                    ).remove(token@));
                }
            } else {
                proof {
                    assert(before.take(i + 1).drop_last() =~= before.take(i as int));
                    assert(before.take(i + 1).last() == before[i as int]);
                    assert(routes(start.take(seen + 1)).remove(token@) =~= routes(
                        start.take(seen),
                    ).remove(token@).insert(before[i as int].0@, before[i as int].1));
                }
                i += 1;
            }
            proof {
                seen = seen + 1;
            }
        }
        proof {
            assert(start.skip(seen).len() == 0);
            assert(start.take(seen) =~= start);
            assert(self.active@.take(i as int) =~= self.active@);
        }
    }

    /// The call that the token `token` belongs to.
    pub fn route(&self, token: &ProgressToken) -> (r: Option<u64>)
        ensures
            r == (if self@.dom().contains(token@) {
                Some(self@[token@])
            } else {
                None
            }),
    {
        let mut i: usize = self.active.len();
        assert(self.active@.take(i as int) =~= self.active@);
        while i > 0
            invariant
                i <= self.active@.len(),
                self@.dom().contains(token@) == routes(self.active@.take(i as int)).dom().contains(
                    token@,
                ),
                self@.dom().contains(token@) ==> self@[token@] == routes(
                    self.active@.take(i as int),
                )[token@],
            decreases i,
        {
            i -= 1;
            proof {
                let head = self.active@.take(i + 1);
                assert(head.drop_last() =~= self.active@.take(i as int));
                assert(head.last() == self.active@[i as int]);
            }
            if same_token(&self.active[i].0, token) {
                return Some(self.active[i].1);
            }
        }
        None
    }

    /// What a report of progress says of a call: nothing where the token belongs to none, or
    /// where the report says nothing.
    pub fn handle(
        &self,
        token: &ProgressToken,
        message: Option<String>,
        counts: Option<String>,
    ) -> (r: Option<ToolEvent>)
        ensures
            match progress_text(thinking::optional(message), thinking::optional(counts)) {
                Some(text) => if self@.dom().contains(token@) {
                    r matches Some(ToolEvent::Progress { id, status }) && id == self@[token@]
                        && thinking::optional(status) == Some(text)
                } else {
                    r is None
                },
                None => r is None,
            },
    {
        match self.route(token) {
            Some(id) => match progress_status(message, counts) {
                Some(status) => Some(ToolEvent::Progress { id, status: Some(status) }),
                None => None,
            },
            None => None,
        }
    }
}

// ---------- Laws ----------

/// A tool is offered to the model as its server lists it: under its own name towards the server,
/// with its own description, parameters and output schema, and labelled with both names.
pub proof fn tools_are_offered_as_they_are_listed(
    server: usize,
    server_name: Seq<char>,
    tool: ListedTool,
)
    ensures
        ({
            let spec = offered(server, server_name, tool);
            &&& spec.server == server
            &&& spec.name == tool.name@
            &&& spec.parameters == tool.input_schema@
            &&& spec.output_schema == json::optional_view(tool.output_schema)
            &&& tool.description matches Some(description) ==> spec.description == description@
            &&& tool.description is None ==> spec.description.len() == 0
            &&& text::holds_in_order(spec.label, seq![server_name, tool.name@])
        }),
{
    text::lemma_holds_itself(server_name);
    text::lemma_holds_next(server_name, "/"@, tool.name@, seq![server_name]);
    assert(seq![server_name].push(tool.name@) =~= seq![server_name, tool.name@]);
}

/// A tool's name towards the model tells its server and itself: where it is not too long, it
/// ends in the tool's own name, with underscores only for what may not stand in it, and the
/// server's name stands before that.
pub proof fn tool_names_tell_server_and_tool(index: nat, server: Seq<char>, tool: Seq<char>)
    requires
        full_tool_name(index, server, tool).len() <= MAX_TOOL_NAME,
    ensures
        ({
            let name = tool_name(index, server, tool);
            let end = name.skip(name.len() - tool.len());
            &&& tool.len() <= name.len()
            &&& forall|i: int|
                0 <= i < tool.len() ==> (if is_safe(tool[i]) {
                    #[trigger] end[i] == tool[i]
                } else {
                    end[i] == '_'
                })
            &&& (forall|i: int| 0 <= i < server.len() ==> is_safe(#[trigger] server[i]))
                ==> text::holds_in_order(name.take(name.len() - tool.len()), seq![server])
        }),
{
    let name = tool_name(index, server, tool);
    let lead = "mcp_"@ + text::decimal(index) + "_"@;
    assert(name =~= lead + safe_name(server) + "_"@ + safe_name(tool));
    assert(name.skip(name.len() - tool.len()) =~= safe_name(tool));
    let start = name.take(name.len() - tool.len());
    assert(start =~= lead + safe_name(server) + "_"@);
    if forall|i: int| 0 <= i < server.len() ==> is_safe(#[trigger] server[i]) {
        assert(safe_name(server) =~= server);
        text::lemma_holds_itself(server);
        text::lemma_holds_behind(lead, server, seq![server]);
        text::lemma_holds_before(lead + server, "_"@, seq![server]);
    }
}

/// What the account of the first `n` servers has to say: of each its name, how many tools it
/// has, and its protocol.
pub open spec fn service_pieces(host: HostModel, n: nat) -> Seq<Seq<char>>
    decreases n,
{
    if n == 0 {
        Seq::empty()
    } else {
        service_pieces(host, (n - 1) as nat) + seq![
            host.services[n - 1].name,
            text::decimal(tools_of(host.tools, (n - 1) as nat)),
            host.services[n - 1].protocol,
        ]
    }
}

proof fn lemma_service_line(connection: ConnectionModel, tools: nat)
    ensures
        text::holds_in_order(
            service_line(connection, tools),
            seq![connection.name, text::decimal(tools), connection.protocol],
        ),
{
    let none = Seq::<Seq<char>>::empty();
    let start = Seq::<char>::empty();
    text::lemma_holds_itself(start);
    text::lemma_holds_next(start, "\n\n- **"@, connection.name, none);
    let a = start + "\n\n- **"@ + connection.name;
    text::lemma_holds_next(a, "** · "@, text::decimal(tools), none.push(connection.name));
    let b = a + "** · "@ + text::decimal(tools);
    let lead = " tool"@ + plural(tools) + " · MCP "@;
    let p = none.push(connection.name).push(text::decimal(tools));
    text::lemma_holds_next(b, lead, connection.protocol, p);
    let c = b + lead + connection.protocol;
    let end = if connection.tasks {
        " · Tasks"@
    } else {
        ""@
    };
    text::lemma_holds_before(c, end, p.push(connection.protocol));
    assert(service_line(connection, tools) =~= c + end);
    assert(p.push(connection.protocol) =~= seq![
        connection.name,
        text::decimal(tools),
        connection.protocol,
    ]);
}

proof fn lemma_service_lines(host: HostModel, n: nat)
    ensures
        text::holds_in_order(service_lines(host, n), service_pieces(host, n)),
    decreases n,
{
    if n == 0 {
        text::lemma_holds_itself(service_lines(host, n));
    } else {
        lemma_service_lines(host, (n - 1) as nat);
        let tools = tools_of(host.tools, (n - 1) as nat);
        lemma_service_line(host.services[n - 1], tools);
        text::lemma_holds_both(
            service_lines(host, (n - 1) as nat),
            service_line(host.services[n - 1], tools),
            service_pieces(host, (n - 1) as nat),
            seq![host.services[n - 1].name, text::decimal(tools), host.services[n - 1].protocol],
        );
    }
}

/// The account of the servers says how many servers and tools there are, and of every server in
/// its order its name, how many tools it has, and its protocol.
pub proof fn the_summary_tells_every_server(host: HostModel)
    requires
        host.services.len() > 0,
    ensures
        text::holds_in_order(
            host_summary(host),
            seq![text::decimal(host.services.len()), text::decimal(host.tools.len())] + service_pieces(
                host,
                host.services.len(),
            ),
        ),
{
    let none = Seq::<Seq<char>>::empty();
    let start = Seq::<char>::empty();
    let n = host.services.len();
    let m = host.tools.len();
    text::lemma_holds_itself(start);
    text::lemma_holds_next(start, "**MCP** · "@, text::decimal(n), none);
    let a = start + "**MCP** · "@ + text::decimal(n);
    let lead = " server"@ + plural(n) + " · "@;
    text::lemma_holds_next(a, lead, text::decimal(m), none.push(text::decimal(n)));
    let b = a + lead + text::decimal(m);
    let p = none.push(text::decimal(n)).push(text::decimal(m));
    let end = " tool"@ + plural(m);
    text::lemma_holds_before(b, end, p);
    lemma_service_lines(host, n);
    text::lemma_holds_both(b + end, service_lines(host, n), p, service_pieces(host, n));
    assert(host_summary(host) =~= b + end + service_lines(host, n));
    assert(p =~= seq![text::decimal(n), text::decimal(m)]);
}

/// Another tool counts for its own server, and for no other.
pub proof fn tools_count_for_their_server(tools: Seq<SpecModel>, tool: SpecModel, index: nat)
    ensures
        tools_of(tools.push(tool), index) == tools_of(tools, index) + (if tool.server == index {
            1nat
        } else {
            0nat
        }),
        tools_of(tools, index) <= tools.len(),
{
    assert(tools.push(tool).drop_last() =~= tools);
    lemma_tools_of(tools, index);
}

proof fn lemma_tools_of(tools: Seq<SpecModel>, index: nat)
    ensures
        tools_of(tools, index) <= tools.len(),
    decreases tools.len(),
{
    if tools.len() > 0 {
        lemma_tools_of(tools.drop_last(), index);
    }
}

/// Nothing went wrong exactly where every connection was closed; what went wrong with a server
/// is told with its name, and with the error where there is one.
pub proof fn closing_errors_name_the_servers(
    services: Seq<ConnectionModel>,
    closings: Seq<Closing>,
    n: nat,
)
    requires
        n <= services.len(),
        n <= closings.len(),
    ensures
        closing_errors(services, closings, n).len() == 0 <==> forall|i: int|
            0 <= i < n ==> (#[trigger] closings[i]) is Closed,
        forall|i: int|
            0 <= i < n && !((#[trigger] closings[i]) is Closed) ==> exists|k: int|
                0 <= k < closing_errors(services, closings, n).len() && text::holds_in_order(
                    #[trigger] closing_errors(services, closings, n)[k],
                    match closings[i] {
                        Closing::Failed(error) => seq![services[i].name, error@],
                        _ => seq![services[i].name],
                    },
                ),
    decreases n,
{
    if n > 0 {
        let earlier = closing_errors(services, closings, (n - 1) as nat);
        let all = closing_errors(services, closings, n);
        closing_errors_name_the_servers(services, closings, (n - 1) as nat);
        let last = closings[n - 1];
        if !(last is Closed) {
            assert(all.len() == earlier.len() + 1);
            assert(!(closings[n - 1] is Closed));
        } else {
            assert(all == earlier);
            if all.len() == 0 {
                assert forall|i: int| 0 <= i < n implies (#[trigger] closings[i]) is Closed by {
                    if i < n - 1 {
                        assert(closings[i] is Closed);
                    }
                }
            }
        }
        assert forall|i: int| 0 <= i < n && !((#[trigger] closings[i]) is Closed) implies exists|
            k: int,
        |
            0 <= k < all.len() && text::holds_in_order(
                #[trigger] all[k],
                match closings[i] {
                    Closing::Failed(error) => seq![services[i].name, error@],
                    _ => seq![services[i].name],
                },
            ) by {
            if i < n - 1 {
                let pieces = match closings[i] {
                    Closing::Failed(error) => seq![services[i].name, error@],
                    _ => seq![services[i].name],
                };
                let k = choose|k: int|
                    0 <= k < earlier.len() && text::holds_in_order(#[trigger] earlier[k], pieces);
                assert(all[k] == earlier[k]);
            } else {
                lemma_closing_error(services[i].name, closings[i]);
                assert(all[earlier.len() as int] == closing_error(
                    services[i].name,
                    closings[i],
                )->0);
            }
        }
    }
}

proof fn lemma_closing_error(name: Seq<char>, closing: Closing)
    requires
        !(closing is Closed),
    ensures
        text::holds_in_order(
            closing_error(name, closing)->0,
            match closing {
                Closing::Failed(error) => seq![name, error@],
                _ => seq![name],
            },
        ),
{
    let start = Seq::<char>::empty();
    let none = Seq::<Seq<char>>::empty();
    text::lemma_holds_itself(start);
    text::lemma_holds_next(start, "MCP server "@, name, none);
    let a = start + "MCP server "@ + name;
    assert(none.push(name) =~= seq![name]);
    match closing {
        Closing::Failed(error) => {
            text::lemma_holds_next(a, " shutdown failed: "@, error@, seq![name]);
            assert(closing_error(name, closing)->0 =~= a + " shutdown failed: "@ + error@);
            assert(seq![name].push(error@) =~= seq![name, error@]);
        },
        _ => {
            text::lemma_holds_before(a, " shutdown timed out"@, seq![name]);
            assert(closing_error(name, closing)->0 =~= a + " shutdown timed out"@);
        },
    }
}

/// A message on progress that says something is what is told, whatever the counts; else the
/// counts are.
pub proof fn progress_messages_go_before_counts(
    message: Option<Seq<char>>,
    counts: Option<Seq<char>>,
)
    ensures
        message matches Some(text) && !text::is_blank(text) ==> progress_text(message, counts) == message,
        message is None ==> progress_text(message, counts) == counts,
        message matches Some(text) && text::is_blank(text) ==> progress_text(message, counts) == counts,
{
}

/// A name that is taken is refused with a message that holds it.
pub proof fn collisions_are_named(alias: Seq<char>)
    ensures
        text::holds_in_order(collision_text(alias), seq![alias]),
{
    text::lemma_holds_itself(alias);
    text::lemma_holds_behind(
        "MCP tool name collision after model-safe normalization: "@,
        alias,
        seq![alias],
    );
}

/// Progress under a token goes to the call that the token was last registered for.
pub proof fn progress_goes_to_the_last_call_of_its_token(active: Seq<(ProgressToken, u64)>, i: int)
    requires
        0 <= i < active.len(),
        forall|k: int| i < k < active.len() ==> (#[trigger] active[k]).0@ != active[i].0@,
    ensures
        routes(active).contains_pair(active[i].0@, active[i].1),
    decreases active.len(),
{
    if i < active.len() - 1 {
        let d = active.drop_last();
        assert forall|k: int| i < k < d.len() implies (#[trigger] d[k]).0@ != d[i].0@ by {
            assert(active[k].0@ != active[i].0@);
        }
        progress_goes_to_the_last_call_of_its_token(d, i);
        assert(active[active.len() - 1].0@ != active[i].0@);
    }
}

/// A tool's name towards the model has 64 characters at most, and is cut only where it would
/// have more.
pub proof fn tool_names_have_64_characters(index: nat, server: Seq<char>, tool: Seq<char>)
    ensures
        tool_name(index, server, tool).len() <= 64,
        full_tool_name(index, server, tool).len() <= 64 ==> tool_name(index, server, tool)
            == full_tool_name(index, server, tool),
        full_tool_name(index, server, tool).len() > 64 ==> tool_name(index, server, tool)
            == full_tool_name(index, server, tool).take(64),
{
}

} // verus!
