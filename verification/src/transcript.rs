//! The conversation as Markdown.
use vstd::prelude::*;
use vstd::string::*;
use crate::clock;
use crate::clock::compact_duration;
use crate::json;
use crate::json::pretty_json;
use crate::message;
use crate::message::{Message, MessageModel, StateModel, ToolModel, ToolState, ToolView};
use crate::text;
use crate::text::{slice_text, to_chars};
use crate::thinking;
use crate::ui;
use crate::ui::{Ui, UiModel};

verus! {

/// What stands between two messages.
pub open spec fn divider() -> Seq<char> {
    "\n\n---\n\n"@
}

/// `s` without `suffix` at its end, as often as it stands there.
pub open spec fn without_suffix(s: Seq<char>, suffix: Seq<char>) -> Seq<char>
    decreases s.len(),
{
    if 0 < suffix.len() <= s.len() && s.skip(s.len() - suffix.len()) == suffix {
        without_suffix(s.take(s.len() - suffix.len()), suffix)
    } else {
        s
    }
}

/// `text` without `suffix` at its end, as often as it stands there.
fn strip_suffix(text: String, suffix: &str) -> (r: String)
    ensures
        r@ == without_suffix(text@, suffix@),
{
    let chars = to_chars(text.as_str());
    let pattern = to_chars(suffix);
    let n = pattern.len();
    let mut end = chars.len();
    assert(chars@.take(end as int) =~= chars@);
    if n == 0 {
        return text;
    }
    loop
        invariant
            pattern@ == suffix@,
            n == pattern@.len(),
            n > 0,
            end <= chars@.len(),
            without_suffix(chars@, suffix@) == without_suffix(chars@.take(end as int), suffix@),
        ensures
            without_suffix(chars@, suffix@) == chars@.take(end as int),
        decreases end,
    {
        if end < n {
            break ;
        }
        let ghost s = chars@.take(end as int);
        let mut i: usize = 0;
        while i < n && chars[end - n + i] == pattern[i]
            invariant
                i <= n <= end <= chars@.len(),
                n == pattern@.len(),
                forall|k: int| 0 <= k < i ==> chars@[end - n + k] == pattern@[k],
            decreases n - i,
        {
            i += 1;
        }
        if i < n {
            proof {
                assert(s.skip(s.len() - n)[i as int] != pattern@[i as int]);
            }
            break ;
        }
        proof {
            assert(s.skip(s.len() - n) =~= pattern@);
            assert(s.take(s.len() - n) =~= chars@.take(end - n));
        }
        end -= n;
    }
    assert(chars@.subrange(0, end as int) =~= chars@.take(end as int));
    slice_text(&chars, 0, end)
}

// ---------- Calls ----------

/// A call: its label and its arguments, and its output if there is one, else its error if
/// it failed.
pub open spec fn call_section(
    label: Seq<char>,
    args: Seq<char>,
    output: Option<Seq<char>>,
    error: Option<Seq<char>>,
) -> Seq<char> {
    "**Tool: "@ + label + "**\n\n**Input:**\n```json\n"@ + args + "\n```"@ + match output {
        Some(output) =>
            "\n\n**Output (bounded UI projection, not an exact model-request trace):**\n```json\n"@
            + output + "\n```"@,
        None => match error {
            Some(error) => "\n\n**Error:**\n```text\n"@ + error + "\n```"@,
            None => Seq::empty(),
        },
    }
}

/// A call in the transcript.
pub open spec fn call_text(tool: ToolModel) -> Seq<char> {
    call_section(
        tool.label,
        json::json_pretty(tool.args),
        match tool.output {
            Some(output) => Some(json::json_pretty(output)),
            None => None,
        },
        match tool.state {
            StateModel::Failed(error, _) => Some(error),
            _ => None,
        },
    )
}

/// A group of calls, with an empty line between them.
pub open spec fn group_text(tools: Seq<ToolModel>) -> Seq<char>
    decreases tools.len(),
{
    if tools.len() == 0 {
        Seq::empty()
    } else if tools.len() == 1 {
        call_text(tools[0])
    } else {
        group_text(tools.drop_last()) + "\n\n"@ + call_text(tools.last())
    }
}

/// Appends a call to `out`, when its arguments and its output are rendered.
pub fn push_call(
    out: &mut String,
    label: &str,
    args: &str,
    output: Option<&str>,
    error: Option<&str>,
)
    ensures
        final(out)@ == old(out)@ + call_section(
            label@,
            args@,
            match output {
                Some(output) => Some(output@),
                None => None,
            },
            match error {
                Some(error) => Some(error@),
                None => None,
            },
        ),
{
    let mut text = "**Tool: ".to_owned();
    text.append(label);
    text.append("**\n\n**Input:**\n```json\n");
    text.append(args);
    text.append("\n```");
    let ghost start = text@;
    match output {
        Some(output) => {
            let mut more =
                "\n\n**Output (bounded UI projection, not an exact model-request trace):**\n```json\n".to_owned();
            more.append(output);
            more.append("\n```");
            text.append(more.as_str());
        },
        None => match error {
            Some(error) => {
                let mut more = "\n\n**Error:**\n```text\n".to_owned();
                more.append(error);
                more.append("\n```");
                text.append(more.as_str());
            },
            None => {
                assert(text@ =~= start + Seq::empty());
            },
        },
    }
    out.append(text.as_str());
}

/// Appends a group of calls to `out`.
fn push_group(out: &mut String, tools: &Vec<ToolView>)
    ensures
        final(out)@ == old(out)@ + group_text(message::tool_models(tools@)),
{
    let ghost models = message::tool_models(tools@);
    let ghost start = out@;
    let mut i: usize = 0;
    assert(models.take(0) =~= Seq::empty());
    assert(out@ =~= start + Seq::empty());
    while i < tools.len()
        invariant
            i <= tools@.len(),
            models == message::tool_models(tools@),
            out@ == start + group_text(models.take(i as int)),
        decreases tools.len() - i,
    {
        let ghost head = models.take(i + 1);
        proof {
            assert(head.drop_last() =~= models.take(i as int));
            assert(head.last() == tools@[i as int]@);
        }
        let tool = &tools[i];
        if i > 0 {
            out.append("\n\n");
        } else {
            assert(start + group_text(models.take(0)) =~= start);
        }
        let ghost before = out@;
        let args = pretty_json(&tool.args);
        let error = match &tool.state {
            ToolState::Failed(error, _) => Some(error.as_str()),
            _ => None,
        };
        match &tool.output {
            Some(output) => {
                let rendered = pretty_json(output);
                push_call(out, tool.label.as_str(), args.as_str(), Some(rendered.as_str()), error);
            },
            None => {
                push_call(out, tool.label.as_str(), args.as_str(), None, error);
            },
        }
        proof {
            assert(out@ == before + call_text(tool@));
            assert(out@ =~= start + group_text(head));
        }
        i += 1;
    }
    assert(models.take(i as int) =~= models);
}

// ---------- Messages ----------

/// What the transcript says of a message, if anything.
pub open spec fn message_text(message: MessageModel, label: Seq<char>) -> Option<Seq<char>> {
    match message {
        MessageModel::User(body) => Some("## User\n\n"@ + body),
        MessageModel::Assistant { text, metrics } => if text.len() > 0 {
            Some(
                "## Assistant ("@ + label + match metrics {
                    Some(metrics) => " · "@ + metrics,
                    None => Seq::empty(),
                } + ")\n\n"@ + text,
            )
        } else {
            None
        },
        MessageModel::Thinking { id, text, started, duration, open } => match text {
            Some(body) => Some(
                "## Assistant Thinking ("@ + match duration {
                    Some(duration) => clock::shown(duration),
                    None => "in progress"@,
                } + ")\n\n"@ + body,
            ),
            None => None,
        },
        MessageModel::Tools(tools) => Some(group_text(tools)),
        MessageModel::Info(_) => None,
        MessageModel::Error(_) => None,
    }
}

/// The transcript of `messages`: what it says of each, with dividers between them. A message
/// of which it says nothing takes the dividers before it away.
pub open spec fn told_so_far(messages: Seq<MessageModel>, label: Seq<char>) -> Seq<char>
    decreases messages.len(),
{
    if messages.len() == 0 {
        Seq::empty()
    } else {
        let text = told_so_far(messages.drop_last(), label);
        let start = if text.len() > 0 {
            text + divider()
        } else {
            text
        };
        match message_text(messages.last(), label) {
            Some(body) => start + body,
            None => without_suffix(start, divider()),
        }
    }
}

/// The transcript of a conversation, if there is anything to tell.
pub open spec fn transcript_of(ui: UiModel) -> Option<Seq<char>> {
    let text = told_so_far(ui.messages, ui.session_label);
    if text.len() > 0 {
        Some(text)
    } else {
        None
    }
}

/// Appends what the transcript says of a message, and tells whether it says anything.
fn push_message(out: &mut String, message: &Message, label: &str) -> (r: bool)
    ensures
        match message_text(message@, label@) {
            Some(body) => r && final(out)@ == old(out)@ + body,
            None => !r && final(out)@ == old(out)@,
        },
{
    match message {
        Message::User(body) => {
            let mut text = "## User\n\n".to_owned();
            text.append(body.as_str());
            out.append(text.as_str());
            true
        },
        Message::Assistant { text: body, metrics } => {
            if body.as_str().unicode_len() == 0 {
                return false;
            }
            let mut text = "## Assistant (".to_owned();
            text.append(label);
            match metrics {
                Some(metrics) => {
                    let mut more = " · ".to_owned();
                    more.append(metrics.as_str());
                    text.append(more.as_str());
                },
                None => {
                    assert(text@ =~= text@ + Seq::empty());
                },
            }
            text.append(")\n\n");
            text.append(body.as_str());
            out.append(text.as_str());
            true
        },
        Message::Thinking { id, text, started, duration, open } => match text {
            Some(body) => {
                let mut text = "## Assistant Thinking (".to_owned();
                match duration {
                    Some(duration) => {
                        text.append(compact_duration(*duration).as_str());
                    },
                    None => {
                        text.append("in progress");
                    },
                }
                text.append(")\n\n");
                text.append(body.as_str());
                out.append(text.as_str());
                true
            },
            None => false,
        },
        Message::Tools(tools) => {
            push_group(out, tools);
            true
        },
        Message::Info(_) => false,
        Message::Error(_) => false,
    }
}

impl Ui {
    /// The transcript of the conversation, if there is anything to tell.
    pub fn transcript(&self) -> (r: Option<String>)
        ensures
            thinking::optional(r) == transcript_of(self@),
    {
        let ghost models = self@.messages;
        let ghost label = self@.session_label;
        let mut text = String::new();
        let mut i: usize = 0;
        assert(models.take(0) =~= Seq::empty());
        assert(text@ =~= Seq::empty());
        while i < self.messages.len()
            invariant
                i <= self.messages@.len(),
                models == message::message_models(self.messages@),
                label == self.session_label@,
                text@ == told_so_far(models.take(i as int), label),
            decreases self.messages.len() - i,
        {
            proof {
                assert(models.take(i + 1).drop_last() =~= models.take(i as int));
                assert(models.take(i + 1).last() == self.messages@[i as int]@);
            }
            if text.as_str().unicode_len() > 0 {
                text.append("\n\n---\n\n");
            }
            if !push_message(&mut text, &self.messages[i], self.session_label.as_str()) {
                text = strip_suffix(text, "\n\n---\n\n");
            }
            i += 1;
        }
        assert(models.take(i as int) =~= models);
        if text.as_str().unicode_len() > 0 {
            Some(text)
        } else {
            None
        }
    }
}

// ---------- Laws ----------

/// Information and errors leave no trace in a transcript whose text does not itself end in
/// a divider.
pub proof fn notices_leave_no_trace(messages: Seq<MessageModel>, notice: MessageModel, label: Seq<char>)
    requires
        notice is Info || notice is Error,
        without_suffix(told_so_far(messages, label), divider()) == told_so_far(messages, label),
    ensures
        told_so_far(messages.push(notice), label) == told_so_far(messages, label),
{
    let text = told_so_far(messages, label);
    assert(messages.push(notice).drop_last() =~= messages);
    reveal_strlit("\n\n---\n\n");
    if text.len() > 0 {
        let start = text + divider();
        assert(start.skip(start.len() - divider().len()) =~= divider());
        assert(start.take(start.len() - divider().len()) =~= text);
    }
}

/// What a transcript has to say of a call: its label and its arguments, and its output, or the
/// error where it has failed without one.
pub open spec fn call_pieces(tool: ToolModel) -> Seq<Seq<char>> {
    let asked = seq![tool.label, json::json_pretty(tool.args)];
    match (tool.output, tool.state) {
        (Some(output), _) => asked.push(json::json_pretty(output)),
        (None, StateModel::Failed(error, _)) => asked.push(error),
        _ => asked,
    }
}

/// What a transcript has to say of a group of calls.
pub open spec fn group_pieces(tools: Seq<ToolModel>) -> Seq<Seq<char>>
    decreases tools.len(),
{
    if tools.len() == 0 {
        Seq::empty()
    } else {
        group_pieces(tools.drop_last()) + call_pieces(tools.last())
    }
}

/// What a transcript has to say of a message: who speaks and what is said.
pub open spec fn message_pieces(message: MessageModel, label: Seq<char>) -> Seq<Seq<char>> {
    match message {
        MessageModel::User(body) => seq!["## User"@, body],
        MessageModel::Assistant { text, metrics } => if text.len() == 0 {
            Seq::empty()
        } else {
            match metrics {
                Some(metrics) => seq!["## Assistant ("@, label, metrics, text],
                None => seq!["## Assistant ("@, label, text],
            }
        },
        MessageModel::Thinking { id, text, started, duration, open } => match (text, duration) {
            (Some(body), Some(duration)) => seq!["## Assistant Thinking ("@, clock::shown(duration), body],
            (Some(body), None) => seq!["## Assistant Thinking ("@, body],
            (None, _) => Seq::empty(),
        },
        MessageModel::Tools(tools) => group_pieces(tools),
        MessageModel::Info(_) => Seq::empty(),
        MessageModel::Error(_) => Seq::empty(),
    }
}

/// What a transcript has to say of a conversation.
pub open spec fn all_pieces(messages: Seq<MessageModel>, label: Seq<char>) -> Seq<Seq<char>>
    decreases messages.len(),
{
    if messages.len() == 0 {
        Seq::empty()
    } else {
        all_pieces(messages.drop_last(), label) + message_pieces(messages.last(), label)
    }
}

proof fn lemma_call_pieces(tool: ToolModel)
    ensures
        text::holds_in_order(call_text(tool), call_pieces(tool)),
{
    let args = json::json_pretty(tool.args);
    let none = Seq::<Seq<char>>::empty();
    let start = Seq::<char>::empty();
    text::lemma_holds_itself(start);
    text::lemma_holds_next(start, "**Tool: "@, tool.label, none);
    let a = start + "**Tool: "@ + tool.label;
    let lead = "**\n\n**Input:**\n```json\n"@;
    text::lemma_holds_next(a, lead, args, none.push(tool.label));
    let b = a + lead + args;
    let asked = none.push(tool.label).push(args);
    assert(asked =~= seq![tool.label, args]);
    let head = b + "\n```"@;
    text::lemma_holds_before(b, "\n```"@, asked);
    match (tool.output, tool.state) {
        (Some(output), _) => {
            let mark =
                "\n\n**Output (bounded UI projection, not an exact model-request trace):**\n```json\n"@;
            let shown = json::json_pretty(output);
            text::lemma_holds_next(head, mark, shown, asked);
            text::lemma_holds_before(head + mark + shown, "\n```"@, asked.push(shown));
            assert(call_text(tool) =~= head + mark + shown + "\n```"@);
        },
        (None, StateModel::Failed(error, _)) => {
            let mark = "\n\n**Error:**\n```text\n"@;
            text::lemma_holds_next(head, mark, error, asked);
            text::lemma_holds_before(head + mark + error, "\n```"@, asked.push(error));
            assert(call_text(tool) =~= head + mark + error + "\n```"@);
        },
        _ => {
            assert(call_text(tool) =~= head);
        },
    }
}

proof fn lemma_group_pieces(tools: Seq<ToolModel>)
    ensures
        text::holds_in_order(group_text(tools), group_pieces(tools)),
    decreases tools.len(),
{
    if tools.len() == 0 {
        text::lemma_holds_itself(Seq::empty());
    } else {
        let d = tools.drop_last();
        lemma_group_pieces(d);
        lemma_call_pieces(tools.last());
        if tools.len() == 1 {
            assert(d =~= Seq::empty());
            assert(group_pieces(tools) =~= call_pieces(tools.last()));
        } else {
            text::lemma_holds_before(group_text(d), "\n\n"@, group_pieces(d));
            text::lemma_holds_both(
                group_text(d) + "\n\n"@,
                call_text(tools.last()),
                group_pieces(d),
                call_pieces(tools.last()),
            );
        }
    }
}

proof fn lemma_message_pieces(message: MessageModel, label: Seq<char>)
    ensures
        match message_text(message, label) {
            Some(body) => text::holds_in_order(body, message_pieces(message, label)),
            None => message_pieces(message, label).len() == 0,
        },
{
    let none = Seq::<Seq<char>>::empty();
    let start = Seq::<char>::empty();
    text::lemma_holds_itself(start);
    match message {
        MessageModel::User(body) => {
            let head = "## User"@;
            reveal_strlit("## User");
            reveal_strlit("\n\n");
            reveal_strlit("## User\n\n");
            assert("## User\n\n"@ =~= head + "\n\n"@);
            text::lemma_holds_next(start, start, head, none);
            text::lemma_holds_next(start + start + head, "\n\n"@, body, none.push(head));
            assert("## User\n\n"@ + body =~= start + start + head + "\n\n"@ + body);
            assert(none.push(head).push(body) =~= seq![head, body]);
        },
        MessageModel::Assistant { text, metrics } => {
            if text.len() > 0 {
                let head = "## Assistant ("@;
                text::lemma_holds_next(start, start, head, none);
                let a = start + start + head;
                text::lemma_holds_next(a, start, label, none.push(head));
                let b = a + start + label;
                let p = none.push(head).push(label);
                match metrics {
                    Some(metrics) => {
                        text::lemma_holds_next(b, " · "@, metrics, p);
                        let c = b + " · "@ + metrics;
                        text::lemma_holds_next(c, ")\n\n"@, text, p.push(metrics));
                        assert(message_text(message, label)->0 =~= c + ")\n\n"@ + text);
                        assert(p.push(metrics).push(text) =~= seq![head, label, metrics, text]);
                    },
                    None => {
                        text::lemma_holds_next(b, ")\n\n"@, text, p);
                        assert(message_text(message, label)->0 =~= b + ")\n\n"@ + text);
                        assert(p.push(text) =~= seq![head, label, text]);
                    },
                }
            }
        },
        MessageModel::Thinking { id, text, started, duration, open } => {
            if let Some(body) = text {
                let head = "## Assistant Thinking ("@;
                text::lemma_holds_next(start, start, head, none);
                let a = start + start + head;
                let p = none.push(head);
                match duration {
                    Some(duration) => {
                        text::lemma_holds_next(a, start, clock::shown(duration), p);
                        let b = a + start + clock::shown(duration);
                        text::lemma_holds_next(b, ")\n\n"@, body, p.push(clock::shown(duration)));
                        assert(message_text(message, label)->0 =~= b + ")\n\n"@ + body);
                        assert(p.push(clock::shown(duration)).push(body) =~= seq![
                            head,
                            clock::shown(duration),
                            body,
                        ]);
                    },
                    None => {
                        let lead = "in progress"@ + ")\n\n"@;
                        text::lemma_holds_next(a, lead, body, p);
                        assert(message_text(message, label)->0 =~= a + lead + body);
                        assert(p.push(body) =~= seq![head, body]);
                    },
                }
            }
        },
        MessageModel::Tools(tools) => {
            lemma_group_pieces(tools);
        },
        _ => {},
    }
}

/// `s` ends in a divider.
pub open spec fn ends_in_divider(s: Seq<char>) -> bool {
    s.len() >= divider().len() && s.skip(s.len() - divider().len()) == divider()
}

proof fn lemma_divider()
    ensures
        divider().len() == 7,
        !divider().contains('#'),
        !divider().contains('*'),
{
    reveal_strlit("\n\n---\n\n");
}

/// Taking dividers away never reaches a character that no divider holds.
proof fn lemma_strip_stops(a: Seq<char>, s: Seq<char>)
    requires
        a.len() > 0,
        a.last() == '#' || a.last() == '*',
    ensures
        without_suffix(a + s, divider()) == a + without_suffix(s, divider()),
    decreases s.len(),
{
    lemma_divider();
    let whole = a + s;
    let n = divider().len() as int;
    if s.len() >= n {
        assert(whole.skip(whole.len() - n) =~= s.skip(s.len() - n));
        if s.skip(s.len() - n) == divider() {
            assert(whole.take(whole.len() - n) =~= a + s.take(s.len() - n));
            lemma_strip_stops(a, s.take(s.len() - n));
        }
    } else if whole.len() >= n && whole.skip(whole.len() - n) == divider() {
        let at = n - s.len() - 1;
        assert(whole.skip(whole.len() - n)[at] == a.last());
        assert(divider().contains(a.last()));
    }
}

proof fn lemma_strip_end(s: Seq<char>)
    ensures
        without_suffix(s + divider(), divider()) == without_suffix(s, divider()),
        !ends_in_divider(s) ==> without_suffix(s, divider()) == s,
        without_suffix(without_suffix(s, divider()), divider()) == without_suffix(s, divider()),
        exists|rest: Seq<char>| s == #[trigger] (without_suffix(s, divider()) + rest),
    decreases s.len(),
{
    lemma_divider();
    let n = divider().len() as int;
    let whole = s + divider();
    assert(whole.skip(whole.len() - n) =~= divider());
    assert(whole.take(whole.len() - n) =~= s);
    if ends_in_divider(s) {
        let d = s.take(s.len() - n);
        lemma_strip_end(d);
        let rest = choose|rest: Seq<char>| d == #[trigger] (without_suffix(d, divider()) + rest);
        assert(s =~= d + divider());
        assert(s =~= without_suffix(s, divider()) + (rest + divider()));
    } else {
        assert(s =~= without_suffix(s, divider()) + Seq::empty());
    }
}

/// What is told of a message, if anything, starts with a mark that no divider holds.
proof fn lemma_told_starts(message: MessageModel, label: Seq<char>)
    ensures
        message_text(message, label) matches Some(body) ==> body.len() > 0 ==> body[0] == '#'
            || body[0] == '*',
{
    reveal_strlit("## User\n\n");
    reveal_strlit("## Assistant (");
    reveal_strlit("## Assistant Thinking (");
    if let MessageModel::Tools(tools) = message {
        lemma_group_starts(tools);
    }
}

proof fn lemma_group_starts(tools: Seq<ToolModel>)
    ensures
        tools.len() > 0 ==> group_text(tools).len() > 0 && group_text(tools)[0] == '*',
    decreases tools.len(),
{
    reveal_strlit("**Tool: ");
    if tools.len() > 1 {
        lemma_group_starts(tools.drop_last());
    } else if tools.len() == 1 {
        assert(call_text(tools[0])[0] == "**Tool: "@[0]);
    }
}

/// A text that ends in no divider ends in none behind another text either, where it starts with
/// a mark that no divider holds.
proof fn lemma_ends_plainly(x: Seq<char>, body: Seq<char>)
    requires
        body.len() > 0,
        body[0] == '#' || body[0] == '*',
        !ends_in_divider(body),
    ensures
        !ends_in_divider(x + body),
{
    lemma_divider();
    let n = divider().len() as int;
    let whole = x + body;
    if ends_in_divider(whole) {
        if body.len() >= n {
            assert(whole.skip(whole.len() - n) =~= body.skip(body.len() - n));
        } else {
            assert(whole.skip(whole.len() - n)[n - body.len()] == body[0]);
            assert(divider().contains(body[0]));
        }
    }
}

/// The text before what is told of the next message.
pub open spec fn told_before(messages: Seq<MessageModel>, label: Seq<char>) -> Seq<char> {
    let text = told_so_far(messages, label);
    if text.len() > 0 {
        text + divider()
    } else {
        text
    }
}

/// The transcript of a conversation says, in this order, who speaks and all that is said: every
/// prompt, every answer with its model and its account, every reasoning, and of every call its
/// label, its arguments and its output or error. Only what is told last of a message may not
/// itself end in a divider.
pub proof fn transcripts_tell_everything_in_order(messages: Seq<MessageModel>, label: Seq<char>)
    requires
        forall|i: int|
            0 <= i < messages.len() ==> (message_text(#[trigger] messages[i], label) matches Some(
                body,
            ) ==> !ends_in_divider(body)),
    ensures
        text::holds_in_order(told_so_far(messages, label), all_pieces(messages, label)),
{
    lemma_tells_everything(messages, label);
    let text = told_so_far(messages, label);
    lemma_strip_end(text);
    let kept = without_suffix(text, divider());
    let rest = choose|rest: Seq<char>| text == #[trigger] (kept + rest);
    text::lemma_holds_before(kept, rest, all_pieces(messages, label));
}

proof fn lemma_tells_everything(messages: Seq<MessageModel>, label: Seq<char>)
    requires
        forall|i: int|
            0 <= i < messages.len() ==> (message_text(#[trigger] messages[i], label) matches Some(
                body,
            ) ==> !ends_in_divider(body)),
    ensures
        text::holds_in_order(
            without_suffix(told_so_far(messages, label), divider()),
            all_pieces(messages, label),
        ),
    decreases messages.len(),
{
    if messages.len() == 0 {
        text::lemma_holds_itself(without_suffix(told_so_far(messages, label), divider()));
    } else {
        let d = messages.drop_last();
        let last = messages.last();
        assert forall|i: int| 0 <= i < d.len() implies (message_text(
            #[trigger] d[i],
            label,
        ) matches Some(body) ==> !ends_in_divider(body)) by {
            assert(d[i] == messages[i]);
        }
        lemma_tells_everything(d, label);
        lemma_message_pieces(last, label);
        lemma_told_starts(last, label);
        let text = told_so_far(d, label);
        let start = told_before(d, label);
        let pieces = all_pieces(d, label);
        let kept = without_suffix(text, divider());
        lemma_strip_end(text);
        lemma_strip_end(start);
        assert(without_suffix(start, divider()) == kept);
        assert(last == messages[messages.len() - 1]);
        match message_text(last, label) {
            Some(body) => {
                if body.len() == 0 {
                    assert(start + body =~= start);
                    lemma_empty_pieces(last, label);
                    assert(pieces + message_pieces(last, label) =~= pieces);
                } else {
                    lemma_ends_plainly(start, body);
                    lemma_strip_end(start + body);
                    let rest = choose|rest: Seq<char>| start == #[trigger] (kept + rest);
                    text::lemma_holds_before(kept, rest, pieces);
                    text::lemma_holds_both(start, body, pieces, message_pieces(last, label));
                }
            },
            None => {
                assert(pieces + message_pieces(last, label) =~= pieces);
            },
        }
    }
}

/// Nothing is to be said of a message of which an empty text is told.
proof fn lemma_empty_pieces(message: MessageModel, label: Seq<char>)
    requires
        message_text(message, label) is Some,
        message_text(message, label)->0.len() == 0,
    ensures
        message_pieces(message, label).len() == 0,
{
    reveal_strlit("## User\n\n");
    reveal_strlit("## Assistant (");
    reveal_strlit("## Assistant Thinking (");
    match message {
        MessageModel::User(body) => {
            assert(("## User\n\n"@ + body).len() > 0);
        },
        MessageModel::Assistant { text, metrics } => {
            assert(message_text(message, label)->0.len() >= "## Assistant ("@.len());
        },
        MessageModel::Thinking { id, text, started, duration, open } => {
            if text is Some {
                assert(message_text(message, label)->0.len() >= "## Assistant Thinking ("@.len());
            }
        },
        MessageModel::Tools(tools) => {
            lemma_group_starts(tools);
        },
        _ => {},
    }
}

// ---------- What a message adds ----------

/// What stands in a transcript behind what is told of a message, when `later` are the messages
/// after it.
spec fn told_after(later: Seq<MessageModel>, label: Seq<char>) -> Seq<char>
    decreases later.len(),
{
    if later.len() == 0 {
        Seq::empty()
    } else {
        let start = told_after(later.drop_last(), label) + divider();
        match message_text(later.last(), label) {
            Some(body) => start + body,
            None => without_suffix(start, divider()),
        }
    }
}

/// `s` is nothing but dividers.
spec fn all_dividers(s: Seq<char>) -> bool
    decreases s.len(),
{
    s.len() == 0 || (s.len() >= 7 && ends_in_divider(s) && all_dividers(s.take(s.len() - 7)))
}

/// `s` holds a mark that no divider holds.
spec fn has_mark(s: Seq<char>) -> bool {
    s.contains('#') || s.contains('*')
}

/// Taking away dividers behind a text that ends in none takes away nothing of it.
proof fn lemma_strip_behind(a: Seq<char>, s: Seq<char>)
    requires
        !ends_in_divider(a),
        all_dividers(s) || has_mark(s),
    ensures
        without_suffix(a + s, divider()) == a + without_suffix(s, divider()),
        all_dividers(without_suffix(s, divider())) || has_mark(without_suffix(s, divider())),
    decreases s.len(),
{
    lemma_divider();
    if has_mark(s) {
        let at = if s.contains('#') {
            choose|at: int| 0 <= at < s.len() && s[at] == '#'
        } else {
            choose|at: int| 0 <= at < s.len() && s[at] == '*'
        };
        let head = s.take(at + 1);
        let tail = s.skip(at + 1);
        assert(head + tail =~= s);
        assert(a + s =~= (a + head) + tail);
        lemma_strip_stops(head, tail);
        lemma_strip_stops(a + head, tail);
        let kept = without_suffix(tail, divider());
        assert((a + head) + kept =~= a + (head + kept));
        assert((head + kept)[at] == s[at]);
    } else if s.len() == 0 {
        assert(a + s =~= a);
        lemma_strip_end(a);
        assert(a + without_suffix(s, divider()) =~= a);
    } else {
        let d = s.take(s.len() - 7);
        assert(s =~= d + divider());
        assert(a + s =~= (a + d) + divider());
        lemma_strip_end(a + d);
        lemma_strip_end(d);
        lemma_strip_behind(a, d);
    }
}

proof fn lemma_told_after(later: Seq<MessageModel>, label: Seq<char>)
    ensures
        all_dividers(told_after(later, label)) || has_mark(told_after(later, label)),
    decreases later.len(),
{
    if later.len() > 0 {
        lemma_divider();
        let d = later.drop_last();
        lemma_told_after(d, label);
        let before = told_after(d, label);
        let start = before + divider();
        lemma_more_dividers(before);
        lemma_told_starts(later.last(), label);
        match message_text(later.last(), label) {
            Some(body) => {
                if body.len() == 0 {
                    assert(start + body =~= start);
                } else {
                    assert((start + body)[start.len() as int] == body[0]);
                }
            },
            None => {
                let a = Seq::<char>::empty();
                lemma_strip_behind(a, start);
            },
        }
    }
}

proof fn lemma_more_dividers(s: Seq<char>)
    requires
        all_dividers(s) || has_mark(s),
    ensures
        all_dividers(s + divider()) || has_mark(s + divider()),
{
    lemma_divider();
    let whole = s + divider();
    if has_mark(s) {
        let at = if s.contains('#') {
            choose|at: int| 0 <= at < s.len() && s[at] == '#'
        } else {
            choose|at: int| 0 <= at < s.len() && s[at] == '*'
        };
        assert(whole[at] == s[at]);
    } else {
        assert(whole.take(whole.len() - 7) =~= s);
        assert(whole.skip(whole.len() - 7) =~= divider());
    }
}

/// What is told of a message stands in the transcript between what is told before it and what
/// is told after it.
proof fn lemma_told_between(messages: Seq<MessageModel>, m: int, label: Seq<char>)
    requires
        0 <= m < messages.len(),
        message_text(messages[m], label) is Some,
        message_text(messages[m], label)->0.len() > 0,
        !ends_in_divider(message_text(messages[m], label)->0),
    ensures
        told_so_far(messages, label) == told_before(messages.take(m), label) + message_text(
            messages[m],
            label,
        )->0 + told_after(messages.skip(m + 1), label),
    decreases messages.len(),
{
    let body = message_text(messages[m], label)->0;
    let x = told_before(messages.take(m), label);
    let d = messages.drop_last();
    lemma_told_starts(messages[m], label);
    if m == d.len() {
        assert(messages.take(m) =~= d);
        assert(messages.skip(m + 1) =~= Seq::empty());
        assert(x + body + told_after(Seq::empty(), label) =~= x + body);
    } else {
        lemma_told_between(d, m, label);
        let later = messages.skip(m + 1);
        assert(d.take(m) =~= messages.take(m));
        assert(d.skip(m + 1) =~= later.drop_last());
        assert(later.last() == messages.last());
        let before = told_after(later.drop_last(), label);
        let start = before + divider();
        let text = told_so_far(d, label);
        assert(text.len() >= body.len());
        assert(text + divider() =~= (x + body) + start);
        match message_text(messages.last(), label) {
            Some(next) => {
                assert((x + body) + start + next =~= x + body + (start + next));
            },
            None => {
                lemma_ends_plainly(x, body);
                lemma_told_after(later.drop_last(), label);
                lemma_more_dividers(before);
                lemma_strip_behind(x + body, start);
            },
        }
    }
}

/// Conversations that differ only in what is told of one message have different transcripts.
proof fn lemma_told_apart(a: Seq<MessageModel>, b: Seq<MessageModel>, m: int, label: Seq<char>)
    requires
        0 <= m < a.len(),
        a.len() == b.len(),
        a.take(m) == b.take(m),
        a.skip(m + 1) == b.skip(m + 1),
        message_text(a[m], label) is Some,
        message_text(a[m], label)->0.len() > 0,
        !ends_in_divider(message_text(a[m], label)->0),
        message_text(b[m], label) is Some,
        message_text(b[m], label)->0.len() > 0,
        !ends_in_divider(message_text(b[m], label)->0),
        message_text(a[m], label) != message_text(b[m], label),
    ensures
        told_so_far(a, label) != told_so_far(b, label),
{
    lemma_told_between(a, m, label);
    lemma_told_between(b, m, label);
    lemma_middles_differ(
        told_before(a.take(m), label),
        message_text(a[m], label)->0,
        message_text(b[m], label)->0,
        told_after(a.skip(m + 1), label),
    );
}

/// Texts with the same start and the same end are the same only where their middles are.
proof fn lemma_middles_differ(x: Seq<char>, p: Seq<char>, q: Seq<char>, y: Seq<char>)
    requires
        p != q,
    ensures
        x + p + y != x + q + y,
{
    if x + p + y == x + q + y {
        assert((x + p + y).len() == x.len() + p.len() + y.len());
        assert((x + q + y).len() == x.len() + q.len() + y.len());
        assert((x + p + y).subrange(x.len() as int, (x.len() + p.len()) as int) =~= p);
        assert((x + q + y).subrange(x.len() as int, (x.len() + p.len()) as int) =~= q);
    }
}

/// The text of a group of calls is that of the calls before one, that of the call, and that of
/// those after it.
proof fn lemma_group_between(tools: Seq<ToolModel>, other: Seq<ToolModel>, k: int)
    requires
        0 <= k < tools.len(),
        tools.len() == other.len(),
        forall|i: int| 0 <= i < tools.len() && i != k ==> tools[i] == #[trigger] other[i],
    ensures
        exists|x: Seq<char>, y: Seq<char>|
            group_text(tools) == #[trigger] (x + call_text(tools[k]) + y) && group_text(other) == (x
                + call_text(other[k]) + y),
    decreases tools.len(),
{
    let d = tools.drop_last();
    let e = other.drop_last();
    let none = Seq::<char>::empty();
    if tools.len() == 1 {
        assert(group_text(tools) =~= none + call_text(tools[k]) + none);
        assert(group_text(other) =~= none + call_text(other[k]) + none);
    } else if k == d.len() {
        assert(d =~= e);
        let x = group_text(d) + "\n\n"@;
        assert(group_text(tools) =~= x + call_text(tools[k]) + none);
        assert(group_text(other) =~= x + call_text(other[k]) + none);
    } else {
        assert forall|i: int| 0 <= i < d.len() && i != k implies d[i] == #[trigger] e[i] by {
            assert(tools[i] == other[i]);
        }
        lemma_group_between(d, e, k);
        let (x, y) = choose|x: Seq<char>, y: Seq<char>|
            group_text(d) == #[trigger] (x + call_text(d[k]) + y) && group_text(e) == (x
                + call_text(e[k]) + y);
        assert(tools[tools.len() - 1] == other[tools.len() - 1]);
        let z = y + "\n\n"@ + call_text(tools.last());
        assert(group_text(tools) =~= x + call_text(tools[k]) + z);
        assert(group_text(other) =~= x + call_text(other[k]) + z);
    }
}

/// What is told of calls ends in a fence.
proof fn lemma_group_ends(tools: Seq<ToolModel>)
    ensures
        tools.len() > 0 ==> group_text(tools).len() > 0 && group_text(tools).last() == '`',
{
    reveal_strlit("\n```");
    if tools.len() > 0 {
        let call = call_text(tools.last());
        assert(call.len() > 0 && call.last() == '`');
        assert(group_text(tools).last() == call.last());
    }
}

/// Conversations that differ only in one call have different transcripts, where the call has
/// another label or other arguments, or renders another output, or fails with another error
/// without an output.
pub proof fn transcripts_tell_calls_apart(
    messages: Seq<MessageModel>,
    place: (int, int),
    a: ToolModel,
    b: ToolModel,
    label: Seq<char>,
)
    requires
        ui::holds_call(messages, place),
        ({
            ||| a.label != b.label && json::json_pretty(a.args) == json::json_pretty(b.args) && a.output
                == b.output && a.state == b.state
            ||| a.label == b.label && json::json_pretty(a.args) != json::json_pretty(b.args) && a.output
                == b.output && a.state == b.state
            ||| a.label == b.label && json::json_pretty(a.args) == json::json_pretty(b.args)
                && a.output is Some && b.output is Some && json::json_pretty(a.output->0) != json::json_pretty(
                b.output->0,
            )
            ||| a.label == b.label && json::json_pretty(a.args) == json::json_pretty(b.args)
                && a.output is None && b.output is None && a.state is Failed && b.state is Failed
                && a.state->Failed_0 != b.state->Failed_0
        }),
    ensures
        told_so_far(ui::with_call(messages, place, a), label) != told_so_far(
            ui::with_call(messages, place, b),
            label,
        ),
{
    let (m, k) = place;
    let x = ui::with_call(messages, place, a);
    let y = ui::with_call(messages, place, b);
    let tools = x[m]->Tools_0;
    let other = y[m]->Tools_0;
    assert(x.take(m) =~= y.take(m));
    assert(x.skip(m + 1) =~= y.skip(m + 1));
    lemma_calls_apart(a, b);
    lemma_group_between(tools, other, k);
    let (head, tail) = choose|head: Seq<char>, tail: Seq<char>|
        group_text(tools) == #[trigger] (head + call_text(tools[k]) + tail) && group_text(other)
            == (head + call_text(other[k]) + tail);
    lemma_middles_differ(head, call_text(a), call_text(b), tail);
    lemma_group_ends(tools);
    lemma_group_ends(other);
    lemma_fence_is_no_divider(group_text(tools));
    lemma_fence_is_no_divider(group_text(other));
    lemma_told_apart(x, y, m, label);
}

proof fn lemma_fence_is_no_divider(s: Seq<char>)
    requires
        s.len() > 0,
        s.last() == '`',
    ensures
        !ends_in_divider(s),
{
    reveal_strlit("\n\n---\n\n");
    if ends_in_divider(s) {
        assert(s.skip(s.len() - 7)[6] == s.last());
    }
}

proof fn lemma_calls_apart(a: ToolModel, b: ToolModel)
    requires
        ({
            ||| a.label != b.label && json::json_pretty(a.args) == json::json_pretty(b.args) && a.output
                == b.output && a.state == b.state
            ||| a.label == b.label && json::json_pretty(a.args) != json::json_pretty(b.args) && a.output
                == b.output && a.state == b.state
            ||| a.label == b.label && json::json_pretty(a.args) == json::json_pretty(b.args)
                && a.output is Some && b.output is Some && json::json_pretty(a.output->0) != json::json_pretty(
                b.output->0,
            )
            ||| a.label == b.label && json::json_pretty(a.args) == json::json_pretty(b.args)
                && a.output is None && b.output is None && a.state is Failed && b.state is Failed
                && a.state->Failed_0 != b.state->Failed_0
        }),
    ensures
        call_text(a) != call_text(b),
{
    let lead = "**\n\n**Input:**\n```json\n"@;
    let fence = "\n```"@;
    let x = "**Tool: "@ + a.label + lead;
    let args = json::json_pretty(a.args);
    let mark =
        "\n\n**Output (bounded UI projection, not an exact model-request trace):**\n```json\n"@;
    let failed = "\n\n**Error:**\n```text\n"@;
    let end = match a.output {
        Some(output) => mark + json::json_pretty(output) + fence,
        None => match a.state {
            StateModel::Failed(error, _) => failed + error + fence,
            _ => Seq::empty(),
        },
    };
    if a.label != b.label {
        let rest = lead + args + fence + end;
        assert(call_text(a) =~= "**Tool: "@ + a.label + rest);
        assert(call_text(b) =~= "**Tool: "@ + b.label + rest);
        lemma_middles_differ("**Tool: "@, a.label, b.label, rest);
    } else if args != json::json_pretty(b.args) {
        assert(call_text(a) =~= x + args + (fence + end));
        assert(call_text(b) =~= x + json::json_pretty(b.args) + (fence + end));
        lemma_middles_differ(x, args, json::json_pretty(b.args), fence + end);
    } else if a.output is Some {
        let y = x + args + fence + mark;
        assert(call_text(a) =~= y + json::json_pretty(a.output->0) + fence);
        assert(call_text(b) =~= y + json::json_pretty(b.output->0) + fence);
        lemma_middles_differ(y, json::json_pretty(a.output->0), json::json_pretty(b.output->0), fence);
    } else {
        let y = x + args + fence + failed;
        assert(call_text(a) =~= y + a.state->Failed_0 + fence);
        assert(call_text(b) =~= y + b.state->Failed_0 + fence);
        lemma_middles_differ(y, a.state->Failed_0, b.state->Failed_0, fence);
    }
}

/// A call with an output is told with its output behind its arguments, whatever else the
/// conversation holds.
pub proof fn transcripts_tell_outputs_behind_arguments(
    messages: Seq<MessageModel>,
    place: (int, int),
    label: Seq<char>,
)
    requires
        ui::holds_call(messages, place),
        ui::call_in(messages, place).output is Some,
    ensures
        text::holds_in_order(
            told_so_far(messages, label),
            seq![
                ui::call_in(messages, place).label,
                json::json_pretty(ui::call_in(messages, place).args),
                json::json_pretty(ui::call_in(messages, place).output->0),
            ],
        ),
{
    let (m, k) = place;
    let tools = messages[m]->Tools_0;
    let tool = tools[k];
    lemma_group_between(tools, tools, k);
    let (x, y) = choose|x: Seq<char>, y: Seq<char>|
        group_text(tools) == #[trigger] (x + call_text(tools[k]) + y) && group_text(tools) == (x
            + call_text(tools[k]) + y);
    lemma_call_pieces(tool);
    let pieces = call_pieces(tool);
    text::lemma_holds_behind(x, call_text(tool), pieces);
    text::lemma_holds_before(x + call_text(tool), y, pieces);
    lemma_group_ends(tools);
    lemma_fence_is_no_divider(group_text(tools));
    lemma_told_between(messages, m, label);
    let before = told_before(messages.take(m), label);
    text::lemma_holds_behind(before, group_text(tools), pieces);
    text::lemma_holds_before(
        before + group_text(tools),
        told_after(messages.skip(m + 1), label),
        pieces,
    );
    assert(pieces =~= seq![tool.label, json::json_pretty(tool.args), json::json_pretty(tool.output->0)]);
}

proof fn lemma_piece_is_told(messages: Seq<MessageModel>, label: Seq<char>, m: int, p: int) -> (a: int)
    requires
        0 <= m < messages.len(),
        0 <= p < message_pieces(messages[m], label).len(),
    ensures
        0 <= a < all_pieces(messages, label).len(),
        all_pieces(messages, label)[a] == message_pieces(messages[m], label)[p],
    decreases messages.len(),
{
    if m < messages.len() - 1 {
        lemma_piece_is_told(messages.drop_last(), label, m, p)
    } else {
        all_pieces(messages.drop_last(), label).len() + p
    }
}

/// What the user or the assistant has said is in what is exported, so that a conversation in
/// which anything was said has a transcript.
pub proof fn what_is_said_is_exported(ui: UiModel, m: int)
    requires
        0 <= m < ui.messages.len(),
        ui.messages[m] is User || (ui.messages[m] is Assistant
            && ui.messages[m]->Assistant_text.len() > 0),
        forall|i: int|
            0 <= i < ui.messages.len() ==> (message_text(
                #[trigger] ui.messages[i],
                ui.session_label,
            ) matches Some(body) ==> !ends_in_divider(body)),
    ensures
        transcript_of(ui) matches Some(text) && text::holds_in_order(
            text,
            seq![
                match ui.messages[m] {
                    MessageModel::User(said) => said,
                    MessageModel::Assistant { text, metrics } => text,
                    _ => Seq::empty(),
                },
            ],
        ),
{
    let label = ui.session_label;
    let pieces = message_pieces(ui.messages[m], label);
    let all = all_pieces(ui.messages, label);
    let text = told_so_far(ui.messages, label);
    transcripts_tell_everything_in_order(ui.messages, label);
    let last = lemma_piece_is_told(ui.messages, label, m, pieces.len() - 1);
    text::lemma_holds_one(text, all, last);
    let first = lemma_piece_is_told(ui.messages, label, m, 0);
    text::lemma_holds_one(text, all, first);
    reveal_strlit("## User");
    reveal_strlit("## Assistant (");
    let one = seq![all[first]];
    let i = choose|i: int| #[trigger] text::stands_at(text, one[0], i);
    assert(text.len() >= all[first].len());
}

/// Where nothing was said that is told, there is no transcript.
pub proof fn nothing_said_is_nothing_exported(ui: UiModel)
    requires
        forall|i: int|
            0 <= i < ui.messages.len() ==> (#[trigger] ui.messages[i]) is Info
                || ui.messages[i] is Error,
    ensures
        transcript_of(ui) is None,
{
    lemma_nothing_told(ui.messages, ui.session_label);
}

proof fn lemma_nothing_told(messages: Seq<MessageModel>, label: Seq<char>)
    requires
        forall|i: int|
            0 <= i < messages.len() ==> (#[trigger] messages[i]) is Info || messages[i] is Error,
    ensures
        told_so_far(messages, label).len() == 0,
    decreases messages.len(),
{
    if messages.len() > 0 {
        let d = messages.drop_last();
        assert forall|i: int| 0 <= i < d.len() implies (#[trigger] d[i]) is Info
            || d[i] is Error by {
            assert(messages[i] is Info || messages[i] is Error);
        }
        lemma_nothing_told(d, label);
        assert(messages[messages.len() - 1] is Info || messages[messages.len() - 1] is Error);
    }
}

} // verus!
