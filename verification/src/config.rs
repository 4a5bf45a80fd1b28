//! Settings: from the environment and from the file of an agent.
use vstd::prelude::*;
use vstd::string::*;
use crate::json;
use crate::json::{object, Json, JsonView};
use crate::text;
use crate::text::{blank, push_decimal, same_text, slice_text, to_chars, trimmed, trimmed_range};
use crate::thinking;

verus! {

/// Where models are asked for answers, unless another place is set.
pub const DEFAULT_BASE_URL: &'static str = "https://openrouter.ai/api/v1";

/// The model that is asked, unless another is set.
pub const DEFAULT_MODEL: &'static str = "openrouter/free";

/// The file that names the MCP servers, unless another is set.
pub const DEFAULT_MCP_CONFIG: &'static str = "mcp.json";

// ---------- Values ----------

/// A variable of the environment.
#[derive(Debug)]
pub enum EnvValue {
    Missing,
    Text(String),
    /// Its value is no Unicode text, with the error.
    Unreadable(String),
}

/// What an `EnvValue` holds.
pub enum EnvModel {
    Missing,
    Text(Seq<char>),
    Unreadable(Seq<char>),
}

impl View for EnvValue {
    type V = EnvModel;

    open spec fn view(&self) -> EnvModel {
        match self {
            EnvValue::Missing => EnvModel::Missing,
            EnvValue::Text(text) => EnvModel::Text(text@),
            EnvValue::Unreadable(error) => EnvModel::Unreadable(error@),
        }
    }
}

/// What a result of text holds.
pub open spec fn text_result(r: Result<String, String>) -> Result<Seq<char>, Seq<char>> {
    match r {
        Ok(text) => Ok(text@),
        Err(error) => Err(error@),
    }
}

/// What a result of optional text holds.
pub open spec fn optional_result(r: Result<Option<String>, String>) -> Result<
    Option<Seq<char>>,
    Seq<char>,
> {
    match r {
        Ok(text) => Ok(thinking::optional(text)),
        Err(error) => Err(error@),
    }
}

/// The value of a variable, if it is set. One that cannot be read is an error.
pub open spec fn env_text(name: Seq<char>, value: EnvModel) -> Result<Option<Seq<char>>, Seq<char>> {
    match value {
        EnvModel::Missing => Ok(None),
        EnvModel::Text(text) => Ok(Some(text)),
        EnvModel::Unreadable(error) => Err("failed to read "@ + name + ": "@ + error),
    }
}

/// The value of a variable, if it is set.
pub fn env_value(name: &str, value: &EnvValue) -> (r: Result<Option<String>, String>)
    ensures
        optional_result(r) == env_text(name@, value@),
{
    match value {
        EnvValue::Missing => Ok(None),
        EnvValue::Text(text) => Ok(Some(text.clone())),
        EnvValue::Unreadable(cause) => {
            let mut error = "failed to read ".to_owned();
            error.append(name);
            error.append(": ");
            error.append(cause.as_str());
            Err(error)
        },
    }
}

/// `value`, unless it is blank.
pub open spec fn not_blank(name: Seq<char>, value: Seq<char>) -> Result<Seq<char>, Seq<char>> {
    if text::is_blank(value) {
        Err(name + " must not be empty"@)
    } else {
        Ok(value)
    }
}

/// `value`, unless it is blank.
pub fn nonempty(name: &str, value: String) -> (r: Result<String, String>)
    ensures
        text_result(r) == not_blank(name@, value@),
{
    if blank(value.as_str()) {
        let mut error = name.to_owned();
        error.append(" must not be empty");
        return Err(error);
    }
    Ok(value)
}

/// The value of a variable, or `default` where it is not set; blank it may not be.
pub open spec fn env_default(name: Seq<char>, value: EnvModel, default: Seq<char>) -> Result<
    Seq<char>,
    Seq<char>,
> {
    match env_text(name, value) {
        Err(error) => Err(error),
        Ok(Some(text)) => not_blank(name, text),
        Ok(None) => not_blank(name, default),
    }
}

/// The value of a variable, or `default` where it is not set; blank it may not be.
pub fn env_or(name: &str, value: &EnvValue, default: &str) -> (r: Result<String, String>)
    ensures
        text_result(r) == env_default(name@, value@, default@),
{
    match env_value(name, value) {
        Err(error) => Err(error),
        Ok(Some(text)) => nonempty(name, text),
        Ok(None) => nonempty(name, default.to_owned()),
    }
}

// ---------- Numbers ----------

/// The number that `digits` are, if they are digits and at least one.
pub open spec fn digits_value(digits: Seq<char>) -> Option<nat>
    decreases digits.len(),
{
    if digits.len() == 0 {
        None
    } else {
        let last = digits.last();
        if '0' <= last <= '9' {
            let d = (last as u32 - '0' as u32) as nat;
            if digits.len() == 1 {
                Some(d)
            } else {
                match digits_value(digits.drop_last()) {
                    Some(n) => Some(10 * n + d),
                    None => None,
                }
            }
        } else {
            None
        }
    }
}

/// The number that `s` is: digits, behind a plus sign or not, within 64 bits.
pub open spec fn number(s: Seq<char>) -> Option<u64> {
    let digits = if s.len() > 0 && s[0] == '+' {
        s.skip(1)
    } else {
        s
    };
    match digits_value(digits) {
        Some(n) => if n <= u64::MAX {
            Some(n as u64)
        } else {
            None
        },
        None => None,
    }
}

proof fn lemma_digits_grow(digits: Seq<char>, n: int)
    requires
        0 < n <= digits.len(),
        digits_value(digits) is Some,
    ensures
        digits_value(digits.take(n)) is Some,
        digits_value(digits.take(n))->0 <= digits_value(digits)->0,
    decreases digits.len(),
{
    if n == digits.len() {
        assert(digits.take(n) =~= digits);
    } else {
        assert(digits.drop_last().take(n) =~= digits.take(n));
        lemma_digits_grow(digits.drop_last(), n);
    }
}

/// The number that `s` is: digits, behind a plus sign or not, within 64 bits.
pub fn parse_u64(s: &str) -> (r: Option<u64>)
    ensures
        r == number(s@),
{
    let chars = to_chars(s);
    let start: usize = if chars.len() > 0 && chars[0] == '+' {
        1
    } else {
        0
    };
    let ghost digits = s@.skip(start as int);
    assert(start == 0 ==> digits =~= s@);
    if start == chars.len() {
        assert(digits.len() == 0);
        return None;
    }
    let mut value: u64 = 0;
    let mut i: usize = start;
    while i < chars.len()
        invariant
            chars@ == s@,
            start <= i <= chars@.len(),
            start < chars@.len(),
            start <= 1,
            digits == s@.skip(start as int),
            number(s@) == (match digits_value(digits) {
                Some(n) => if n <= u64::MAX {
                    Some(n as u64)
                } else {
                    None
                },
                None => None,
            }),
            i == start ==> value == 0,
            i > start ==> digits_value(digits.take(i - start)) == Some(value as nat),
        decreases chars.len() - i,
    {
        let c = chars[i];
        let ghost head = digits.take(i + 1 - start);
        proof {
            assert(head.drop_last() =~= digits.take(i - start));
            assert(head.last() == c);
            if digits_value(digits) is Some {
                lemma_digits_grow(digits, i + 1 - start);
            }
        }
        if !('0' <= c && c <= '9') {
            return None;
        }
        let d: u64 = (c as u32 - '0' as u32) as u64;
        match value.checked_mul(10) {
            Some(tens) => match tens.checked_add(d) {
                Some(sum) => {
                    value = sum;
                },
                None => {
                    return None;
                },
            },
            None => {
                return None;
            },
        }
        i += 1;
    }
    assert(digits.take(i - start) =~= digits);
    Some(value)
}

/// The error of `u64`'s `from_str` on a text, which is nothing where it reads a number.
pub uninterp spec fn number_fault(text: Seq<char>) -> Seq<char>;

/// What `u64`'s `from_str` says is wrong with `text`, named; nothing where it reads a number.
#[verifier::external_body]
fn number_error(text: &str) -> (r: String)
    ensures
        r@ == number_fault(text@),
{
    text.parse::<u64>().map_or_else(|error| error.to_string(), |_| String::new())
}

/// `value`, unless it is zero.
pub open spec fn not_zero(name: Seq<char>, value: u64) -> Result<u64, Seq<char>> {
    if value == 0 {
        Err(name + " must be greater than zero"@)
    } else {
        Ok(value)
    }
}

/// What a result of a number holds.
pub open spec fn number_result(r: Result<u64, String>) -> Result<u64, Seq<char>> {
    match r {
        Ok(value) => Ok(value),
        Err(error) => Err(error@),
    }
}

/// What a result of an optional number holds.
pub open spec fn optional_number_result(r: Result<Option<u64>, String>) -> Result<
    Option<u64>,
    Seq<char>,
> {
    match r {
        Ok(value) => Ok(value),
        Err(error) => Err(error@),
    }
}

/// `value`, unless it is zero.
pub fn positive_u64(name: &str, value: u64) -> (r: Result<u64, String>)
    ensures
        number_result(r) == not_zero(name@, value),
{
    if value == 0 {
        let mut error = name.to_owned();
        error.append(" must be greater than zero");
        return Err(error);
    }
    Ok(value)
}

/// The number that a variable is set to, if it is set; a positive one it has to be.
pub open spec fn env_number(name: Seq<char>, value: EnvModel) -> Result<Option<u64>, Seq<char>> {
    match env_text(name, value) {
        Err(error) => Err(error),
        Ok(None) => Ok(None),
        Ok(Some(text)) => match number(text::trim(text)) {
            None => Err(name + " must be a positive integer: "@ + number_fault(text::trim(text))),
            Some(n) => match not_zero(name, n) {
                Ok(n) => Ok(Some(n)),
                Err(error) => Err(error),
            },
        },
    }
}

/// The number that a variable is set to, if it is set; a positive one it has to be.
pub fn env_u64(name: &str, value: &EnvValue) -> (r: Result<Option<u64>, String>)
    ensures
        optional_number_result(r) == env_number(name@, value@),
{
    match env_value(name, value) {
        Err(error) => Err(error),
        Ok(None) => Ok(None),
        Ok(Some(text)) => {
            let numeral = trimmed(text.as_str());
            match parse_u64(numeral.as_str()) {
                None => {
                    let mut error = name.to_owned();
                    error.append(" must be a positive integer: ");
                    error.append(number_error(numeral.as_str()).as_str());
                    Err(error)
                },
                Some(n) => match positive_u64(name, n) {
                    Ok(n) => Ok(Some(n)),
                    Err(error) => Err(error),
                },
            }
        },
    }
}

// ---------- Expansion ----------

/// What a text is made of for the shell: text that stands for itself, and variables, some of
/// them with a default.
pub enum Piece {
    Literal(Seq<char>),
    Variable { default: Option<Seq<char>> },
}

/// `c` may stand in the name of a variable.
pub open spec fn is_name_char(c: char) -> bool {
    text::is_ascii_alnum(c) || c == '_'
}

/// How many characters at the start of `s` may stand in the name of a variable.
pub open spec fn name_len(s: Seq<char>) -> nat
    decreases s.len(),
{
    if s.len() > 0 && is_name_char(s[0]) {
        1 + name_len(s.drop_first())
    } else {
        0
    }
}

/// Where a colon and a hyphen first stand in `s`; its length where they do not.
pub open spec fn default_mark(s: Seq<char>) -> nat
    decreases s.len(),
{
    if s.len() < 2 {
        s.len()
    } else if s[0] == ':' && s[1] == '-' {
        0
    } else {
        1 + default_mark(s.drop_first())
    }
}

/// The default of a variable in braces: what follows the first colon and hyphen, where there
/// is a name before them.
pub open spec fn default_in(braced: Seq<char>) -> Option<Seq<char>> {
    let mark = default_mark(braced);
    if 0 < mark && mark + 2 <= braced.len() {
        Some(braced.skip(mark as int + 2))
    } else {
        None
    }
}

/// The piece at the start of `s`, which is not empty, and its length: two dollar signs are one,
/// a variable is named behind a dollar sign or in braces behind it, and any other dollar sign
/// stands for itself. `None` where that rests on whether a character beyond ASCII is a letter
/// or a digit.
pub open spec fn first_piece(s: Seq<char>) -> Option<(Piece, nat)> {
    let close = text::first_index(s, '}');
    let name = name_len(s.skip(1));
    if s[0] != '$' || s.len() == 1 {
        Some((Piece::Literal(s.take(1)), 1))
    } else if s[1] == '$' {
        Some((Piece::Literal(s.take(1)), 2))
    } else if s[1] == '{' {
        if close < s.len() {
            Some((Piece::Variable { default: default_in(s.subrange(2, close as int)) }, close + 1))
        } else {
            Some((Piece::Literal(s.take(2)), 2))
        }
    } else if 1 + name < s.len() && s[1 + name as int] >= '\u{80}' {
        None
    } else if name == 0 {
        Some((Piece::Literal(s.take(1)), 1))
    } else {
        Some((Piece::Variable { default: None }, 1 + name))
    }
}

/// The pieces of `s`, as far as they are known.
pub open spec fn shell_pieces(s: Seq<char>) -> Option<Seq<Piece>>
    decreases s.len(),
{
    if s.len() == 0 {
        Some(Seq::empty())
    } else {
        match first_piece(s) {
            Some((piece, n)) => if 0 < n <= s.len() {
                match shell_pieces(s.skip(n as int)) {
                    Some(rest) => Some(seq![piece] + rest),
                    None => None,
                }
            } else {
                None
            },
            None => None,
        }
    }
}

/// The text of the pieces, with `values` for the variables at their positions.
pub open spec fn filled(pieces: Seq<Piece>, values: Seq<Seq<char>>) -> Seq<char>
    decreases pieces.len(),
{
    if pieces.len() == 0 {
        Seq::empty()
    } else {
        (match pieces[0] {
            Piece::Literal(text) => text,
            Piece::Variable { default } => values[0],
        }) + filled(pieces.drop_first(), values.drop_first())
    }
}

/// `s` starts with the sign for the home directory.
pub open spec fn starts_at_home(s: Seq<char>) -> bool {
    s.len() > 0 && s[0] == '~' && (s.len() == 1 || s[1] == '/' || s[1] == '\\')
}

/// `text` is `s`, or `s` with some directory for the sign at its start, where `value` has a
/// tilde there.
pub open spec fn is_homed(value: Seq<char>, s: Seq<char>, text: Seq<char>) -> bool {
    text == s || (value.len() > 0 && value[0] == '~' && starts_at_home(s) && text.len() + 1
        >= s.len() && text.skip(text.len() + 1 - s.len()) == s.skip(1))
}

/// `result` may come of expanding `value`: a text that is made of the pieces of `value`, with
/// some values for its variables and some directory for the home directory. An error comes
/// only of a variable without a default.
pub open spec fn may_expand_to(value: Seq<char>, result: Result<Seq<char>, Seq<char>>) -> bool {
    match shell_pieces(value) {
        Some(parts) => match result {
            Ok(text) => exists|values: Seq<Seq<char>>|
                values.len() == parts.len() && is_homed(
                    value,
                    #[trigger] filled(parts, values),
                    text,
                ),
            Err(_) => exists|i: int|
                0 <= i < parts.len() && #[trigger] parts[i] == (Piece::Variable { default: None }),
        },
        None => true,
    }
}

/// One text that may come of expanding `value`.
pub open spec fn one_expansion(value: Seq<char>) -> Seq<char> {
    match shell_pieces(value) {
        Some(parts) => filled(parts, Seq::new(parts.len(), |i: int| Seq::<char>::empty())),
        None => value,
    }
}

/// Every text may expand to some text.
pub proof fn lemma_one_expansion(value: Seq<char>)
    ensures
        may_expand_to(value, Ok(one_expansion(value))),
{
    if let Some(parts) = shell_pieces(value) {
        let values = Seq::new(parts.len(), |i: int| Seq::<char>::empty());
        assert(is_homed(value, filled(parts, values), one_expansion(value)));
    }
}

/// Expands variables of the environment and the home directory with `shellexpand::full`. What
/// stands for itself is kept, two dollar signs become one, some value comes for a variable and
/// some directory for a tilde at the start; it fails only on a variable without a default.
/// Which values and which directory come rests on the environment, and is not said; nor is
/// anything where a character beyond ASCII follows a dollar sign or the name of a variable.
#[verifier::external_body]
fn shell_expanded(value: &str) -> (r: Result<String, String>)
    ensures
        may_expand_to(value@, text_result(r)),
{
    shellexpand::full(value).map(|value| value.into_owned()).map_err(|error| error.to_string())
}

/// `text` has come of expanding `value` just so: the environment decides what that is, and
/// nothing but an expansion tells.
pub closed spec fn is_outcome(value: Seq<char>, text: Seq<char>) -> bool {
    exists|v: &str, out: Result<String, String>|
        {
            &&& #[trigger] call_ensures(shell_expanded, (v,), out)
            &&& v@ == value
            &&& text_result(out) == Ok::<Seq<char>, Seq<char>>(text)
        }
}

/// Each of `found` has come of expanding the one of `values` in its place.
pub open spec fn are_outcomes(values: Seq<Seq<char>>, found: Seq<Seq<char>>) -> bool {
    found.len() == values.len() && forall|i: int|
        #![trigger found[i]]
        0 <= i < values.len() ==> is_outcome(values[i], found[i])
}

/// What comes of expanding a text is made of its pieces.
pub proof fn outcomes_are_made_of_the_pieces(value: Seq<char>, text: Seq<char>)
    requires
        is_outcome(value, text),
    ensures
        may_expand_to(value, Ok(text)),
{
}

/// Expands variables of the environment and the home directory.
pub fn expand(value: &str) -> (r: Result<String, String>)
    ensures
        may_expand_to(value@, text_result(r)),
        r matches Ok(text) ==> is_outcome(value@, text@),
{
    let expander = shell_expanded;
    expander(value)
}

/// The path that a variable is set to, if it is set, when `expanded` comes of expanding it.
pub open spec fn path_from(
    name: Seq<char>,
    value: EnvModel,
    expanded: Result<Seq<char>, Seq<char>>,
) -> Result<Option<Seq<char>>, Seq<char>> {
    match env_text(name, value) {
        Err(error) => Err(error),
        Ok(None) => Ok(None),
        Ok(Some(text)) => match not_blank(name, text) {
            Err(error) => Err(error),
            Ok(_) => match expanded {
                Ok(path) => Ok(Some(path)),
                Err(error) => Err(error),
            },
        },
    }
}

/// `result` may come of a variable that names a path.
pub open spec fn may_be_path(
    name: Seq<char>,
    value: EnvModel,
    result: Result<Option<Seq<char>>, Seq<char>>,
) -> bool {
    exists|expanded: Result<Seq<char>, Seq<char>>|
        {
            &&& value matches EnvModel::Text(text) ==> text::is_blank(text) || may_expand_to(
                text,
                expanded,
            )
            &&& result == #[trigger] path_from(name, value, expanded)
        }
}

/// The path that a variable is set to, if it is set, expanded.
pub fn env_path(name: &str, value: &EnvValue) -> (r: Result<Option<String>, String>)
    ensures
        may_be_path(name@, value@, optional_result(r)),
        r matches Ok(Some(path)) ==> (value@ matches EnvModel::Text(text) && is_outcome(
            text,
            path@,
        )),
{
    let ghost nothing: Result<Seq<char>, Seq<char>> = match value@ {
        EnvModel::Text(text) => Ok(text),
        _ => Err(Seq::empty()),
    };
    match env_value(name, value) {
        Err(error) => {
            assert(optional_result(Err(error)) == path_from(name@, value@, nothing));
            Err(error)
        },
        Ok(None) => {
            assert(optional_result(Ok(None)) == path_from(name@, value@, nothing));
            Ok(None)
        },
        Ok(Some(text)) => match nonempty(name, text) {
            Err(error) => {
                assert(optional_result(Err(error)) == path_from(name@, value@, nothing));
                Err(error)
            },
            Ok(text) => {
                let expanded = expand(text.as_str());
                let ghost model = text_result(expanded);
                let r = match expanded {
                    Ok(path) => Ok(Some(path)),
                    Err(error) => Err(error),
                };
                assert(optional_result(r) == path_from(name@, value@, model));
                r
            },
        },
    }
}

// ---------- The file of servers ----------

/// What comes of reading the file that names the MCP servers.
#[derive(Debug)]
pub enum ConfigRead {
    Text(String),
    /// There is no such file, with the error.
    NotFound(String),
    /// It cannot be read, with the error.
    Failed(String),
}

/// What the file at `path` holds, when `read` comes of reading it: nothing where it is optional
/// and there is none.
pub open spec fn config_text(path: Seq<char>, optional: bool, read: ConfigRead) -> Result<
    Option<Seq<char>>,
    Seq<char>,
> {
    match read {
        ConfigRead::Text(text) => Ok(Some(text@)),
        ConfigRead::NotFound(error) => if optional {
            Ok(None)
        } else {
            Err("failed to read "@ + path + ": "@ + error@)
        },
        ConfigRead::Failed(error) => Err("failed to read "@ + path + ": "@ + error@),
    }
}

/// What the file at `path` holds, when `read` comes of reading it.
pub fn config_found(path: &str, optional: bool, read: ConfigRead) -> (r: Result<
    Option<String>,
    String,
>)
    ensures
        optional_result(r) == config_text(path@, optional, read),
{
    let cause = match read {
        ConfigRead::Text(text) => {
            return Ok(Some(text));
        },
        ConfigRead::NotFound(error) => {
            if optional {
                return Ok(None);
            }
            error
        },
        ConfigRead::Failed(error) => error,
    };
    let mut error = "failed to read ".to_owned();
    error.append(path);
    error.append(": ");
    error.append(cause.as_str());
    Err(error)
}

// ---------- Agents ----------

/// An agent: what its file sets, and its prompt.
#[derive(Debug)]
pub struct AgentFile {
    pub name: Option<String>,
    pub description: Option<String>,
    pub base_url: Option<String>,
    pub model: Option<String>,
    pub model_context_window: Option<u64>,
    pub params: Vec<(String, Json)>,
    pub prompt: String,
}

/// Why the file of an agent is refused.
#[derive(Debug, Clone, Copy, PartialEq, Eq, Structural)]
pub enum AgentError {
    /// It does not start with a line of three hyphens.
    NoFrontmatter,
    /// It is empty.
    MissingFrontmatter,
    /// No second line of three hyphens follows.
    Unterminated,
    /// Nothing follows the settings.
    EmptyPrompt,
}

impl AgentError {
    /// The message of the error.
    pub open spec fn text(self) -> Seq<char> {
        match self {
            AgentError::NoFrontmatter => "agent file must start with YAML frontmatter"@,
            AgentError::MissingFrontmatter => "missing YAML frontmatter"@,
            AgentError::Unterminated => "unterminated YAML frontmatter"@,
            AgentError::EmptyPrompt => "agent system prompt must not be empty"@,
        }
    }

    /// The message of the error.
    pub fn message(&self) -> (r: String)
        ensures
            r@ == self.text(),
    {
        match self {
            AgentError::NoFrontmatter => "agent file must start with YAML frontmatter".to_owned(),
            AgentError::MissingFrontmatter => "missing YAML frontmatter".to_owned(),
            AgentError::Unterminated => "unterminated YAML frontmatter".to_owned(),
            AgentError::EmptyPrompt => "agent system prompt must not be empty".to_owned(),
        }
    }
}

/// The length of the line that starts at `from`, with its line feed.
pub open spec fn line_len(s: Seq<char>, from: nat) -> nat {
    let end = text::first_index(s.skip(from as int), '\n');
    if from + end < s.len() {
        end + 1
    } else {
        end
    }
}

/// `line` without the carriage returns and line feeds at its end.
pub open spec fn without_breaks(line: Seq<char>) -> Seq<char>
    decreases line.len(),
{
    if line.len() > 0 && (line.last() == '\r' || line.last() == '\n') {
        without_breaks(line.drop_last())
    } else {
        line
    }
}

/// The line that starts at `from` is one of three hyphens.
pub open spec fn is_marker(s: Seq<char>, from: nat) -> bool {
    without_breaks(s.subrange(from as int, from as int + line_len(s, from))) == "---"@
}

/// Where the first line of three hyphens at or behind the line that starts at `from` starts.
pub open spec fn closing_marker(s: Seq<char>, from: nat) -> Option<nat>
    decreases s.len() - from,
{
    if from >= s.len() {
        None
    } else if is_marker(s, from) {
        Some(from)
    } else {
        proof {
            lemma_line_len(s, from);
        }
        closing_marker(s, from + line_len(s, from))
    }
}

/// The settings and the prompt in the file of an agent: the settings stand between two lines
/// of three hyphens, and the prompt follows.
pub open spec fn agent_parts(s: Seq<char>) -> Result<(Seq<char>, Seq<char>), AgentError> {
    if s.len() == 0 {
        Err(AgentError::MissingFrontmatter)
    } else if !is_marker(s, 0) {
        Err(AgentError::NoFrontmatter)
    } else {
        let start = line_len(s, 0);
        match closing_marker(s, start) {
            None => Err(AgentError::Unterminated),
            Some(end) => Ok(
                (
                    s.subrange(start as int, end as int),
                    text::trim(s.skip((end + line_len(s, end)) as int)),
                ),
            ),
        }
    }
}

/// The settings and the prompt in the file of an agent.
#[derive(Debug)]
pub struct AgentText {
    pub frontmatter: String,
    pub prompt: String,
}

/// A line is not empty, and lies within the text.
pub proof fn lemma_line_len(s: Seq<char>, from: nat)
    requires
        from < s.len(),
    ensures
        0 < line_len(s, from),
        from + line_len(s, from) <= s.len(),
{
    text::first_index_is_first(s.skip(from as int), '\n');
}

/// The end of the line that starts at `from`, and whether it is one of three hyphens.
fn read_line(chars: &Vec<char>, from: usize) -> (r: (usize, bool))
    requires
        from < chars@.len(),
    ensures
        r.0 == from + line_len(chars@, from as nat),
        from < r.0 <= chars@.len(),
        r.1 == is_marker(chars@, from as nat),
{
    let mut end: usize = from;
    let ghost rest = chars@.skip(from as int);
    assert(rest.skip(0) =~= rest);
    while end < chars.len() && chars[end] != '\n'
        invariant
            from <= end <= chars@.len(),
            rest == chars@.skip(from as int),
            text::first_index(rest, '\n') == (end - from) + text::first_index(rest.skip(end - from), '\n'),
        decreases chars.len() - end,
    {
        proof {
            let s = rest.skip(end - from);
            assert(s[0] == chars@[end as int]);
            assert(s.drop_first() =~= rest.skip(end + 1 - from));
        }
        end += 1;
    }
    proof {
        let s = rest.skip(end - from);
        assert(end < chars@.len() ==> s[0] == chars@[end as int]);
        lemma_line_len(chars@, from as nat);
    }
    if end < chars.len() {
        end += 1;
    }
    let ghost line = chars@.subrange(from as int, end as int);
    let mut stop: usize = end;
    assert(line.take(stop - from) =~= line);
    while stop > from && (chars[stop - 1] == '\r' || chars[stop - 1] == '\n')
        invariant
            from <= stop <= end <= chars@.len(),
            line == chars@.subrange(from as int, end as int),
            without_breaks(line) == without_breaks(line.take(stop - from)),
        decreases stop,
    {
        proof {
            let s = line.take(stop - from);
            assert(s.last() == chars@[stop - 1]);
            assert(s.drop_last() =~= line.take(stop - 1 - from));
        }
        stop -= 1;
    }
    proof {
        let s = line.take(stop - from);
        assert(stop > from ==> s.last() == chars@[stop - 1]);
        assert(s =~= chars@.subrange(from as int, stop as int));
    }
    let marker = slice_text(chars, from, stop);
    (end, same_text(marker.as_str(), "---"))
}

/// The settings and the prompt in the file of an agent.
pub fn split_agent(text: &str) -> (r: Result<AgentText, AgentError>)
    ensures
        match agent_parts(text@) {
            Ok((frontmatter, prompt)) => r matches Ok(parts) && parts.frontmatter@ == frontmatter
                && parts.prompt@ == prompt,
            Err(error) => r matches Err(e) && e == error,
        },
{
    let chars = to_chars(text);
    if chars.len() == 0 {
        return Err(AgentError::MissingFrontmatter);
    }
    let (start, opens) = read_line(&chars, 0);
    if !opens {
        return Err(AgentError::NoFrontmatter);
    }
    let mut from: usize = start;
    while from < chars.len()
        invariant
            chars@ == text@,
            chars@.len() > 0,
            is_marker(chars@, 0),
            start == line_len(chars@, 0),
            start <= from <= chars@.len(),
            closing_marker(chars@, start as nat) == closing_marker(chars@, from as nat),
        decreases chars.len() - from,
    {
        let (end, closes) = read_line(&chars, from);
        if closes {
            let frontmatter = slice_text(&chars, start, from);
            let (a, b) = trimmed_range(&chars, end, chars.len());
            assert(chars@.subrange(end as int, chars@.len() as int) =~= chars@.skip(end as int));
            return Ok(AgentText { frontmatter, prompt: slice_text(&chars, a, b) });
        }
        from = end;
    }
    Err(AgentError::Unterminated)
}

impl AgentFile {
    /// The agent with its prompt, which may not be empty.
    pub fn with_prompt(self, prompt: String) -> (r: Result<AgentFile, AgentError>)
        ensures
            if prompt@.len() == 0 {
                r matches Err(error) && error == AgentError::EmptyPrompt
            } else {
                r == Ok::<AgentFile, AgentError>(AgentFile { prompt, ..self })
            },
    {
        if prompt.as_str().unicode_len() == 0 {
            return Err(AgentError::EmptyPrompt);
        }
        let mut agent = self;
        agent.prompt = prompt;
        Ok(agent)
    }

    /// An agent that sets nothing.
    pub fn empty() -> (r: AgentFile)
        ensures
            r.name is None,
            r.description is None,
            r.base_url is None,
            r.model is None,
            r.model_context_window is None,
            r.params@.len() == 0,
            r.prompt@.len() == 0,
    {
        AgentFile {
            name: None,
            description: None,
            base_url: None,
            model: None,
            model_context_window: None,
            params: Vec::new(),
            prompt: String::new(),
        }
    }
}

/// The file of the agent, by the variables that name it or the agent, when `expanded` comes
/// of expanding the first.
pub open spec fn agent_file_from(
    file: EnvModel,
    name: EnvModel,
    path: Result<Option<Seq<char>>, Seq<char>>,
) -> Result<Option<Seq<char>>, Seq<char>> {
    match path {
        Err(error) => Err(error),
        Ok(Some(path)) => Ok(Some(path)),
        Ok(None) => match env_text("THX_AGENT"@, name) {
            Err(error) => Err(error),
            Ok(None) => Ok(None),
            Ok(Some(name)) => match not_blank("THX_AGENT"@, name) {
                Err(error) => Err(error),
                Ok(name) => Ok(Some(".agents/agents/"@ + name + ".md"@)),
            },
        },
    }
}

/// The file of the agent, if there is one: the one that `THX_AGENT_FILE` names, else that of
/// the agent that `THX_AGENT` names.
pub fn agent_path(file: &EnvValue, name: &EnvValue) -> (r: Result<Option<String>, String>)
    ensures
        exists|path: Result<Option<Seq<char>>, Seq<char>>|
            {
                &&& may_be_path("THX_AGENT_FILE"@, file@, path)
                &&& optional_result(r) == #[trigger] agent_file_from(file@, name@, path)
            },
        r matches Ok(Some(path)) ==> (file@ matches EnvModel::Text(text) ==> is_outcome(
            text,
            path@,
        )),
{
    let path = env_path("THX_AGENT_FILE", file);
    let ghost model = optional_result(path);
    let r = match path {
        Err(error) => Err(error),
        Ok(Some(path)) => Ok(Some(path)),
        Ok(None) => match env_value("THX_AGENT", name) {
            Err(error) => Err(error),
            Ok(None) => Ok(None),
            Ok(Some(name)) => match nonempty("THX_AGENT", name) {
                Err(error) => Err(error),
                Ok(name) => {
                    let mut path = ".agents/agents/".to_owned();
                    path.append(name.as_str());
                    path.append(".md");
                    Ok(Some(path))
                },
            },
        },
    };
    assert(optional_result(r) == agent_file_from(file@, name@, model));
    r
}

// ---------- Settings ----------

/// The variables of the environment that settings are made of.
#[derive(Debug)]
pub struct Environment {
    pub api_key: EnvValue,
    pub base_url: EnvValue,
    pub model: EnvValue,
    pub context_window: EnvValue,
    pub mcp_config: EnvValue,
}

/// The settings.
#[derive(Debug)]
pub struct Settings {
    pub api_key: String,
    pub base_url: String,
    pub model: String,
    pub model_context_window: Option<u64>,
    pub system: Option<String>,
    pub agent_name: Option<String>,
    pub agent_description: Option<String>,
    pub additional_params: Json,
    pub mcp_config: Option<String>,
}

/// A setting of the agent, which may not be blank; where the agent has none, that of a
/// variable, or else a default.
pub open spec fn chosen(
    agent: Option<Seq<char>>,
    agent_name: Seq<char>,
    name: Seq<char>,
    value: EnvModel,
    default: Seq<char>,
) -> Result<Seq<char>, Seq<char>> {
    match agent {
        Some(text) => not_blank(agent_name, text),
        None => env_default(name, value, default),
    }
}

/// The size of the context window, by the agent or else by a variable.
pub open spec fn chosen_window(agent: Option<u64>, value: EnvModel) -> Result<
    Option<u64>,
    Seq<char>,
> {
    match agent {
        Some(window) => match not_zero("agent model_context_window"@, window) {
            Ok(window) => Ok(Some(window)),
            Err(error) => Err(error),
        },
        None => env_number("MODEL_CONTEXT_WINDOW"@, value),
    }
}

/// What is wrong with the first setting that anything is wrong with, when `mcp_config` comes
/// of the variable that names the file of MCP servers.
pub open spec fn settings_error(
    env: Environment,
    agent: AgentFile,
    mcp_config: Result<Option<Seq<char>>, Seq<char>>,
) -> Option<Seq<char>> {
    let base_url = chosen(
        thinking::optional(agent.base_url),
        "agent base_url"@,
        "OPENAI_BASE_URL"@,
        env.base_url@,
        DEFAULT_BASE_URL@,
    );
    let model = chosen(
        thinking::optional(agent.model),
        "agent model"@,
        "OPENAI_MODEL"@,
        env.model@,
        DEFAULT_MODEL@,
    );
    let window = chosen_window(agent.model_context_window, env.context_window@);
    let api_key = env_default("OPENAI_API_KEY"@, env.api_key@, ""@);
    if base_url is Err {
        Some(base_url->Err_0)
    } else if model is Err {
        Some(model->Err_0)
    } else if window is Err {
        Some(window->Err_0)
    } else if api_key is Err {
        Some(api_key->Err_0)
    } else if mcp_config is Err {
        Some(mcp_config->Err_0)
    } else {
        None
    }
}

/// The settings come of the environment and the agent, when `mcp_config` comes of the variable
/// that names the file of MCP servers.
pub open spec fn settings_from(
    settings: Settings,
    env: Environment,
    agent: AgentFile,
    mcp_config: Result<Option<Seq<char>>, Seq<char>>,
) -> bool {
    &&& Ok::<Seq<char>, Seq<char>>(settings.base_url@) == chosen(
        thinking::optional(agent.base_url),
        "agent base_url"@,
        "OPENAI_BASE_URL"@,
        env.base_url@,
        DEFAULT_BASE_URL@,
    )
    &&& Ok::<Seq<char>, Seq<char>>(settings.model@) == chosen(
        thinking::optional(agent.model),
        "agent model"@,
        "OPENAI_MODEL"@,
        env.model@,
        DEFAULT_MODEL@,
    )
    &&& Ok::<Option<u64>, Seq<char>>(settings.model_context_window) == chosen_window(
        agent.model_context_window,
        env.context_window@,
    )
    &&& Ok::<Seq<char>, Seq<char>>(settings.api_key@) == env_default(
        "OPENAI_API_KEY"@,
        env.api_key@,
        ""@,
    )
    &&& Ok::<Option<Seq<char>>, Seq<char>>(thinking::optional(settings.mcp_config)) == mcp_config
    &&& thinking::optional(settings.system) == (if agent.prompt@.len() == 0 {
        None
    } else {
        Some(agent.prompt@)
    })
    &&& thinking::optional(settings.agent_name) == thinking::optional(agent.name)
    &&& thinking::optional(settings.agent_description) == thinking::optional(agent.description)
    &&& settings.additional_params@ == JsonView::Object(json::fields_view(agent.params@))
}

/// A setting of the agent, or else of a variable, or else a default.
fn choose_setting(
    agent: Option<String>,
    agent_name: &str,
    name: &str,
    value: &EnvValue,
    default: &str,
) -> (r: Result<String, String>)
    ensures
        text_result(r) == chosen(thinking::optional(agent), agent_name@, name@, value@, default@),
{
    match agent {
        Some(text) => nonempty(agent_name, text),
        None => env_or(name, value, default),
    }
}

impl Settings {
    /// The settings that come of the environment and the agent.
    pub fn load(env: &Environment, agent: AgentFile) -> (r: Result<Settings, String>)
        ensures
            exists|mcp_config: Result<Option<Seq<char>>, Seq<char>>|
                {
                    &&& #[trigger] may_be_path("MCP_CONFIG"@, env.mcp_config@, mcp_config)
                    &&& match r {
                        Ok(settings) => settings_error(*env, agent, mcp_config) is None
                            && settings_from(settings, *env, agent, mcp_config),
                        Err(error) => settings_error(*env, agent, mcp_config) == Some(error@),
                    }
                },
            r matches Ok(settings) ==> (settings.model_context_window matches Some(window)
                ==> window > 0),
            r matches Ok(settings) ==> (settings.mcp_config matches Some(path) ==> (
            env.mcp_config@ matches EnvModel::Text(text) && is_outcome(text, path@))),
    {
        let mcp = env_path("MCP_CONFIG", &env.mcp_config);
        let ghost mcp_config = optional_result(mcp);
        assert(may_be_path("MCP_CONFIG"@, env.mcp_config@, mcp_config));
        let base_url = match choose_setting(
            agent.base_url,
            "agent base_url",
            "OPENAI_BASE_URL",
            &env.base_url,
            DEFAULT_BASE_URL,
        ) {
            Ok(text) => text,
            Err(error) => {
                return Err(error);
            },
        };
        let model = match choose_setting(
            agent.model,
            "agent model",
            "OPENAI_MODEL",
            &env.model,
            DEFAULT_MODEL,
        ) {
            Ok(text) => text,
            Err(error) => {
                return Err(error);
            },
        };
        let window = match agent.model_context_window {
            Some(value) => match positive_u64("agent model_context_window", value) {
                Ok(value) => Ok(Some(value)),
                Err(error) => Err(error),
            },
            None => env_u64("MODEL_CONTEXT_WINDOW", &env.context_window),
        };
        let model_context_window = match window {
            Ok(window) => window,
            Err(error) => {
                return Err(error);
            },
        };
        let api_key = match env_or("OPENAI_API_KEY", &env.api_key, "") {
            Ok(text) => text,
            Err(error) => {
                return Err(error);
            },
        };
        let mcp_path = match mcp {
            Ok(path) => path,
            Err(error) => {
                return Err(error);
            },
        };
        let system = if agent.prompt.as_str().unicode_len() == 0 {
            None
        } else {
            Some(agent.prompt)
        };
        Ok(
            Settings {
                api_key,
                base_url,
                model,
                model_context_window,
                system,
                agent_name: agent.name,
                agent_description: agent.description,
                additional_params: object(agent.params),
                mcp_config: mcp_path,
            },
        )
    }

    /// The file that names the MCP servers, and whether it may be missing: only the default
    /// one may.
    pub fn mcp_path(&self) -> (r: (&str, bool))
        ensures
            match self.mcp_config {
                Some(path) => r.0@ == path@ && !r.1,
                None => r.0@ == DEFAULT_MCP_CONFIG@ && r.1,
            },
    {
        match &self.mcp_config {
            Some(path) => (path.as_str(), false),
            None => (DEFAULT_MCP_CONFIG, true),
        }
    }

    /// The label of a session: the model, and the number of tools if there are any.
    pub fn session_label(&self, tools: usize) -> (r: String)
        ensures
            r@ == session_label_text(self.model@, tools as nat),
    {
        let mut label = self.model.clone();
        if tools == 1 {
            label.append(" · 1 tool");
        } else if tools > 1 {
            label.append(" · ");
            push_decimal(&mut label, tools as u128);
            label.append(" tools");
        }
        label
    }
}

/// The label of a session: the model, and the number of tools if there are any.
pub open spec fn session_label_text(model: Seq<char>, tools: nat) -> Seq<char> {
    if tools == 0 {
        model
    } else if tools == 1 {
        model + " · 1 tool"@
    } else {
        model + " · "@ + text::decimal(tools) + " tools"@
    }
}

// ---------- Laws ----------

proof fn lemma_numeral(n: nat)
    ensures
        digits_value(text::decimal(n)) == Some(n),
    decreases n,
{
    if n >= 10 {
        lemma_numeral(n / 10);
        text::lemma_decimal(n / 10);
        assert(text::decimal(n).drop_last() =~= text::decimal(n / 10));
    }
}

/// A number is read back from its numeral.
pub proof fn numerals_are_read_back(n: u64)
    ensures
        number(text::decimal(n as nat)) == Some(n),
{
    lemma_numeral(n as nat);
    text::lemma_decimal(n as nat);
}

/// What an agent sets goes before the environment.
pub proof fn agents_go_before_the_environment(
    agent: Seq<char>,
    agent_name: Seq<char>,
    name: Seq<char>,
    value: EnvModel,
    default: Seq<char>,
)
    requires
        !text::is_blank(agent),
    ensures
        chosen(Some(agent), agent_name, name, value, default) == Ok::<Seq<char>, Seq<char>>(agent),
{
}

/// The pieces of a text in which every dollar sign is doubled stand for themselves.
proof fn lemma_no_variables(s: Seq<char>)
    requires
        only_doubled(s),
    ensures
        shell_pieces(s) is Some,
        forall|i: int| 0 <= i < shell_pieces(s)->0.len() ==> (#[trigger] shell_pieces(s)->0[i]) is Literal,
        forall|values: Seq<Seq<char>>|
            values.len() == shell_pieces(s)->0.len() ==> #[trigger] filled(shell_pieces(s)->0, values)
                == undoubled(s),
    decreases s.len(),
{
    if s.len() > 0 {
        let n: int = if s[0] == '$' {
            2
        } else {
            1
        };
        let rest = s.skip(n);
        lemma_no_variables(rest);
        let parts = shell_pieces(s)->0;
        let after = shell_pieces(rest)->0;
        assert(parts =~= seq![Piece::Literal(s.take(1))] + after);
        assert(parts.drop_first() =~= after);
        assert forall|i: int| 0 <= i < parts.len() implies (#[trigger] parts[i]) is Literal by {
            if i > 0 {
                assert(parts[i] == after[i - 1]);
            }
        }
        assert forall|values: Seq<Seq<char>>| values.len() == parts.len() implies
            #[trigger] filled(parts, values) == undoubled(s) by {
            assert(filled(after, values.drop_first()) == undoubled(rest));
        }
    }
}

/// Every dollar sign in `s` is doubled.
pub open spec fn only_doubled(s: Seq<char>) -> bool
    decreases s.len(),
{
    if s.len() == 0 {
        true
    } else if s[0] != '$' {
        only_doubled(s.skip(1))
    } else {
        s.len() >= 2 && s[1] == '$' && only_doubled(s.skip(2))
    }
}

/// `s` with one dollar sign for every two.
pub open spec fn undoubled(s: Seq<char>) -> Seq<char>
    decreases s.len(),
{
    if s.len() == 0 {
        Seq::empty()
    } else {
        s.take(1) + undoubled(
            s.skip(
                if s[0] == '$' && s.len() >= 2 {
                    2
                } else {
                    1
                },
            ),
        )
    }
}

/// A text without variables always expands: to itself with one dollar sign for every two, but
/// for the home directory at its start.
pub proof fn texts_without_variables_expand(value: Seq<char>, result: Result<Seq<char>, Seq<char>>)
    requires
        only_doubled(value),
        may_expand_to(value, result),
    ensures
        result matches Ok(text) && is_homed(value, undoubled(value), text),
{
    lemma_no_variables(value);
}

/// A text without dollar signs and without a home directory at its start expands to itself.
pub proof fn plain_texts_stay(value: Seq<char>, result: Result<Seq<char>, Seq<char>>)
    requires
        !value.contains('$'),
        !starts_at_home(value),
        may_expand_to(value, result),
    ensures
        result == Ok::<Seq<char>, Seq<char>>(value),
{
    lemma_undoubled_plain(value);
    texts_without_variables_expand(value, result);
}

proof fn lemma_undoubled_plain(s: Seq<char>)
    requires
        !s.contains('$'),
    ensures
        only_doubled(s),
        undoubled(s) == s,
    decreases s.len(),
{
    if s.len() > 0 {
        let rest = s.skip(1);
        assert(s[0] != '$');
        assert forall|i: int| 0 <= i < rest.len() implies rest[i] != '$' by {
            assert(rest[i] == s[i + 1]);
        }
        lemma_undoubled_plain(rest);
        assert(s.take(1) + rest =~= s);
    } else {
        assert(undoubled(s) =~= s);
    }
}

/// What an agent does not set is what the environment says, and where that says nothing the
/// default; a variable that is blank or cannot be read is an error that names it.
pub proof fn the_environment_goes_before_the_default(
    agent_name: Seq<char>,
    name: Seq<char>,
    value: EnvModel,
    default: Seq<char>,
)
    requires
        !text::is_blank(default),
    ensures
        value matches EnvModel::Text(text) && !text::is_blank(text) ==> chosen(
            None,
            agent_name,
            name,
            value,
            default,
        ) == Ok::<Seq<char>, Seq<char>>(value->Text_0),
        value is Missing ==> chosen(None, agent_name, name, value, default) == Ok::<
            Seq<char>,
            Seq<char>,
        >(default),
        value matches EnvModel::Text(text) && text::is_blank(text) ==> (chosen(
            None,
            agent_name,
            name,
            value,
            default,
        ) matches Err(error) && text::holds_in_order(error, seq![name])),
        value matches EnvModel::Unreadable(cause) ==> (chosen(
            None,
            agent_name,
            name,
            value,
            default,
        ) matches Err(error) && text::holds_in_order(error, seq![name, cause])),
{
    text::lemma_holds_itself(name);
    text::lemma_holds_before(name, " must not be empty"@, seq![name]);
    text::lemma_holds_behind("failed to read "@, name, seq![name]);
    if let EnvModel::Unreadable(cause) = value {
        text::lemma_holds_next("failed to read "@ + name, ": "@, cause, seq![name]);
        assert(seq![name].push(cause) =~= seq![name, cause]);
    }
}

/// The settings are those of the agent where it sets them: the place of the model, its name and
/// its window, the prompt, and the name and description of the agent.
pub proof fn agents_set_what_they_say(
    settings: Settings,
    env: Environment,
    agent: AgentFile,
    mcp_config: Result<Option<Seq<char>>, Seq<char>>,
)
    requires
        settings_from(settings, env, agent, mcp_config),
    ensures
        agent.base_url matches Some(text) ==> settings.base_url@ == text@ && !text::is_blank(text@),
        agent.model matches Some(text) ==> settings.model@ == text@ && !text::is_blank(text@),
        agent.model_context_window matches Some(window) ==> settings.model_context_window == Some(
            window,
        ) && window > 0,
        agent.base_url is None ==> (env.base_url@ matches EnvModel::Text(text)
            ==> settings.base_url@ == text),
        agent.model is None ==> (env.model@ matches EnvModel::Text(text) ==> settings.model@
            == text),
        env.api_key@ matches EnvModel::Text(text) ==> settings.api_key@ == text,
        agent.prompt@.len() > 0 ==> thinking::optional(settings.system) == Some(agent.prompt@),
        agent.prompt@.len() == 0 ==> settings.system is None,
        thinking::optional(settings.agent_name) == thinking::optional(agent.name),
        thinking::optional(settings.agent_description) == thinking::optional(agent.description),
        settings.additional_params@ matches JsonView::Object(fields) && fields.len()
            == agent.params@.len() && forall|i: int|
            0 <= i < fields.len() ==> (#[trigger] fields[i]).0 == agent.params@[i].0@ && fields[i].1
                == agent.params@[i].1@,
        mcp_config matches Ok(path) && thinking::optional(settings.mcp_config) == path,
{
}

/// The size of the window is the number that the variable is set to, in digits, with white
/// space around it or not; zero is refused.
pub proof fn the_window_is_the_number_in_the_variable(name: Seq<char>, n: u64, lead: Seq<char>, tail: Seq<char>)
    requires
        text::trim(lead + text::decimal(n as nat) + tail) == text::decimal(n as nat),
    ensures
        n > 0 ==> env_number(name, EnvModel::Text(lead + text::decimal(n as nat) + tail)) == Ok::<
            Option<u64>,
            Seq<char>,
        >(Some(n)),
        n == 0 ==> env_number(name, EnvModel::Text(lead + text::decimal(n as nat) + tail)) is Err,
        env_number(name, EnvModel::Missing) == Ok::<Option<u64>, Seq<char>>(None),
{
    numerals_are_read_back(n);
}

/// The file of an agent is the one that is named, else the one of the agent that is named.
pub proof fn agents_are_found_by_file_or_by_name(
    file: EnvModel,
    name: Seq<char>,
    path: Seq<char>,
)
    ensures
        agent_file_from(file, EnvModel::Text(name), Ok(Some(path))) == Ok::<
            Option<Seq<char>>,
            Seq<char>,
        >(Some(path)),
        !text::is_blank(name) ==> (agent_file_from(file, EnvModel::Text(name), Ok(None)) matches Ok(
            Some(found),
        ) && text::holds_in_order(found, seq![".agents/agents/"@, name, ".md"@])),
        text::is_blank(name) ==> agent_file_from(file, EnvModel::Text(name), Ok(None)) is Err,
        agent_file_from(file, EnvModel::Missing, Ok(None)) == Ok::<Option<Seq<char>>, Seq<char>>(
            None,
        ),
{
    let directory = ".agents/agents/"@;
    let none = Seq::<char>::empty();
    text::lemma_holds_itself(directory);
    text::lemma_holds_next(directory, none, name, seq![directory]);
    text::lemma_holds_next(directory + none + name, none, ".md"@, seq![directory].push(name));
    assert(directory + none + name + none + ".md"@ =~= directory + name + ".md"@);
    assert(seq![directory].push(name).push(".md"@) =~= seq![directory, name, ".md"@]);
}

/// The label of a session tells the model, and how many tools there are where there are any.
pub proof fn session_labels_tell_model_and_tools(model: Seq<char>, tools: nat)
    ensures
        tools == 0 ==> session_label_text(model, tools) == model,
        tools > 0 ==> text::holds_in_order(
            session_label_text(model, tools),
            seq![model, text::decimal(tools)],
        ),
{
    text::lemma_holds_itself(model);
    let one = text::decimal(tools);
    text::lemma_holds_next(model, " · "@, one, seq![model]);
    assert(seq![model].push(one) =~= seq![model, one]);
    text::lemma_holds_before(model + " · "@ + one, " tools"@, seq![model, one]);
    text::lemma_holds_before(model + " · "@ + one, " tool"@, seq![model, one]);
    if tools == 1 {
        reveal_strlit(" · 1 tool");
        reveal_strlit(" · ");
        reveal_strlit(" tool");
        assert(one =~= seq!['1']);
        assert(" · 1 tool"@ =~= " · "@ + one + " tool"@);
        assert(model + " · 1 tool"@ =~= model + " · "@ + one + " tool"@);
    }
}

/// No line of `s` starts with three hyphens.
pub open spec fn starts_no_marker(s: Seq<char>) -> bool {
    forall|i: int|
        0 <= i <= s.len() - 3 && (i == 0 || s[i - 1] == '\n') ==> #[trigger] s.subrange(i, i + 3)
            != "---"@
}

proof fn lemma_line_break(s: Seq<char>, from: nat, n: int)
    requires
        from <= n < s.len(),
        s[n] == '\n',
        forall|i: int| from <= i < n ==> s[i] != '\n',
    ensures
        line_len(s, from) == n - from + 1,
{
    let t = s.skip(from as int);
    text::first_index_is_first(t, '\n');
    let k = text::first_index(t, '\n') as int;
    assert(t[n - from] == '\n');
    if k < n - from {
        assert(t[k] == s[from as int + k]);
    }
}

proof fn lemma_marker(s: Seq<char>, from: nat)
    requires
        from + 4 <= s.len(),
        s.subrange(from as int, from as int + 4) == "---\n"@,
    ensures
        is_marker(s, from),
        line_len(s, from) == 4,
{
    reveal_strlit("---\n");
    reveal_strlit("---");
    let line = s.subrange(from as int, from as int + 4);
    assert(line[0] == s[from as int] && line[1] == s[from as int + 1] && line[2] == s[from as int + 2] && line[3]
        == s[from as int + 3]);
    lemma_line_break(s, from, from as int + 3);
    reveal_with_fuel(without_breaks, 2);
    assert(line.drop_last() =~= "---"@);
    assert(line.last() == '\n');
}

proof fn lemma_without_breaks(line: Seq<char>)
    ensures
        without_breaks(line).len() <= line.len(),
        without_breaks(line) == line.take(without_breaks(line).len() as int),
    decreases line.len(),
{
    if line.len() > 0 && (line.last() == '\r' || line.last() == '\n') {
        lemma_without_breaks(line.drop_last());
        let n = without_breaks(line).len() as int;
        assert(line.drop_last().take(n) =~= line.take(n));
    } else {
        assert(line.take(line.len() as int) =~= line);
    }
}

proof fn lemma_closing(front: Seq<char>, rest: Seq<char>, from: nat)
    requires
        starts_no_marker(front),
        front.len() > 0 ==> front.last() == '\n',
        4 <= from <= 4 + front.len(),
        from > 4 ==> front[from - 5] == '\n',
    ensures
        closing_marker("---\n"@ + front + "---\n"@ + rest, from) == Some(4 + front.len()),
    decreases 4 + front.len() - from,
{
    reveal_strlit("---\n");
    reveal_strlit("---");
    let s = "---\n"@ + front + "---\n"@ + rest;
    let end = 4 + front.len();
    if from == end {
        assert(s.subrange(from as int, from as int + 4) =~= "---\n"@);
        lemma_marker(s, from);
    } else {
        lemma_line_len(s, from);
        let len = line_len(s, from);
        text::first_index_is_first(s.skip(from as int), '\n');
        let t = s.skip(from as int);
        assert(t[end - 1 - from] == s[end - 1]);
        assert(s[end - 1] == front.last());
        assert(text::first_index(t, '\n') <= end - 1 - from);
        let k = text::first_index(t, '\n') as int;
        assert(t[k] == s[from as int + k]);
        assert(from + len <= end);
        assert(front[from + len - 5] == s[from + len - 1]);
        let line = s.subrange(from as int, from as int + len);
        lemma_without_breaks(line);
        if is_marker(s, from) {
            let at = from - 4;
            assert(line.take(3) =~= "---"@);
            let three = line.take(3);
            assert(three[0] == line[0] && three[1] == line[1] && three[2] == line[2]);
            assert(line[0] == '-' && line[1] == '-' && line[2] == '-');
            assert(len >= 3);
            assert(line[0] == s[from as int] && line[1] == s[from as int + 1] && line[2] == s[from as int + 2]);
            assert(s[from as int] == front[at] && s[from as int + 1] == front[at + 1] && s[from as int + 2]
                == front[at + 2]);
            assert(front.subrange(at, at + 3) =~= "---"@);
            assert(false);
        }
        lemma_closing(front, rest, from + len);
    }
}

/// An agent's file is read as it is written: what stands between the two lines of three hyphens
/// is its settings, and what follows is its prompt, without white space around it.
pub proof fn agent_files_are_settings_and_prompt(front: Seq<char>, prompt: Seq<char>)
    requires
        starts_no_marker(front),
        front.len() > 0 ==> front.last() == '\n',
    ensures
        agent_parts("---\n"@ + front + "---\n"@ + prompt) == Ok::<_, AgentError>(
            (front, text::trim(prompt)),
        ),
{
    reveal_strlit("---\n");
    let s = "---\n"@ + front + "---\n"@ + prompt;
    assert(s.subrange(0, 4) =~= "---\n"@);
    lemma_marker(s, 0);
    lemma_closing(front, prompt, 4);
    let end = 4 + front.len();
    assert(s.subrange(end as int, end as int + 4) =~= "---\n"@);
    lemma_marker(s, end);
    assert(s.subrange(4, end as int) =~= front);
    assert(s.skip(end as int + 4) =~= prompt);
}

/// A file that does not start with three hyphens is refused, and so is an empty one.
pub proof fn files_without_settings_are_refused(s: Seq<char>)
    requires
        s.len() < 3 || s.take(3) != "---"@,
    ensures
        agent_parts(s) is Err,
{
    reveal_strlit("---");
    if s.len() > 0 && is_marker(s, 0) {
        let line = s.subrange(0, line_len(s, 0) as int);
        lemma_line_len(s, 0);
        lemma_without_breaks(line);
        assert(line.take(3) =~= "---"@);
        let three = line.take(3);
        assert(three[0] == line[0] && three[1] == line[1] && three[2] == line[2]);
        assert(line[0] == '-' && line[1] == '-' && line[2] == '-');
        assert(s.take(3) =~= "---"@);
    }
}

} // verus!
