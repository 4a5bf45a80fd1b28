//! Sessions: their identifiers, where they are kept, and what they hold.
use vstd::prelude::*;
use vstd::string::*;
use crate::count::Usage;
use crate::message;
use crate::message::{SaveError, SavedMessage};
use crate::text;
use crate::text::{push_decimal, same_text, to_chars};
use crate::thinking;
use crate::ui::{Ui, UiModel};

verus! {

// ---------- Identifiers ----------

/// Why a session cannot be found or kept.
#[derive(Debug, Clone, Copy, PartialEq, Eq, Structural)]
pub enum SessionError {
    /// The arguments of the program are not understood.
    Usage,
    /// No identifier follows `--resume`.
    MissingId,
    /// The identifier is no Unicode text.
    NotUnicode,
    /// The identifier is none.
    InvalidId,
    /// Every name that could be given is taken.
    NoName,
}

impl SessionError {
    /// The message of the error.
    pub open spec fn text(self) -> Seq<char> {
        match self {
            SessionError::Usage => "usage: thx [--resume <session-id>]"@,
            SessionError::MissingId => "missing session id after --resume"@,
            SessionError::NotUnicode => "session id must be valid UTF-8"@,
            SessionError::InvalidId => "invalid session id"@,
            SessionError::NoName => "failed to choose a session filename"@,
        }
    }

    /// The message of the error.
    pub fn message(&self) -> (r: String)
        ensures
            r@ == self.text(),
    {
        match self {
            SessionError::Usage => "usage: thx [--resume <session-id>]".to_owned(),
            SessionError::MissingId => "missing session id after --resume".to_owned(),
            SessionError::NotUnicode => "session id must be valid UTF-8".to_owned(),
            SessionError::InvalidId => "invalid session id".to_owned(),
            SessionError::NoName => "failed to choose a session filename".to_owned(),
        }
    }
}

/// `c` may stand in an identifier.
pub open spec fn is_id_char(c: char) -> bool {
    '0' <= c <= '9' || c == '-'
}

/// `id` is an identifier: digits and hyphens, and at least one of them.
pub open spec fn is_session_id(id: Seq<char>) -> bool {
    id.len() > 0 && forall|i: int| 0 <= i < id.len() ==> is_id_char(#[trigger] id[i])
}

/// Accepts identifiers, and nothing else.
pub fn validate_session_id(id: &str) -> (r: Result<(), SessionError>)
    ensures
        r == (if is_session_id(id@) {
            Ok::<(), SessionError>(())
        } else {
            Err(SessionError::InvalidId)
        }),
{
    let chars = to_chars(id);
    if chars.len() == 0 {
        return Err(SessionError::InvalidId);
    }
    let mut i: usize = 0;
    while i < chars.len()
        invariant
            chars@ == id@,
            i <= chars@.len(),
            forall|j: int| 0 <= j < i ==> is_id_char(#[trigger] chars@[j]),
        decreases chars.len() - i,
    {
        let c = chars[i];
        if !(('0' <= c && c <= '9') || c == '-') {
            assert(!is_id_char(chars@[i as int]));
            return Err(SessionError::InvalidId);
        }
        i += 1;
    }
    Ok(())
}

// ---------- Arguments ----------

/// The session to resume, by the arguments of the program; an argument that is no Unicode
/// text is none here. There is none without arguments, and the only arguments are
/// `--resume` and an identifier.
pub open spec fn resumed_id(args: Seq<Option<String>>) -> Result<Option<Seq<char>>, SessionError> {
    if args.len() == 0 {
        Ok(None)
    } else if thinking::optional(args[0]) != Some("--resume"@) {
        Err(SessionError::Usage)
    } else if args.len() == 1 {
        Err(SessionError::MissingId)
    } else {
        match thinking::optional(args[1]) {
            None => Err(SessionError::NotUnicode),
            Some(id) => if args.len() > 2 {
                Err(SessionError::Usage)
            } else if !is_session_id(id) {
                Err(SessionError::InvalidId)
            } else {
                Ok(Some(id))
            },
        }
    }
}

/// The session to resume, by the arguments of the program.
pub fn resume_arg_from(args: &Vec<Option<String>>) -> (r: Result<Option<String>, SessionError>)
    ensures
        match resumed_id(args@) {
            Ok(id) => r matches Ok(found) && thinking::optional(found) == id,
            Err(error) => r matches Err(e) && e == error,
        },
{
    if args.len() == 0 {
        return Ok(None);
    }
    match &args[0] {
        Some(arg) => {
            if !same_text(arg.as_str(), "--resume") {
                return Err(SessionError::Usage);
            }
        },
        None => {
            return Err(SessionError::Usage);
        },
    }
    if args.len() == 1 {
        return Err(SessionError::MissingId);
    }
    match &args[1] {
        None => Err(SessionError::NotUnicode),
        Some(id) => {
            if args.len() > 2 {
                return Err(SessionError::Usage);
            }
            match validate_session_id(id.as_str()) {
                Err(error) => Err(error),
                Ok(()) => Ok(Some(id.clone())),
            }
        },
    }
}

// ---------- Files ----------

/// A file in a directory.
#[derive(Debug)]
pub struct FilePath<D> {
    pub directory: D,
    pub file: String,
}

/// The name of the file of a session.
pub open spec fn session_file(id: Seq<char>) -> Seq<char> {
    id + ".json"@
}

/// Where the session `id` is kept: in a file of that name in the directory.
pub fn session_path_in<D>(directory: D, id: &str) -> (r: Result<FilePath<D>, SessionError>)
    ensures
        if is_session_id(id@) {
            r matches Ok(path) && path.directory == directory && path.file@ == session_file(id@)
        } else {
            r matches Err(error) && error == SessionError::InvalidId
        },
{
    match validate_session_id(id) {
        Err(error) => Err(error),
        Ok(()) => {
            let mut file = id.to_owned();
            file.append(".json");
            Ok(FilePath { directory, file })
        },
    }
}

/// The identifier to try in turn `index` for a session that is kept at `timestamp`: the
/// timestamp itself, then with a number behind it.
pub open spec fn session_id(timestamp: Seq<char>, index: u64) -> Seq<char> {
    if index == 1 {
        timestamp
    } else {
        timestamp + "-"@ + text::decimal(index as nat)
    }
}

/// Turn `index`, counted from 1, is the first in which the file to try for a session is not
/// among `taken`.
pub open spec fn is_first_session(timestamp: Seq<char>, taken: Seq<Seq<char>>, index: u64) -> bool {
    &&& index >= 1
    &&& !taken.contains(session_file(session_id(timestamp, index)))
    &&& forall|j: u64|
        1 <= j < index ==> taken.contains(session_file(#[trigger] session_id(timestamp, j)))
}

/// Tells whether a name is listed.
fn lists(names: &Vec<String>, name: &str) -> (r: bool)
    ensures
        r == text::texts(names@).contains(name@),
{
    let mut i: usize = 0;
    while i < names.len()
        invariant
            i <= names@.len(),
            forall|j: int| 0 <= j < i ==> #[trigger] text::texts(names@)[j] != name@,
        decreases names.len() - i,
    {
        if same_text(names[i].as_str(), name) {
            assert(text::texts(names@)[i as int] == name@);
            return true;
        }
        i += 1;
    }
    false
}

/// The identifier to try in turn `index`.
fn session_id_of(timestamp: &str, index: u64) -> (r: String)
    ensures
        r@ == session_id(timestamp@, index),
{
    let mut id = timestamp.to_owned();
    if index != 1 {
        id.append("-");
        push_decimal(&mut id, index as u128);
    }
    id
}

/// The first identifier whose file is not among `taken`, and where it is kept. Whoever finds
/// that the file is there adds it to `taken` and asks again.
pub fn next_session_path<D>(directory: D, timestamp: &str, taken: &Vec<String>) -> (r: Result<
    (String, FilePath<D>),
    SessionError,
>)
    ensures
        match r {
            Ok((id, path)) => {
                &&& is_session_id(timestamp@)
                &&& path.directory == directory
                &&& path.file@ == session_file(id@)
                &&& exists|index: u64| #[trigger]
                    is_first_session(timestamp@, text::texts(taken@), index) && id@ == session_id(
                        timestamp@,
                        index,
                    )
            },
            Err(SessionError::NoName) => is_session_id(timestamp@) && forall|index: u64|
                index >= 1 ==> text::texts(taken@).contains(
                    session_file(#[trigger] session_id(timestamp@, index)),
                ),
            Err(error) => error == SessionError::InvalidId && !is_session_id(timestamp@),
        },
{
    match validate_session_id(timestamp) {
        Err(error) => {
            return Err(error);
        },
        Ok(()) => {},
    }
    let mut index: u64 = 1;
    loop
        invariant
            index >= 1,
            is_session_id(timestamp@),
            forall|j: u64|
                1 <= j < index ==> text::texts(taken@).contains(
                    session_file(#[trigger] session_id(timestamp@, j)),
                ),
        decreases u64::MAX - index,
    {
        let id = session_id_of(timestamp, index);
        let mut file = id.clone();
        file.append(".json");
        if !lists(taken, file.as_str()) {
            assert(is_first_session(timestamp@, text::texts(taken@), index));
            proof {
                session_ids_are_valid(timestamp@, index);
            }
            return match session_path_in(directory, id.as_str()) {
                Err(error) => Err(error),
                Ok(path) => Ok((id, path)),
            };
        }
        if index == u64::MAX {
            return Err(SessionError::NoName);
        }
        index += 1;
    }
}

/// The name of the file that is tried in turn `index` for an export.
pub open spec fn export_file(index: u64) -> Seq<char> {
    if index == 1 {
        "thx-export.md"@
    } else {
        "thx-export-"@ + text::decimal(index as nat) + ".md"@
    }
}

/// Turn `index`, counted from 1, is the first in which the file to try for an export is not
/// among `taken`.
pub open spec fn is_first_export(taken: Seq<Seq<char>>, index: u64) -> bool {
    &&& index >= 1
    &&& !taken.contains(export_file(index))
    &&& forall|j: u64| 1 <= j < index ==> taken.contains(#[trigger] export_file(j))
}

/// The first name for an export that is not among `taken`; none where all are. Whoever finds
/// that the file is there adds it to `taken` and asks again.
pub fn export_name(taken: &Vec<String>) -> (r: Option<String>)
    ensures
        match r {
            Some(name) => exists|index: u64| #[trigger]
                is_first_export(text::texts(taken@), index) && name@ == export_file(index),
            None => forall|index: u64|
                index >= 1 ==> text::texts(taken@).contains(#[trigger] export_file(index)),
        },
{
    let mut index: u64 = 1;
    loop
        invariant
            index >= 1,
            forall|j: u64| 1 <= j < index ==> text::texts(taken@).contains(#[trigger] export_file(j)),
        decreases u64::MAX - index,
    {
        let name = if index == 1 {
            "thx-export.md".to_owned()
        } else {
            let mut name = "thx-export-".to_owned();
            push_decimal(&mut name, index as u128);
            name.append(".md");
            name
        };
        if !lists(taken, name.as_str()) {
            assert(is_first_export(text::texts(taken@), index));
            return Some(name);
        }
        if index == u64::MAX {
            return None;
        }
        index += 1;
    }
}

// ---------- Contents ----------

/// A session: the history for the model, and the messages.
#[derive(Debug)]
pub struct Session<H> {
    pub history: Vec<H>,
    pub messages: Vec<SavedMessage>,
}

/// The session to keep of a conversation; none where nothing was said to the model.
pub fn completed_session<H>(history: Vec<H>, ui: &Ui) -> (r: Result<Option<Session<H>>, SaveError>)
    ensures
        if history@.len() == 0 {
            r matches Ok(session) && session is None
        } else {
            match message::saved(ui@.messages) {
                Ok(messages) => r matches Ok(Some(session)) && session.history == history
                    && message::saved_models(session.messages@) == messages,
                Err(error) => r matches Err(e) && e == error,
            }
        },
{
    if history.len() == 0 {
        return Ok(None);
    }
    match ui.saved_messages() {
        Ok(messages) => Ok(Some(Session { history, messages })),
        Err(error) => Err(error),
    }
}

/// Keeps what a turn has added to the history, if it has.
pub fn keep_turn<H>(history: &mut Vec<H>, messages: Option<Vec<H>>)
    ensures
        final(history)@ == (match messages {
            Some(messages) => old(history)@ + messages@,
            None => old(history)@,
        }),
{
    if let Some(messages) = messages {
        let mut added = messages;
        history.append(&mut added);
    }
}

/// The state of a chat: the user interface, and the history for the model.
#[derive(Debug)]
pub struct ChatState<H> {
    pub ui: Ui,
    pub history: Vec<H>,
}

impl<H> ChatState<H> {
    /// The state at the start of a chat under the label `label`: that of a resumed session,
    /// if there is one. `next` is the next identifier of a call.
    pub fn new(
        label: String,
        context_window: Option<u64>,
        resumed: Option<Session<H>>,
        next: &mut u64,
    ) -> (r: ChatState<H>)
        ensures
            match resumed {
                None => r.ui@ == UiModel::fresh(label@, context_window) && r.history@.len() == 0
                    && *final(next) == *old(next),
                Some(session) => {
                    let messages = message::saved_models(session.messages@);
                    &&& r.ui@ == (UiModel {
                        messages: message::restored(messages, *old(next)),
                        ..UiModel::fresh(label@, context_window)
                    })
                    &&& r.history == session.history
                    &&& *final(next) == message::later_id(*old(next), message::saved_calls(messages))
                },
            },
    {
        match resumed {
            None => ChatState { ui: Ui::new(label, context_window), history: Vec::new() },
            Some(session) => ChatState {
                ui: Ui::from_saved(label, context_window, session.messages, next),
                history: session.history,
            },
        }
    }
}

// ---------- Laws ----------

/// Whatever number is put behind it, an identifier stays one.
pub proof fn session_ids_are_valid(timestamp: Seq<char>, index: u64)
    requires
        is_session_id(timestamp),
    ensures
        is_session_id(session_id(timestamp, index)),
{
    let id = session_id(timestamp, index);
    reveal_strlit("-");
    text::lemma_decimal(index as nat);
    assert forall|i: int| 0 <= i < id.len() implies is_id_char(#[trigger] id[i]) by {
        if i < timestamp.len() {
            assert(id[i] == timestamp[i]);
        } else if i == timestamp.len() {
            assert(id[i] == "-"@[0]);
        } else {
            assert(id[i] == text::decimal(index as nat)[i - timestamp.len() - 1]);
        }
    }
}

/// No two turns try the same identifier, so no session is kept in place of another.
pub proof fn session_ids_differ(timestamp: Seq<char>, a: u64, b: u64)
    requires
        a != b,
    ensures
        session_id(timestamp, a) != session_id(timestamp, b),
        session_file(session_id(timestamp, a)) != session_file(session_id(timestamp, b)),
{
    reveal_strlit("-");
    text::lemma_decimal(a as nat);
    text::lemma_decimal(b as nat);
    let x = session_id(timestamp, a);
    let y = session_id(timestamp, b);
    if x == y {
        if a != 1 && b != 1 {
            let n = timestamp.len() as int + 1;
            assert(x.skip(n) =~= text::decimal(a as nat));
            assert(y.skip(n) =~= text::decimal(b as nat));
            text::decimal_is_injective(a as nat, b as nat);
        } else {
            assert(x.len() == y.len());
        }
    }
    if session_file(x) == session_file(y) {
        assert(session_file(x).len() == x.len() + ".json"@.len());
        assert(session_file(y).len() == y.len() + ".json"@.len());
        assert(session_file(x).take(x.len() as int) =~= x);
        assert(session_file(y).take(y.len() as int) =~= y);
    }
}

/// The file of a session stands in the directory itself: its name leads nowhere else.
pub proof fn session_files_stay_in_the_directory(id: Seq<char>)
    requires
        is_session_id(id),
    ensures
        !session_file(id).contains('/'),
        !session_file(id).contains('\\'),
        session_file(id) != "."@,
        session_file(id) != ".."@,
{
    reveal_strlit(".json");
    reveal_strlit(".");
    reveal_strlit("..");
    let file = session_file(id);
    assert(file.len() >= 6);
    assert forall|i: int| 0 <= i < file.len() implies file[i] != '/' && file[i] != '\\' by {
        if i < id.len() {
            assert(is_id_char(id[i]));
        } else {
            assert(file[i] == ".json"@[i - id.len()]);
        }
    }
}

/// No two turns try the same file for an export, so no export is written over another.
pub proof fn export_files_differ(a: u64, b: u64)
    requires
        a != b,
    ensures
        export_file(a) != export_file(b),
{
    reveal_strlit("thx-export.md");
    reveal_strlit("thx-export-");
    reveal_strlit(".md");
    text::lemma_decimal(a as nat);
    text::lemma_decimal(b as nat);
    let x = export_file(a);
    let y = export_file(b);
    if x == y {
        if a != 1 && b != 1 {
            assert(x.len() == text::decimal(a as nat).len() + 14);
            assert(y.len() == text::decimal(b as nat).len() + 14);
            assert(x.subrange(11, x.len() - 3) =~= text::decimal(a as nat));
            assert(y.subrange(11, y.len() - 3) =~= text::decimal(b as nat));
            text::decimal_is_injective(a as nat, b as nat);
        } else {
            assert(x[10] == y[10]);
        }
    }
}

/// Where every name in `taken` belongs to a file that is there, and the file of the identifier
/// that is chosen is not, it is the least of those that are not there.
pub proof fn the_first_free_session_is_chosen(
    timestamp: Seq<char>,
    taken: Seq<Seq<char>>,
    index: u64,
    is_there: spec_fn(Seq<char>) -> bool,
)
    requires
        is_first_session(timestamp, taken, index),
        forall|i: int| 0 <= i < taken.len() ==> is_there(#[trigger] taken[i]),
        !is_there(session_file(session_id(timestamp, index))),
    ensures
        forall|j: u64|
            1 <= j && !is_there(session_file(#[trigger] session_id(timestamp, j))) ==> index <= j,
{
    assert forall|j: u64|
        1 <= j && !is_there(session_file(#[trigger] session_id(timestamp, j))) implies index
        <= j by {
        if j < index {
            assert(taken.contains(session_file(session_id(timestamp, j))));
        }
    }
}

/// Where every name in `taken` belongs to a file that is there, and the file of the name that
/// is chosen is not, it is the least of those that are not there.
pub proof fn the_first_free_export_is_chosen(
    taken: Seq<Seq<char>>,
    index: u64,
    is_there: spec_fn(Seq<char>) -> bool,
)
    requires
        is_first_export(taken, index),
        forall|i: int| 0 <= i < taken.len() ==> is_there(#[trigger] taken[i]),
        !is_there(export_file(index)),
    ensures
        forall|j: u64| 1 <= j && !is_there(#[trigger] export_file(j)) ==> index <= j,
{
    assert forall|j: u64| 1 <= j && !is_there(#[trigger] export_file(j)) implies index <= j by {
        if j < index {
            assert(taken.contains(export_file(j)));
        }
    }
}

/// A session is resumed exactly where the program is given `--resume` and an identifier, and it
/// is the one with that identifier; nothing else but no argument at all is understood.
pub proof fn sessions_are_resumed_by_their_identifier(args: Seq<Option<String>>)
    ensures
        args.len() == 0 <==> resumed_id(args) == Ok::<Option<Seq<char>>, SessionError>(None),
        resumed_id(args) matches Ok(Some(id)) ==> args.len() == 2 && thinking::optional(args[0]) == Some(
            "--resume"@,
        ) && thinking::optional(args[1]) == Some(id) && is_session_id(id),
        args.len() == 2 && thinking::optional(args[0]) == Some("--resume"@) && (args[1] matches Some(id)
            && is_session_id(id@)) ==> resumed_id(args) == Ok::<_, SessionError>(
            thinking::optional(args[1]),
        ),
{
}

/// An identifier is made of digits and hyphens, and of nothing else.
pub proof fn identifiers_are_digits_and_hyphens(id: Seq<char>)
    ensures
        is_session_id(id) <==> id.len() > 0 && forall|i: int|
            0 <= i < id.len() ==> '0' <= (#[trigger] id[i]) <= '9' || id[i] == '-',
{
    if id.len() > 0 && forall|i: int|
        0 <= i < id.len() ==> '0' <= (#[trigger] id[i]) <= '9' || id[i] == '-' {
        assert forall|i: int| 0 <= i < id.len() implies is_id_char(#[trigger] id[i]) by {}
    }
}

} // verus!
