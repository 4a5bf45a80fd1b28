//! The line that the user types: its text and its cursor.
use crossterm::event;
use tui_prompts::State;
use vstd::prelude::*;
use vstd::string::*;
use crate::text;
use crate::text::{has_char, push_range, slice_text, split_text, to_chars};
use crate::truncate;

verus! {

// ---------- Keys ----------

/// A key of the keyboard.
#[derive(Debug, Clone, Copy, PartialEq, Eq, Structural)]
pub enum KeyName {
    Enter,
    Esc,
    Up,
    Down,
    PageUp,
    PageDown,
    Left,
    Right,
    Home,
    End,
    Backspace,
    Delete,
    Char(char),
    Other,
}

/// A key press: the key, and the modifiers that are held.
#[derive(Debug, Clone, Copy, PartialEq, Eq, Structural)]
pub struct Key {
    pub code: KeyName,
    pub shift: bool,
    pub control: bool,
    pub other: bool,
}

impl Key {
    /// Control is held and nothing else.
    pub open spec fn only_control(self) -> bool {
        self.control && !self.shift && !self.other
    }

    /// Nothing is held but shift, if anything.
    pub open spec fn is_plain(self) -> bool {
        !self.control && !self.other
    }
}

// ---------- State ----------

/// What the user types, and where the cursor stands in it, counted in characters.
#[derive(Debug)]
pub struct Input {
    pub value: String,
    pub position: usize,
}

/// What an `Input` holds.
#[verifier::ext_equal]
pub struct InputModel {
    pub value: Seq<char>,
    pub position: usize,
}

impl View for Input {
    type V = InputModel;

    open spec fn view(&self) -> InputModel {
        InputModel { value: self.value@, position: self.position }
    }
}

/// The first `n` characters of `s`, or all of them.
pub open spec fn head(s: Seq<char>, n: nat) -> Seq<char> {
    if n <= s.len() {
        s.take(n as int)
    } else {
        s
    }
}

/// What follows the first `n` characters of `s`.
pub open spec fn rest(s: Seq<char>, n: nat) -> Seq<char> {
    if n <= s.len() {
        s.skip(n as int)
    } else {
        Seq::empty()
    }
}

/// `position` moved on by `count`, up to the greatest number.
pub open spec fn moved_on(position: usize, count: nat) -> usize {
    if position + count <= usize::MAX {
        (position + count) as usize
    } else {
        usize::MAX
    }
}

/// `text` with every line break written as one line feed: a carriage return, with the line
/// feed that may follow it, becomes one.
pub open spec fn with_line_feeds(text: Seq<char>) -> Seq<char>
    decreases text.len(),
{
    if text.len() == 0 {
        Seq::empty()
    } else {
        let start = with_line_feeds(text.drop_last());
        if text.last() == '\r' {
            start.push('\n')
        } else if text.last() == '\n' && text.len() > 1 && text[text.len() - 2] == '\r' {
            start
        } else {
            start.push(text.last())
        }
    }
}

impl InputModel {
    /// Nothing typed.
    pub open spec fn empty() -> InputModel {
        InputModel { value: Seq::empty(), position: 0 }
    }

    /// `text` typed at the cursor.
    pub open spec fn with(self, text: Seq<char>) -> InputModel {
        InputModel {
            value: head(self.value, self.position as nat) + text + rest(
                self.value,
                self.position as nat,
            ),
            position: moved_on(self.position, text.len()),
        }
    }

    /// `text` pasted at the cursor.
    pub open spec fn inserted(self, text: Seq<char>) -> InputModel {
        self.with(with_line_feeds(text))
    }
}

/// The characters of `text` with every line break written as one line feed.
fn line_feeds(text: &str) -> (r: Vec<char>)
    ensures
        r@ == with_line_feeds(text@),
{
    let chars = to_chars(text);
    let mut out: Vec<char> = Vec::new();
    let mut i: usize = 0;
    assert(chars@.take(0) =~= Seq::empty());
    while i < chars.len()
        invariant
            i <= chars@.len(),
            out@ == with_line_feeds(chars@.take(i as int)),
        decreases chars.len() - i,
    {
        assert(chars@.take(i + 1).drop_last() =~= chars@.take(i as int));
        if chars[i] == '\r' {
            out.push('\n');
        } else if !(chars[i] == '\n' && i > 0 && chars[i - 1] == '\r') {
            out.push(chars[i]);
        }
        i += 1;
    }
    assert(chars@.take(i as int) =~= chars@);
    out
}

impl Input {
    /// Nothing typed.
    pub fn new() -> (r: Input)
        ensures
            r@ == InputModel::empty(),
    {
        let value = String::new();
        assert(value@ =~= Seq::empty());
        Input { value, position: 0 }
    }

    /// Removes all that is typed.
    pub fn clear(&mut self)
        ensures
            final(self)@ == InputModel::empty(),
    {
        self.value = String::new();
        self.position = 0;
        assert(self.value@ =~= Seq::empty());
    }

    /// Inserts `text` at the cursor.
    pub fn insert(&mut self, text: &str)
        ensures
            final(self)@ == old(self)@.inserted(text@),
    {
        let chars = to_chars(self.value.as_str());
        let added = line_feeds(text);
        let at = if self.position < chars.len() {
            self.position
        } else {
            chars.len()
        };
        let mut value = slice_text(&chars, 0, at);
        assert(value@ =~= head(chars@, self.position as nat));
        push_range(&mut value, &added, 0, added.len());
        assert(added@.subrange(0, added@.len() as int) =~= added@);
        push_range(&mut value, &chars, at, chars.len());
        assert(chars@.subrange(at as int, chars@.len() as int) =~= rest(
            chars@,
            self.position as nat,
        ));
        self.value = value;
        self.position = self.position.saturating_add(added.len());
    }

    /// Removes all that is typed, and returns it.
    pub fn take(&mut self) -> (r: String)
        ensures
            r@ == old(self)@.value,
            final(self)@ == InputModel::empty(),
    {
        let value = self.value.clone();
        self.clear();
        value
    }
}

// ---------- Moving between lines ----------

/// Where line `k` starts, when `lines` are the lines of a text.
pub open spec fn line_start(lines: Seq<Seq<char>>, k: nat) -> nat
    decreases k,
{
    if k == 0 {
        0
    } else {
        line_start(lines, (k - 1) as nat) + lines[k - 1].len() + 1
    }
}

/// The first line from line `k` on that reaches `position`.
pub open spec fn line_at(lines: Seq<Seq<char>>, position: nat, k: nat) -> nat
    decreases lines.len() - k,
{
    if k + 1 >= lines.len() || position <= line_start(lines, k) + lines[k as int].len() {
        k
    } else {
        line_at(lines, position, k + 1)
    }
}

/// The position a line up or down from `position`, in the same column if the line is long
/// enough for it, else at its end. On the first line up, and on the last line down, stay on
/// the line.
pub open spec fn vertical(value: Seq<char>, position: nat, down: bool) -> nat {
    let lines = text::split(value, '\n');
    let line = line_at(lines, position, 0);
    let column = position - line_start(lines, line);
    let target = if down {
        if line + 1 < lines.len() {
            line + 1
        } else {
            (lines.len() - 1) as nat
        }
    } else if line > 0 {
        (line - 1) as nat
    } else {
        0
    };
    let len = lines[target as int].len();
    line_start(lines, target) + if column <= len {
        column as nat
    } else {
        len
    }
}

/// The lines of a text are as long as the text, but for the line breaks between them.
pub proof fn lemma_lines_len(value: Seq<char>)
    ensures
        text::split(value, '\n').len() > 0,
        line_start(text::split(value, '\n'), text::split(value, '\n').len()) == value.len() + 1,
    decreases value.len(),
{
    let lines = text::split(value, '\n');
    text::lemma_split_nonempty(value, '\n');
    if value.len() > 0 {
        let d = value.drop_last();
        let before = text::split(d, '\n');
        text::lemma_split_nonempty(d, '\n');
        lemma_lines_len(d);
        let n = before.len();
        lemma_line_start_prefix(before, lines, (n - 1) as nat);
        if value.last() == '\n' {
            lemma_line_start_prefix(before, lines, n);
        }
    } else {
        assert(lines.len() == 1);
        assert(line_start(lines, 1) == line_start(lines, 0) + lines[0].len() + 1);
    }
}

proof fn lemma_line_start_prefix(a: Seq<Seq<char>>, b: Seq<Seq<char>>, k: nat)
    requires
        forall|i: int| 0 <= i < k ==> a[i] == b[i],
    ensures
        line_start(a, k) == line_start(b, k),
    decreases k,
{
    if k > 0 {
        lemma_line_start_prefix(a, b, (k - 1) as nat);
    }
}

proof fn lemma_line_start_grows(lines: Seq<Seq<char>>, j: nat, k: nat)
    requires
        j <= k <= lines.len(),
    ensures
        line_start(lines, j) <= line_start(lines, k),
    decreases k,
{
    if j < k {
        lemma_line_start_grows(lines, j, (k - 1) as nat);
    }
}

impl InputModel {
    /// The cursor a line up or down, where there is more than one line.
    pub open spec fn moved_vertically(self, down: bool) -> InputModel {
        if self.value.contains('\n') {
            InputModel {
                position: vertical(self.value, self.position as nat, down) as usize,
                ..self
            }
        } else {
            self
        }
    }

    /// The cursor stands inside the text, or right behind it, where there are lines to move
    /// between.
    pub open spec fn can_move(self) -> bool {
        self.value.contains('\n') ==> self.position <= self.value.len()
    }
}

impl Input {
    /// Moves the cursor a line up or down, where there is more than one line, and tells
    /// whether there is.
    pub fn move_vertical(&mut self, down: bool) -> (r: bool)
        requires
            old(self)@.can_move(),
        ensures
            r == old(self)@.value.contains('\n'),
            final(self)@ == old(self)@.moved_vertically(down),
    {
        if !has_char(self.value.as_str(), '\n') {
            return false;
        }
        let total: usize = self.value.as_str().unicode_len();
        let lines = split_text(self.value.as_str(), '\n');
        let ghost views = text::split(self.value@, '\n');
        let ghost position = self.position as nat;
        proof {
            lemma_lines_len(self.value@);
        }
        assert(text::texts(lines@) == views);
        let mut start: usize = 0;
        let mut line: usize = 0;
        let mut previous: usize = 0;
        let mut len: usize = lines[0].as_str().unicode_len();
        assert(lines@[0]@ == views[0]);
        while line + 1 < lines.len() && self.position - start > len
            invariant
                text::texts(lines@) == views,
                line < lines@.len(),
                views.len() == lines@.len(),
                position == self.position,
                position <= total,
                line_start(views, views.len()) == total + 1,
                start == line_start(views, line as nat),
                start <= position,
                len == views[line as int].len(),
                previous == (if line > 0 {
                    line_start(views, (line - 1) as nat)
                } else {
                    0
                }),
                line_at(views, position, 0) == line_at(views, position, line as nat),
            decreases lines.len() - line,
        {
            proof {
                lemma_line_start_grows(views, (line + 1) as nat, views.len());
                assert(lines@[line + 1]@ == views[line + 1]);
            }
            previous = start;
            start = start + len + 1;
            line += 1;
            len = lines[line].as_str().unicode_len();
        }
        let column: usize = self.position - start;
        let target_start: usize;
        let target_len: usize;
        if down {
            if line + 1 < lines.len() {
                proof {
                    lemma_line_start_grows(views, (line + 2) as nat, views.len());
                    assert(lines@[line + 1]@ == views[line + 1]);
                    assert(line_start(views, (line + 1) as nat) == start + len + 1);
                    assert(line_start(views, (line + 2) as nat) == line_start(
                        views,
                        (line + 1) as nat,
                    ) + views[line + 1].len() + 1);
                }
                target_start = start + len + 1;
                target_len = lines[line + 1].as_str().unicode_len();
            } else {
                proof {
                    assert(line + 1 == views.len());
                    assert(line_start(views, (line + 1) as nat) == start + len + 1);
                }
                target_start = start;
                target_len = len;
            }
        } else if line > 0 {
            proof {
                assert(lines@[line - 1]@ == views[line - 1]);
                assert(start == line_start(views, (line - 1) as nat) + views[line - 1].len() + 1);
            }
            target_start = previous;
            target_len = lines[line - 1].as_str().unicode_len();
        } else {
            proof {
                lemma_line_start_grows(views, 1, views.len());
                assert(line_start(views, 1) == line_start(views, 0) + views[0].len() + 1);
            }
            target_start = 0;
            target_len = len;
        }
        assert(target_start + target_len <= total);
        self.position = target_start + if column < target_len {
            column
        } else {
            target_len
        };
        true
    }
}

/// Moving up or down leaves the cursor inside the text, or right behind it.
pub proof fn moving_stays_inside(value: Seq<char>, position: nat, down: bool)
    requires
        position <= value.len(),
    ensures
        vertical(value, position, down) <= value.len(),
{
    let lines = text::split(value, '\n');
    lemma_lines_len(value);
    lemma_line_at(lines, position, 0);
    let line = line_at(lines, position, 0);
    let n = lines.len();
    if down && line + 1 < n {
        lemma_line_start_grows(lines, line + 2, n);
        assert(line_start(lines, line + 2) == line_start(lines, line + 1) + lines[line as int
            + 1].len() + 1);
    } else if !down && line > 0 {
        lemma_line_start_grows(lines, line, n);
    } else {
        lemma_line_start_grows(lines, line + 1, n);
        assert(line_start(lines, line + 1) == line_start(lines, line) + lines[line as int].len()
            + 1);
        if !down {
            assert(line_start(lines, 1) == line_start(lines, 0) + lines[0].len() + 1);
        }
    }
}

proof fn lemma_line_at(lines: Seq<Seq<char>>, position: nat, k: nat)
    requires
        k < lines.len(),
        line_start(lines, k) <= position,
    ensures
        k <= line_at(lines, position, k) < lines.len(),
        line_start(lines, line_at(lines, position, k)) <= position,
    decreases lines.len() - k,
{
    if !(k + 1 >= lines.len() || position <= line_start(lines, k) + lines[k as int].len()) {
        lemma_line_at(lines, position, k + 1);
    }
}

// ---------- Editing ----------

/// Cutting a text to `n` bytes leaves whole characters.
pub open spec fn cuts_cleanly(s: Seq<char>, n: nat) -> bool {
    n >= text::utf8_len(s) || text::utf8_len(truncate::prefix_within(s, n)) == n
}

impl InputModel {
    /// What a key does to the input.
    pub open spec fn edited(self, key: Key) -> InputModel {
        let at = self.position as nat;
        let control = key.only_control();
        match key.code {
            KeyName::Left => self.left(),
            KeyName::Right => self.right(),
            KeyName::Home => InputModel { position: 0, ..self },
            KeyName::End => InputModel { position: self.value.len() as usize, ..self },
            KeyName::Backspace => self.without_previous(),
            KeyName::Delete => self.without_next(),
            KeyName::Char(c) => if key.is_plain() {
                self.with(seq![c])
            } else if control && c == 'b' {
                self.left()
            } else if control && c == 'f' {
                self.right()
            } else if control && c == 'a' {
                InputModel { position: 0, ..self }
            } else if control && c == 'e' {
                InputModel { position: self.value.len() as usize, ..self }
            } else if control && c == 'h' {
                self.without_previous()
            } else if control && c == 'd' {
                self.without_next()
            } else if control && c == 'k' {
                InputModel { value: truncate::prefix_within(self.value, at), ..self }
            } else if control && c == 'u' {
                InputModel::empty()
            } else {
                self
            },
            _ => self,
        }
    }

    /// The cursor a character to the left.
    pub open spec fn left(self) -> InputModel {
        if self.position == 0 {
            self
        } else {
            InputModel { position: (self.position - 1) as usize, ..self }
        }
    }

    /// The cursor a character to the right.
    pub open spec fn right(self) -> InputModel {
        if self.position == self.value.len() {
            self
        } else {
            InputModel { position: moved_on(self.position, 1), ..self }
        }
    }

    /// Without the character before the cursor.
    pub open spec fn without_previous(self) -> InputModel {
        if self.position == 0 {
            self
        } else {
            InputModel {
                value: head(self.value, (self.position - 1) as nat) + rest(
                    self.value,
                    self.position as nat,
                ),
                position: (self.position - 1) as usize,
            }
        }
    }

    /// Without the character at the cursor.
    pub open spec fn without_next(self) -> InputModel {
        InputModel {
            value: head(self.value, self.position as nat) + rest(
                self.value,
                self.position as nat + 1,
            ),
            ..self
        }
    }

    /// The key can be handled: where it cuts the text off, it cuts between characters, and
    /// where it deletes the character at the cursor, there is a position behind that.
    pub open spec fn takes(self, key: Key) -> bool {
        &&& key.only_control() && key.code == KeyName::Char('k') ==> cuts_cleanly(
            self.value,
            self.position as nat,
        )
        &&& key.code == KeyName::Delete || (key.only_control() && key.code == KeyName::Char('d'))
            ==> self.position < usize::MAX
    }
}

/// `crossterm`'s name of a key.
#[verifier::external_type_specification]
#[verifier::external_body]
pub struct ExTerminalKeyCode(crossterm::event::KeyCode);

/// `crossterm`'s key event, in which a key press is handed to the editor.
#[verifier::external_type_specification]
#[verifier::external_body]
pub struct ExKeyEvent(crossterm::event::KeyEvent);

/// The same key as `crossterm` names it; any other key is its null key.
#[verifier::external_body]
fn terminal_code(code: KeyName) -> event::KeyCode {
    match code {
        KeyName::Enter => event::KeyCode::Enter,
        KeyName::Esc => event::KeyCode::Esc,
        KeyName::Up => event::KeyCode::Up,
        KeyName::Down => event::KeyCode::Down,
        KeyName::PageUp => event::KeyCode::PageUp,
        KeyName::PageDown => event::KeyCode::PageDown,
        KeyName::Left => event::KeyCode::Left,
        KeyName::Right => event::KeyCode::Right,
        KeyName::Home => event::KeyCode::Home, KeyName::End => event::KeyCode::End,
        KeyName::Backspace => event::KeyCode::Backspace,
        KeyName::Delete => event::KeyCode::Delete,
        KeyName::Char(c) => event::KeyCode::Char(c), KeyName::Other => event::KeyCode::Null,
    }
}

/// The same key press as `crossterm` holds it; any other modifier is Alt.
#[verifier::external_body]
fn key_event(key: &Key) -> event::KeyEvent {
    let mut modifiers = event::KeyModifiers::NONE;
    modifiers.set(event::KeyModifiers::SHIFT, key.shift);
    modifiers.set(event::KeyModifiers::CONTROL, key.control);
    modifiers.set(event::KeyModifiers::ALT, key.other);
    event::KeyEvent::new(terminal_code(key.code), modifiers)
}

/// Hands a key press to the editor of `tui_prompts`: a `TextState` with the value and the
/// position handles the key event, and its value and position are returned. Of the keys that
/// it knows, the contract says what they do; any other leaves both as they are. Control and
/// `k` cut the value by bytes, and the editor panics where that splits a character; so it does
/// where deleting at the cursor finds no position behind the greatest.
#[verifier::external_body]
fn edit(value: &str, position: usize, key: &Key) -> (r: (String, usize))
    requires
        (InputModel { value: value@, position }).takes(*key),
    ensures
        (InputModel { value: r.0@, position: r.1 }) == (InputModel {
            value: value@,
            position,
        }).edited(*key),
{
    let mut state = tui_prompts::TextState::new().with_value(value.to_owned());
    *state.position_mut() = position;
    state.handle_key_event(key_event(key));
    (state.value().to_owned(), state.position())
}

impl Input {
    /// Handles a key press.
    pub fn handle_key_event(&mut self, key: &Key)
        requires
            old(self)@.takes(*key),
        ensures
            final(self)@ == old(self)@.edited(*key),
    {
        let (value, position) = edit(self.value.as_str(), self.position, key);
        self.value = value;
        self.position = position;
    }
}

// ---------- Laws ----------

/// Typing a character and deleting it backwards leaves the input as it was, where the cursor
/// stands inside the text or right behind it.
pub proof fn backspace_undoes_typing(input: InputModel, c: char)
    requires
        input.position <= input.value.len(),
        input.position < usize::MAX,
    ensures
        input.with(seq![c]).without_previous() == input,
{
    let at = input.position as int;
    let typed = input.with(seq![c]);
    assert(typed.value.take(at) =~= input.value.take(at));
    assert(typed.value.skip(at + 1) =~= input.value.skip(at));
    assert(input.value.take(at) + input.value.skip(at) =~= input.value);
}

/// Pasting keeps what was there, on both sides of what is pasted.
pub proof fn pasting_keeps_the_rest(input: InputModel, text: Seq<char>)
    requires
        input.position <= input.value.len(),
    ensures
        ({
            let at = input.position as int;
            let pasted = input.inserted(text);
            let added = with_line_feeds(text);
            &&& pasted.value.len() == input.value.len() + added.len()
            &&& pasted.value.take(at) == input.value.take(at)
            &&& pasted.value.subrange(at, at + added.len()) == added
            &&& pasted.value.skip(at + added.len()) == input.value.skip(at)
        }),
{
    let at = input.position as int;
    let pasted = input.inserted(text);
    let added = with_line_feeds(text);
    assert(pasted.value.take(at) =~= input.value.take(at));
    assert(pasted.value.subrange(at, at + added.len()) =~= added);
    assert(pasted.value.skip(at + added.len()) =~= input.value.skip(at));
}

/// What is pasted holds no carriage return, and holds as it is what had none.
pub proof fn pasted_lines_end_in_line_feeds(text: Seq<char>)
    ensures
        !with_line_feeds(text).contains('\r'),
        !text.contains('\r') ==> with_line_feeds(text) == text,
    decreases text.len(),
{
    if text.len() > 0 {
        let d = text.drop_last();
        pasted_lines_end_in_line_feeds(d);
        let start = with_line_feeds(d);
        let all = with_line_feeds(text);
        assert forall|i: int| 0 <= i < all.len() implies all[i] != '\r' by {
            if i < start.len() {
                assert(all[i] == start[i]);
            }
        }
        if !text.contains('\r') {
            assert forall|i: int| 0 <= i < d.len() implies d[i] != '\r' by {
                assert(d[i] == text[i]);
            }
            assert(text[text.len() - 1] != '\r');
            if text.len() > 1 {
                assert(text[text.len() - 2] != '\r');
            }
            assert(d.push(text.last()) =~= text);
        }
    } else {
        assert(with_line_feeds(text) =~= text);
    }
}

/// Whatever key is pressed, the cursor stays inside the text or right behind it, but for the
/// key that cuts the text off: that counts bytes.
pub proof fn keys_keep_the_cursor_inside(input: InputModel, key: Key)
    requires
        input.position <= input.value.len() <= usize::MAX,
        !(key.only_control() && key.code == KeyName::Char('k')),
    ensures
        input.edited(key).position <= input.edited(key).value.len(),
{
}

/// Wherever text is pasted, the cursor stays inside the text or right behind it.
pub proof fn pasting_keeps_the_cursor_inside(input: InputModel, text: Seq<char>)
    requires
        input.position <= input.value.len(),
    ensures
        input.inserted(text).position <= input.inserted(text).value.len(),
{
}

/// Every key does to the text around the cursor what it is for.
pub proof fn keys_edit_at_the_cursor(input: InputModel, key: Key)
    requires
        input.position <= input.value.len() < usize::MAX,
        !key.control && !key.other,
    ensures
        ({
            let at = input.position as int;
            let after = input.edited(key);
            &&& key.code matches KeyName::Char(c) ==> after.value.len() == input.value.len() + 1
                && after.value[at] == c && after.value.take(at) == input.value.take(at)
                && after.value.skip(at + 1) == input.value.skip(at) && after.position == at + 1
            &&& key.code == KeyName::Backspace && at > 0 ==> after.value.len() == input.value.len()
                - 1 && after.value.take(at - 1) == input.value.take(at - 1) && after.value.skip(
                at - 1,
            ) == input.value.skip(at) && after.position == at - 1
            &&& key.code == KeyName::Delete && at < input.value.len() ==> after.value.len()
                == input.value.len() - 1 && after.value.take(at) == input.value.take(at)
                && after.value.skip(at) == input.value.skip(at + 1) && after.position == at
            &&& key.code == KeyName::Left ==> after.value == input.value && after.position == (
            if at > 0 {
                at - 1
            } else {
                0
            })
            &&& key.code == KeyName::Right ==> after.value == input.value && after.position == (
            if at < input.value.len() {
                at + 1
            } else {
                at
            })
            &&& key.code == KeyName::Home ==> after.value == input.value && after.position == 0
            &&& key.code == KeyName::End ==> after.value == input.value && after.position
                == input.value.len()
        }),
{
    let at = input.position as int;
    let after = input.edited(key);
    if let KeyName::Char(c) = key.code {
        assert(after.value.take(at) =~= input.value.take(at));
        assert(after.value.skip(at + 1) =~= input.value.skip(at));
    } else if key.code == KeyName::Backspace && at > 0 {
        assert(after.value.take(at - 1) =~= input.value.take(at - 1));
        assert(after.value.skip(at - 1) =~= input.value.skip(at));
    } else if key.code == KeyName::Delete && at < input.value.len() {
        assert(after.value.take(at) =~= input.value.take(at));
        assert(after.value.skip(at) =~= input.value.skip(at + 1));
    }
}

/// With Control, letters stand for the keys that move and delete.
pub proof fn letters_stand_for_keys(input: InputModel, letter: Key, key: Key)
    requires
        letter.only_control(),
        key.code == KeyName::Left && letter.code == KeyName::Char('b') || (key.code
            == KeyName::Right && letter.code == KeyName::Char('f')) || (key.code == KeyName::Home
            && letter.code == KeyName::Char('a')) || (key.code == KeyName::End && letter.code
            == KeyName::Char('e')) || (key.code == KeyName::Backspace && letter.code
            == KeyName::Char('h')) || (key.code == KeyName::Delete && letter.code
            == KeyName::Char('d')),
    ensures
        input.edited(letter) == input.edited(key),
{
}

proof fn lemma_feeds_behind(start: Seq<char>, b: Seq<char>)
    requires
        start.len() > 0 && start.last() == '\r' ==> !(b.len() > 0 && b[0] == '\n'),
    ensures
        with_line_feeds(start + b) == with_line_feeds(start) + with_line_feeds(b),
    decreases b.len(),
{
    let all = start + b;
    if b.len() == 0 {
        assert(all =~= start);
        assert(with_line_feeds(start) + with_line_feeds(b) =~= with_line_feeds(start));
    } else {
        let d = b.drop_last();
        assert(all.drop_last() =~= start + d);
        assert(all.last() == b.last());
        lemma_feeds_behind(start, d);
        let head = with_line_feeds(start);
        if b.len() > 1 {
            assert(all[all.len() - 2] == b[b.len() - 2]);
        } else if start.len() > 0 {
            assert(all[all.len() - 2] == start.last());
        }
        assert((head + with_line_feeds(d)).push('\n') =~= head + with_line_feeds(d).push('\n'));
        assert((head + with_line_feeds(d)).push(b.last()) =~= head + with_line_feeds(d).push(
            b.last(),
        ));
    }
}

/// However a line break is written in what is pasted, with a carriage return, a line feed or
/// both, it becomes one line feed, and what stands on both sides of it stays.
pub proof fn line_breaks_become_one_line_feed(a: Seq<char>, b: Seq<char>)
    requires
        a.len() > 0 ==> a.last() != '\r',
        b.len() > 0 ==> b[0] != '\n',
    ensures
        with_line_feeds(a + seq!['\r', '\n'] + b) == with_line_feeds(a) + seq!['\n']
            + with_line_feeds(b),
        with_line_feeds(a + seq!['\r'] + b) == with_line_feeds(a) + seq!['\n'] + with_line_feeds(b),
        with_line_feeds(a + seq!['\n'] + b) == with_line_feeds(a) + seq!['\n'] + with_line_feeds(b),
{
    reveal_with_fuel(with_line_feeds, 3);
    let both = seq!['\r', '\n'];
    let ret = seq!['\r'];
    let feed = seq!['\n'];
    assert(both.drop_last() =~= ret);
    assert(ret.drop_last() =~= Seq::empty());
    assert(feed.drop_last() =~= Seq::empty());
    assert(Seq::<char>::empty().push('\n') =~= feed);
    lemma_feeds_behind(a, both);
    lemma_feeds_behind(a, ret);
    lemma_feeds_behind(a, feed);
    lemma_feeds_behind(a + both, b);
    lemma_feeds_behind(a + ret, b);
    lemma_feeds_behind(a + feed, b);
}

/// Control and `k` cut off what stands behind the cursor, in a text of ASCII characters, and
/// Control and `u` remove all of it.
pub proof fn cutting_keeps_what_is_before_the_cursor(input: InputModel, key: Key)
    requires
        key.only_control(),
        input.position <= input.value.len(),
        forall|i: int| 0 <= i < input.value.len() ==> (#[trigger] input.value[i]) as u32 <= 0x7f,
    ensures
        key.code == KeyName::Char('k') ==> input.edited(key).value == input.value.take(
            input.position as int,
        ) && input.edited(key).position == input.position,
        key.code == KeyName::Char('u') ==> input.edited(key).value.len() == 0 && input.edited(
            key,
        ).position == 0,
{
    lemma_ascii_prefix(input.value, input.position as nat);
}

proof fn lemma_ascii_len(s: Seq<char>)
    requires
        forall|i: int| 0 <= i < s.len() ==> (#[trigger] s[i]) as u32 <= 0x7f,
    ensures
        text::utf8_len(s) == s.len(),
    decreases s.len(),
{
    if s.len() > 0 {
        let d = s.drop_last();
        assert forall|i: int| 0 <= i < d.len() implies (#[trigger] d[i]) as u32 <= 0x7f by {
            assert(s[i] as u32 <= 0x7f);
        }
        lemma_ascii_len(d);
        let c = s[s.len() - 1];
        assert(s =~= d + seq![c]);
        text::lemma_utf8_len_add(d, seq![c]);
        text::lemma_utf8_len_one(c);
        assert(c as u32 <= 0x7f);
    }
}

proof fn lemma_ascii_prefix(s: Seq<char>, n: nat)
    requires
        n <= s.len(),
        forall|i: int| 0 <= i < s.len() ==> (#[trigger] s[i]) as u32 <= 0x7f,
    ensures
        truncate::prefix_within(s, n) == s.take(n as int),
    decreases s.len(),
{
    lemma_ascii_len(s);
    if n == s.len() {
        assert(s.take(n as int) =~= s);
    } else {
        let d = s.drop_last();
        assert forall|i: int| 0 <= i < d.len() implies (#[trigger] d[i]) as u32 <= 0x7f by {
            assert(s[i] as u32 <= 0x7f);
        }
        lemma_ascii_prefix(d, n);
        assert(d.take(n as int) =~= s.take(n as int));
    }
}

proof fn lemma_line_at_is(lines: Seq<Seq<char>>, position: nat, j: nat, k: nat)
    requires
        j <= k < lines.len(),
        line_start(lines, k) <= position <= line_start(lines, k) + lines[k as int].len(),
    ensures
        line_at(lines, position, j) == k,
    decreases k - j,
{
    if j < k {
        lemma_line_start_grows(lines, j + 1, k);
        assert(line_start(lines, j + 1) == line_start(lines, j) + lines[j as int].len() + 1);
        lemma_line_at_is(lines, position, j + 1, k);
    }
}

/// What stands before a line is nothing, or ends in a line break.
pub open spec fn ends_line(before: Seq<char>) -> bool {
    before.len() == 0 || before.last() == '\n'
}

/// What stands behind a line is nothing, or starts with a line break.
pub open spec fn starts_behind_line(behind: Seq<char>) -> bool {
    behind.len() == 0 || behind[0] == '\n'
}

proof fn lemma_two_lines(before: Seq<char>, x: Seq<char>, y: Seq<char>, behind: Seq<char>) -> (k: nat)
    requires
        ends_line(before),
        starts_behind_line(behind),
        !x.contains('\n'),
        !y.contains('\n'),
    ensures
        ({
            let lines = text::split(before + x + seq!['\n'] + y + behind, '\n');
            &&& k + 1 < lines.len()
            &&& lines[k as int] == x
            &&& lines[k as int + 1] == y
            &&& line_start(lines, k) == before.len()
        }),
{
    let value = before + x + seq!['\n'] + y + behind;
    let lines = text::split(value, '\n');
    let tail = y + behind;
    text::lemma_split_one(x, '\n');
    text::lemma_split_one(y, '\n');
    text::lemma_split_at(x, '\n', tail);
    let ends = text::split(tail, '\n');
    if behind.len() == 0 {
        assert(tail =~= y);
    } else {
        let more = behind.drop_first();
        assert(tail =~= y + seq!['\n'] + more);
        text::lemma_split_at(y, '\n', more);
    }
    assert(ends.len() > 0 && ends[0] == y);
    let both = x + seq!['\n'] + tail;
    let rest = text::split(both, '\n');
    assert(rest == seq![x] + ends);
    assert(rest[0] == x && rest[1] == y);
    if before.len() == 0 {
        assert(value =~= both);
        assert(line_start(lines, 0) == 0);
        0
    } else {
        let first = before.drop_last();
        assert(value =~= first + seq!['\n'] + both);
        text::lemma_split_at(first, '\n', both);
        let above = text::split(first, '\n');
        lemma_lines_len(first);
        lemma_line_start_prefix(above, lines, above.len());
        assert(lines[above.len() as int] == rest[0]);
        assert(lines[above.len() as int + 1] == rest[1]);
        above.len()
    }
}

/// The lesser of two numbers.
pub open spec fn lesser(a: nat, b: nat) -> nat {
    if a <= b {
        a
    } else {
        b
    }
}

/// Down goes from a line to the next one, and up back to it, to the same column where the line
/// is long enough for it, else to the end of the line.
pub proof fn moving_keeps_the_column(
    before: Seq<char>,
    x: Seq<char>,
    y: Seq<char>,
    behind: Seq<char>,
    column: nat,
)
    requires
        ends_line(before),
        starts_behind_line(behind),
        !x.contains('\n'),
        !y.contains('\n'),
    ensures
        ({
            let value = before + x + seq!['\n'] + y + behind;
            let below = before.len() + x.len() + 1;
            &&& column <= x.len() ==> vertical(value, before.len() + column, true) == below
                + lesser(column, y.len())
            &&& column <= y.len() ==> vertical(value, below + column, false) == before.len()
                + lesser(column, x.len())
        }),
{
    let value = before + x + seq!['\n'] + y + behind;
    let lines = text::split(value, '\n');
    let k = lemma_two_lines(before, x, y, behind);
    assert(line_start(lines, k + 1) == line_start(lines, k) + lines[k as int].len() + 1);
    if column <= x.len() {
        lemma_line_at_is(lines, before.len() + column, 0, k);
    }
    if column <= y.len() {
        lemma_line_at_is(lines, before.len() + x.len() + 1 + column, 0, k + 1);
    }
}

} // verus!
