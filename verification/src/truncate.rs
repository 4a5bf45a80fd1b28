//! Shortening of text to a budget of bytes or characters.
use vstd::prelude::*;
use vstd::string::*;
use crate::text;
use crate::text::{byte_len, char_width, join_texts, push_decimal, slice_text, to_chars, words_of};

verus! {

// ---------- Prefixes and suffixes within a budget ----------

/// The longest prefix of `s` that takes at most `max` bytes.
pub open spec fn prefix_within(s: Seq<char>, max: nat) -> Seq<char>
    decreases s.len(),
{
    if s.len() == 0 || text::utf8_len(s) <= max {
        s
    } else {
        prefix_within(s.drop_last(), max)
    }
}

/// The longest suffix of `s` that takes at most `max` bytes.
pub open spec fn suffix_within(s: Seq<char>, max: nat) -> Seq<char>
    decreases s.len(),
{
    if s.len() == 0 || text::utf8_len(s) <= max {
        s
    } else {
        suffix_within(s.drop_first(), max)
    }
}

proof fn lemma_prefix_is(s: Seq<char>, max: nat, k: int)
    requires
        0 <= k <= s.len(),
        text::utf8_len(s.take(k)) <= max,
        k < s.len() ==> text::utf8_len(s.take(k + 1)) > max,
    ensures
        prefix_within(s, max) == s.take(k),
    decreases s.len(),
{
    if k == s.len() {
        assert(s.take(k) =~= s);
    } else {
        text::lemma_utf8_len_split(s, k + 1);
        assert(text::utf8_len(s) > max);
        let d = s.drop_last();
        assert(d.take(k) =~= s.take(k));
        if k < d.len() {
            assert(d.take(k + 1) =~= s.take(k + 1));
        }
        lemma_prefix_is(d, max, k);
    }
}

proof fn lemma_suffix_is(s: Seq<char>, max: nat, k: int)
    requires
        0 <= k <= s.len(),
        text::utf8_len(s.skip(k)) <= max,
        0 < k ==> text::utf8_len(s.skip(k - 1)) > max,
    ensures
        suffix_within(s, max) == s.skip(k),
    decreases s.len(),
{
    if k == 0 {
        assert(s.skip(k) =~= s);
    } else {
        text::lemma_utf8_len_split(s, k - 1);
        assert(text::utf8_len(s) > max);
        let d = s.drop_first();
        assert(d.skip(k - 1) =~= s.skip(k));
        if k > 1 {
            assert(d.skip(k - 2) =~= s.skip(k - 1));
        }
        lemma_suffix_is(d, max, k - 1);
    }
}

/// A prefix within a budget is a prefix, and it keeps to the budget.
pub proof fn prefix_within_fits(s: Seq<char>, max: nat)
    ensures
        text::utf8_len(prefix_within(s, max)) <= max,
        prefix_within(s, max).len() <= s.len(),
        prefix_within(s, max) == s.take(prefix_within(s, max).len() as int),
    decreases s.len(),
{
    if s.len() == 0 || text::utf8_len(s) <= max {
        assert(s.take(s.len() as int) =~= s);
    } else {
        let d = s.drop_last();
        prefix_within_fits(d, max);
        let n = prefix_within(d, max).len() as int;
        assert(d.take(n) =~= s.take(n));
    }
}

/// A suffix within a budget is a suffix, and it keeps to the budget.
pub proof fn suffix_within_fits(s: Seq<char>, max: nat)
    ensures
        text::utf8_len(suffix_within(s, max)) <= max,
        suffix_within(s, max).len() <= s.len(),
        suffix_within(s, max) == s.skip(s.len() - suffix_within(s, max).len()),
    decreases s.len(),
{
    if s.len() == 0 || text::utf8_len(s) <= max {
        assert(s.skip(0) =~= s);
    } else {
        let d = s.drop_first();
        suffix_within_fits(d, max);
        let n = suffix_within(d, max).len();
        assert(d.skip(d.len() - n) =~= s.skip(s.len() - n));
    }
}

/// How many leading characters take at most `max` bytes.
pub fn fit_prefix(chars: &Vec<char>, max: usize) -> (r: usize)
    ensures
        r <= chars@.len(),
        chars@.take(r as int) == prefix_within(chars@, max as nat),
{
    let mut used: usize = 0;
    let mut i: usize = 0;
    assert(chars@.take(0) =~= Seq::empty());
    while i < chars.len()
        invariant
            i <= chars@.len(),
            used == text::utf8_len(chars@.take(i as int)),
            used <= max,
        decreases chars.len() - i,
    {
        let w = char_width(chars[i]);
        assert(chars@.take(i + 1).drop_last() =~= chars@.take(i as int));
        if w > max - used {
            proof {
                lemma_prefix_is(chars@, max as nat, i as int);
            }
            return i;
        }
        used += w;
        i += 1;
    }
    proof {
        lemma_prefix_is(chars@, max as nat, i as int);
    }
    i
}

/// Where the trailing characters that take at most `max` bytes start.
fn fit_suffix(chars: &Vec<char>, max: usize) -> (r: usize)
    ensures
        r <= chars@.len(),
        chars@.skip(r as int) == suffix_within(chars@, max as nat),
{
    let mut used: usize = 0;
    let mut i: usize = chars.len();
    assert(chars@.skip(i as int) =~= Seq::empty());
    while i > 0
        invariant
            i <= chars@.len(),
            used == text::utf8_len(chars@.skip(i as int)),
            used <= max,
        decreases i,
    {
        let w = char_width(chars[i - 1]);
        proof {
            let c = chars@[i - 1];
            assert(chars@.skip(i - 1) =~= seq![c] + chars@.skip(i as int));
            text::lemma_utf8_len_add(seq![c], chars@.skip(i as int));
            text::lemma_utf8_len_one(c);
        }
        if w > max - used {
            proof {
                lemma_suffix_is(chars@, max as nat, i as int);
            }
            return i;
        }
        used += w;
        i -= 1;
    }
    proof {
        lemma_suffix_is(chars@, max as nat, 0);
    }
    0
}

/// The longest prefix of `text` that takes at most `max_bytes` bytes.
pub fn truncate_utf8(text: &str, max_bytes: usize) -> (r: String)
    ensures
        r@ == prefix_within(text@, max_bytes as nat),
{
    let chars = to_chars(text);
    let end = fit_prefix(&chars, max_bytes);
    assert(chars@.subrange(0, end as int) =~= chars@.take(end as int));
    slice_text(&chars, 0, end)
}

// ---------- Head and tail ----------

/// The note that stands in place of `bytes` omitted bytes.
pub open spec fn omission_note(bytes: nat, label: Seq<char>) -> Seq<char> {
    "\n\n[thx: "@ + text::decimal(bytes) + " bytes omitted from "@ + label + "]\n\n"@
}

/// `text` within `max` bytes. A text that is too long keeps its head and its tail, with a
/// note between them; three quarters of what the note leaves belong to the tail. Where not
/// even the note has room, the start of a note on the whole text is all that is left.
pub open spec fn head_and_tail(text: Seq<char>, max: nat, label: Seq<char>) -> Seq<char> {
    let total = text::utf8_len(text);
    let marker = omission_note(total, label);
    if total <= max {
        text
    } else if text::utf8_len(marker) >= max {
        prefix_within(marker, max)
    } else {
        let available = (max - text::utf8_len(marker)) as nat;
        let head = prefix_within(text, available / 4);
        let tail = suffix_within(text, (available - available / 4) as nat);
        let omitted = (total - text::utf8_len(head) - text::utf8_len(tail)) as nat;
        head + omission_note(omitted, label) + tail
    }
}

/// The note that stands in place of `bytes` omitted bytes.
fn note(bytes: usize, label: &str) -> (r: String)
    ensures
        r@ == omission_note(bytes as nat, label@),
{
    let mut out = "\n\n[thx: ".to_owned();
    push_decimal(&mut out, bytes as u128);
    out.append(" bytes omitted from ");
    out.append(label);
    out.append("]\n\n");
    out
}

/// `head_and_tail` on characters, of which the length in bytes is known.
pub fn truncate_chars(chars: &Vec<char>, total: usize, max_bytes: usize, label: &str) -> (r: String)
    requires
        total == text::utf8_len(chars@),
    ensures
        r@ == head_and_tail(chars@, max_bytes as nat, label@),
{
    if total <= max_bytes {
        assert(chars@.subrange(0, chars@.len() as int) =~= chars@);
        return slice_text(chars, 0, chars.len());
    }
    let marker = note(total, label);
    let marker_len = byte_len(marker.as_str());
    if marker_len >= max_bytes {
        return truncate_utf8(marker.as_str(), max_bytes);
    }
    let available: usize = max_bytes - marker_len;
    let head_bytes: usize = available / 4;
    let tail_bytes: usize = available - head_bytes;
    let head_end = fit_prefix(chars, head_bytes);
    let tail_start = fit_suffix(chars, tail_bytes);
    let mut out = slice_text(chars, 0, head_end);
    let tail = slice_text(chars, tail_start, chars.len());
    proof {
        assert(out@ =~= chars@.take(head_end as int));
        assert(tail@ =~= chars@.skip(tail_start as int));
        prefix_within_fits(chars@, head_bytes as nat);
        suffix_within_fits(chars@, tail_bytes as nat);
    }
    let omitted: usize = total - byte_len(out.as_str()) - byte_len(tail.as_str());
    out.append(note(omitted, label).as_str());
    out.append(tail.as_str());
    out
}

/// `text` within `max_bytes` bytes: whole, or its head and tail with a note between them.
pub fn truncate_head_tail(text: &str, max_bytes: usize, label: &str) -> (r: String)
    ensures
        r@ == head_and_tail(text@, max_bytes as nat, label@),
        text::utf8_len(r@) <= max_bytes,
{
    let chars = to_chars(text);
    proof {
        truncation_keeps_the_budget(text@, max_bytes as nat, label@);
    }
    truncate_chars(&chars, byte_len(text), max_bytes, label)
}

proof fn lemma_note_len(a: nat, b: nat, label: Seq<char>)
    requires
        a <= b,
    ensures
        text::utf8_len(omission_note(a, label)) <= text::utf8_len(omission_note(b, label)),
{
    let x = "\n\n[thx: "@;
    let y = " bytes omitted from "@;
    let z = "]\n\n"@;
    text::lemma_decimal(a);
    text::lemma_decimal(b);
    text::lemma_decimal_monotone(a, b);
    text::lemma_utf8_len_add(x, text::decimal(a));
    text::lemma_utf8_len_add(x, text::decimal(b));
    text::lemma_utf8_len_add(x + text::decimal(a), y);
    text::lemma_utf8_len_add(x + text::decimal(b), y);
    text::lemma_utf8_len_add(x + text::decimal(a) + y, label);
    text::lemma_utf8_len_add(x + text::decimal(b) + y, label);
    text::lemma_utf8_len_add(x + text::decimal(a) + y + label, z);
    text::lemma_utf8_len_add(x + text::decimal(b) + y + label, z);
}

/// A shortened text never takes more bytes than its budget.
pub proof fn truncation_keeps_the_budget(text: Seq<char>, max: nat, label: Seq<char>)
    ensures
        text::utf8_len(head_and_tail(text, max, label)) <= max,
{
    let total = text::utf8_len(text);
    let marker = omission_note(total, label);
    if total <= max {
    } else if text::utf8_len(marker) >= max {
        prefix_within_fits(marker, max);
    } else {
        let available = (max - text::utf8_len(marker)) as nat;
        let head = prefix_within(text, available / 4);
        let tail = suffix_within(text, (available - available / 4) as nat);
        prefix_within_fits(text, available / 4);
        suffix_within_fits(text, (available - available / 4) as nat);
        let omitted = (total - text::utf8_len(head) - text::utf8_len(tail)) as nat;
        lemma_note_len(omitted, total, label);
        text::lemma_utf8_len_add(head, omission_note(omitted, label));
        text::lemma_utf8_len_add(head + omission_note(omitted, label), tail);
    }
}

/// A text that fits its budget stays as it is.
pub proof fn truncation_leaves_short_text(text: Seq<char>, max: nat, label: Seq<char>)
    requires
        text::utf8_len(text) <= max,
    ensures
        head_and_tail(text, max, label) == text,
{
}

/// Shortening a second time to the same budget changes nothing.
pub proof fn truncation_is_idempotent(text: Seq<char>, max: nat, label: Seq<char>)
    ensures
        head_and_tail(head_and_tail(text, max, label), max, label) == head_and_tail(
            text,
            max,
            label,
        ),
{
    truncation_keeps_the_budget(text, max, label);
}

/// A prefix within a budget is not all of a text only where the next character has no room.
proof fn lemma_prefix_is_long(s: Seq<char>, max: nat)
    ensures
        prefix_within(s, max) == s || text::utf8_len(prefix_within(s, max)) + 4 > max,
    decreases s.len(),
{
    if s.len() > 0 && text::utf8_len(s) > max {
        let d = s.drop_last();
        lemma_prefix_is_long(d, max);
        if prefix_within(d, max) == d {
            assert(text::utf8_len(s) <= text::utf8_len(d) + 4);
        }
    }
}

/// A suffix within a budget is not all of a text only where the character before it has no room.
proof fn lemma_suffix_is_long(s: Seq<char>, max: nat)
    ensures
        suffix_within(s, max) == s || text::utf8_len(suffix_within(s, max)) + 4 > max,
    decreases s.len(),
{
    if s.len() > 0 && text::utf8_len(s) > max {
        let d = s.drop_first();
        lemma_suffix_is_long(d, max);
        if suffix_within(d, max) == d {
            text::lemma_utf8_len_one(s[0]);
            text::lemma_utf8_len_add(seq![s[0]], d);
            assert(seq![s[0]] + d =~= s);
        }
    }
}

/// `cut` is `text` but for what is left out between its first `h` characters and those from `t`
/// on, with a note in its place that counts the bytes left out.
pub open spec fn is_cut_at(
    cut: Seq<char>,
    text: Seq<char>,
    label: Seq<char>,
    h: int,
    t: int,
) -> bool {
    0 <= h <= t <= text.len() && cut == text.take(h) + omission_note(
        text::utf8_len(text.subrange(h, t)),
        label,
    ) + text.skip(t)
}

/// `cut` is `text` but for a note in the middle that counts the bytes left out. Of the `max` bytes
/// that such a note leaves, a quarter goes to the head and the rest to the tail, up to a
/// character each.
pub open spec fn keeps_both_ends(
    cut: Seq<char>,
    text: Seq<char>,
    max: nat,
    label: Seq<char>,
) -> bool {
    exists|h: int, t: int| #[trigger]
        is_cut_at(cut, text, label, h, t) && {
            let room = max - text::utf8_len(omission_note(text::utf8_len(text), label));
            &&& 4 * (text::utf8_len(text.take(h)) + 4) >= room >= 4 * text::utf8_len(text.take(h))
            &&& 4 * (text::utf8_len(text.skip(t)) + 4) >= 3 * room
            &&& text::utf8_len(text.take(h)) + text::utf8_len(text.skip(t)) <= room
        }
}

/// Where the note has room, a shortened text starts as the text starts and ends as it ends,
/// and the note counts exactly the bytes in between. Of what the note leaves, a quarter goes to
/// the head and the rest to the tail, up to a character each.
pub proof fn truncation_keeps_head_and_tail(text: Seq<char>, max: nat, label: Seq<char>)
    requires
        text::utf8_len(text) > max,
        text::utf8_len(omission_note(text::utf8_len(text), label)) < max,
    ensures
        exists|h: int, t: int|
            #![trigger text.take(h), text.skip(t)]
            0 <= h <= t <= text.len() && head_and_tail(text, max, label) == text.take(h)
                + omission_note(text::utf8_len(text.subrange(h, t)), label) + text.skip(t),
        keeps_both_ends(head_and_tail(text, max, label), text, max, label),
{
    let total = text::utf8_len(text);
    let marker = omission_note(total, label);
    let available = (max - text::utf8_len(marker)) as nat;
    let head = prefix_within(text, available / 4);
    let tail = suffix_within(text, (available - available / 4) as nat);
    prefix_within_fits(text, available / 4);
    suffix_within_fits(text, (available - available / 4) as nat);
    lemma_prefix_is_long(text, available / 4);
    lemma_suffix_is_long(text, (available - available / 4) as nat);
    let h = head.len() as int;
    let t = text.len() - tail.len();
    text::lemma_utf8_len_split(text, h);
    text::lemma_utf8_len_split(text, t);
    if h > t {
        text::lemma_utf8_len_split(text.take(h), t);
        assert(text.take(h).take(t) =~= text.take(t));
    }
    assert(h <= t);
    text::lemma_utf8_len_split(text.take(t), h);
    assert(text.take(t).take(h) =~= text.take(h));
    assert(text.take(t).skip(h) =~= text.subrange(h, t));
    assert(head == text.take(h));
    assert(tail == text.skip(t));
    assert(is_cut_at(head_and_tail(text, max, label), text, label, h, t));
}

/// Something is left of a text that is not empty, where the budget has room for a character.
pub proof fn truncation_leaves_something(text: Seq<char>, max: nat, label: Seq<char>)
    requires
        text.len() > 0,
        max > 0,
    ensures
        head_and_tail(text, max, label).len() > 0,
{
    let total = text::utf8_len(text);
    let marker = omission_note(total, label);
    reveal_strlit("\n\n[thx: ");
    if total > max {
        assert(marker[0] == '\n');
        if text::utf8_len(marker) >= max {
            prefix_within_fits(marker, max);
            lemma_prefix_starts(marker, max);
        } else {
            let available = (max - text::utf8_len(marker)) as nat;
            let head = prefix_within(text, available / 4);
            let tail = suffix_within(text, (available - available / 4) as nat);
            assert(head_and_tail(text, max, label).len() >= "\n\n[thx: "@.len());
        }
    }
}

/// A prefix within a budget holds the first character, where that takes one byte.
proof fn lemma_prefix_starts(s: Seq<char>, max: nat)
    requires
        s.len() > 0,
        s[0] == '\n',
        max > 0,
    ensures
        prefix_within(s, max).len() > 0,
    decreases s.len(),
{
    if s.len() == 1 {
        text::lemma_utf8_len_one('\n');
        assert(s =~= seq!['\n']);
    } else if text::utf8_len(s) > max {
        lemma_prefix_starts(s.drop_last(), max);
    }
}

// ---------- One line ----------

/// The most characters that an inline text shows.
pub const MAX_INLINE_CHARS: usize = 60;

/// `text` on one line: single spaces between its words, and an ellipsis after the first
/// `MAX_INLINE_CHARS` characters if there are more.
pub open spec fn inlined(text: Seq<char>) -> Seq<char> {
    let flat = text::join(text::words(text), " "@);
    if flat.len() <= MAX_INLINE_CHARS {
        flat
    } else {
        flat.take(MAX_INLINE_CHARS as int) + "…"@
    }
}

/// `text` on one line, shortened to `MAX_INLINE_CHARS` characters.
pub fn inline(text: &str) -> (r: String)
    ensures
        r@ == inlined(text@),
{
    let flat = join_texts(&words_of(text), " ");
    let chars = to_chars(flat.as_str());
    if chars.len() <= MAX_INLINE_CHARS {
        return flat;
    }
    let mut out = slice_text(&chars, 0, MAX_INLINE_CHARS);
    assert(out@ =~= flat@.take(MAX_INLINE_CHARS as int));
    out.append("…");
    out
}

/// What is put on one line is short, holds no white space but single spaces, and stays as it is
/// when it is put on one line again.
pub proof fn inlining_twice_changes_nothing(text: Seq<char>)
    ensures
        inlined(text).len() <= MAX_INLINE_CHARS + 1,
        text::is_spaced(inlined(text)),
        inlined(inlined(text)) == inlined(text),
{
    reveal_strlit("…");
    text::lemma_words_joined(text);
    let flat = text::join(text::words(text), " "@);
    let line = inlined(text);
    if flat.len() > MAX_INLINE_CHARS {
        let head = flat.take(MAX_INLINE_CHARS as int);
        assert forall|i: int| 0 <= i < line.len() && text::is_white(#[trigger] line[i]) implies line[i]
            == ' ' && i > 0 && !text::is_white(line[i - 1]) by {
            if i < head.len() {
                assert(text::is_white(flat[i]));
            }
        }
        text::lemma_spaced_stays(line);
        assert(line.take(MAX_INLINE_CHARS as int) =~= head);
    } else {
        text::lemma_spaced_stays(line);
    }
}

/// A short text says on one line all that it says; a long one starts as it says.
pub proof fn one_line_says_what_the_text_says(text: Seq<char>)
    ensures
        inlined(text).len() <= MAX_INLINE_CHARS ==> text::solid(inlined(text)) == text::solid(text),
        inlined(text).len() > MAX_INLINE_CHARS ==> exists|k: int|
            0 < k <= text::solid(text).len() && text::solid(inlined(text).drop_last()) == #[trigger] text::solid(
                text,
            ).take(k),
{
    reveal_strlit("…");
    text::words_say_what_the_text_says(text);
    let flat = text::join(text::words(text), " "@);
    if flat.len() > MAX_INLINE_CHARS {
        let head = flat.take(MAX_INLINE_CHARS as int);
        let tail = flat.skip(MAX_INLINE_CHARS as int);
        assert(flat =~= head + tail);
        text::lemma_solid_add(head, tail);
        let k = text::solid(head).len() as int;
        assert(text::solid(text).take(k) =~= text::solid(head));
        assert(inlined(text).drop_last() =~= head);
        text::lemma_words_joined(text);
        assert(head[0] == flat[0]);
        assert(!text::is_white(flat[0]));
        let one = seq![head[0]];
        assert(head =~= one + head.drop_first());
        text::lemma_solid_add(one, head.drop_first());
        text::lemma_solid_one(head[0]);
    }
}

/// A text on one line has 60 characters at most and an ellipsis behind them; one that has no
/// more is not cut.
pub proof fn one_line_has_60_characters(text: Seq<char>)
    ensures
        inlined(text).len() <= 61,
        text::join(text::words(text), " "@).len() <= 60 ==> inlined(text) == text::join(text::words(text), " "@),
        text::join(text::words(text), " "@).len() > 60 ==> inlined(text).take(60) == text::join(
            text::words(text),
            " "@,
        ).take(60),
{
    reveal_strlit("…");
    let flat = text::join(text::words(text), " "@);
    if flat.len() > 60 {
        assert(inlined(text).take(60) =~= flat.take(60));
    }
}

} // verus!
