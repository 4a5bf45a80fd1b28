//! Short accounts of what a tool is called with and of what it returns.
use vstd::prelude::*;
use vstd::string::*;
use crate::json;
use crate::json::{pretty_json, Json, JsonView};
use crate::text;
use crate::text::{blank, byte_len, has_prefix, join_texts, right_trimmed, slice_text, to_chars};
use crate::truncate;
use crate::truncate::fit_prefix;

verus! {

// ---------- Arguments on one line ----------

/// `s` names a place: it starts as a web address or as a path does.
pub open spec fn is_target(s: Seq<char>) -> bool {
    text::starts(s, "http://"@) || text::starts(s, "https://"@) || text::starts(s, "/"@) || text::starts(s, "./"@)
        || text::starts(s, "../"@)
}

/// What a value tells about a call, if anything, with the score by which the most telling
/// value is found: 0 for numbers and booleans, 2 for texts and 3 for texts that name a
/// place; a list of telling values scores one more than the best of them.
pub open spec fn told(v: JsonView) -> Option<(nat, Seq<char>)>
    decreases v,
{
    match v {
        JsonView::Text(s) => if text::is_blank(s) {
            None
        } else if is_target(truncate::inlined(s)) {
            Some((3, truncate::inlined(s)))
        } else {
            Some((2, truncate::inlined(s)))
        },
        JsonView::Array(items) => if items.len() == 0 {
            None
        } else {
            match told_by_all(items) {
                Some((score, values)) => Some((raised(score), text::join(values, ", "@))),
                None => None,
            }
        },
        JsonView::Number(n) => Some((0, n)),
        JsonView::Bool(b) => Some((
            0,
            if b {
                "true"@
            } else {
                "false"@
            },
        )),
        _ => None,
    }
}

/// What all of `items` tell, with the best score, if each of them tells something.
pub open spec fn told_by_all(items: Seq<JsonView>) -> Option<(nat, Seq<Seq<char>>)>
    decreases items,
{
    if items.len() == 0 {
        Some((0, Seq::empty()))
    } else {
        match (told_by_all(items.drop_last()), told(items.last())) {
            (Some((best, values)), Some((score, value))) => Some((
                if score > best {
                    score
                } else {
                    best
                },
                values.push(value),
            )),
            _ => None,
        }
    }
}

/// The score of a list whose best value has score `score`: one more, up to the greatest.
pub open spec fn raised(score: nat) -> nat {
    if score < u8::MAX {
        score + 1
    } else {
        u8::MAX as nat
    }
}

/// What a value tells about a call, with its score.
fn scalar_detail(value: &Json) -> (r: Option<(u8, String)>)
    ensures
        r is Some <==> told(value@) is Some,
        r matches Some((score, text)) ==> told(value@) == Some((score as nat, text@)),
    decreases value,
{
    match value {
        Json::Text(s) => {
            if blank(s.as_str()) {
                return None;
            }
            let text = crate::truncate::inline(s.as_str());
            let t = text.as_str();
            if has_prefix(t, "http://") || has_prefix(t, "https://") || has_prefix(t, "/")
                || has_prefix(t, "./") || has_prefix(t, "../") {
                Some((3, text))
            } else {
                Some((2, text))
            }
        },
        Json::Array(items) => {
            if items.len() == 0 {
                return None;
            }
            let ghost views = value@->Array_0;
            proof {
                json::lemma_json_view(*value);
            }
            let mut best: u8 = 0;
            let mut values: Vec<String> = Vec::new();
            let mut i: usize = 0;
            assert(views.take(0) =~= Seq::empty());
            assert(text::texts(values@) =~= Seq::empty());
            while i < items.len()
                invariant
                    i <= items@.len(),
                    *value matches Json::Array(v) && v == *items,
                    views == json::items_view(items@),
                    value@ == JsonView::Array(views),
                    told_by_all(views.take(i as int)) == Some((best as nat, text::texts(values@))),
                decreases items.len() - i,
            {
                assert(views.take(i + 1).drop_last() =~= views.take(i as int));
                assert(views.take(i + 1).last() == items@[i as int]@);
                match scalar_detail(&items[i]) {
                    Some((score, text)) => {
                        let ghost before = text::texts(values@);
                        values.push(text);
                        assert(text::texts(values@) =~= before.push(text@));
                        if score > best {
                            best = score;
                        }
                    },
                    None => {
                        proof {
                            lemma_untold(views, i + 1);
                        }
                        return None;
                    },
                }
                i += 1;
            }
            assert(views.take(i as int) =~= views);
            let score: u8 = if best < u8::MAX {
                best + 1
            } else {
                u8::MAX
            };
            Some((score, join_texts(&values, ", ")))
        },
        Json::Number(n) => Some((0, n.clone())),
        Json::Bool(b) => {
            if *b {
                Some((0, "true".to_owned()))
            } else {
                Some((0, "false".to_owned()))
            }
        },
        _ => None,
    }
}

/// What is untold by the first items is untold by all.
proof fn lemma_untold(items: Seq<JsonView>, n: int)
    requires
        0 <= n <= items.len(),
        told_by_all(items.take(n)) is None,
    ensures
        told_by_all(items) is None,
    decreases items.len(),
{
    if n == items.len() {
        assert(items.take(n) =~= items);
    } else {
        assert(items.drop_last().take(n) =~= items.take(n));
        lemma_untold(items.drop_last(), n);
    }
}

/// The most telling of `fields`: its score, name and value. Of two values with the same
/// score the one that takes more bytes wins, and of two as long the later one.
pub open spec fn most_telling(fields: Seq<(Seq<char>, JsonView)>) -> Option<
    (nat, Seq<char>, Seq<char>),
>
    decreases fields.len(),
{
    if fields.len() == 0 {
        None
    } else {
        let best = most_telling(fields.drop_last());
        match (best, told(fields.last().1)) {
            (Some((top, name, text)), Some((score, value))) => if score < top || (score == top
                && text::utf8_len(value) < text::utf8_len(text)) {
                best
            } else {
                Some((score, fields.last().0, value))
            },
            (None, Some((score, value))) => Some((score, fields.last().0, value)),
            _ => best,
        }
    }
}

/// What a call with the arguments `args` is about, on one line.
pub open spec fn detail_of(args: JsonView) -> Seq<char> {
    match args {
        JsonView::Object(fields) => match most_telling(fields) {
            Some((_, name, value)) => truncate::inlined(name + " "@ + value),
            None => Seq::empty(),
        },
        _ => match told(args) {
            Some((_, value)) => truncate::inlined(value),
            None => Seq::empty(),
        },
    }
}

/// What a call with the arguments `args` is about, on one line: the most telling argument.
pub fn tool_detail(args: &Json) -> (r: String)
    ensures
        r@ == detail_of(args@),
{
    proof {
        json::lemma_json_view(*args);
    }
    match args {
        Json::Object(fields) => {
            let ghost views = args@->Object_0;
            let mut best: Option<(u8, String, String)> = None;
            let mut i: usize = 0;
            assert(views.take(0) =~= Seq::empty());
            while i < fields.len()
                invariant
                    i <= fields@.len(),
                    views == json::fields_view(fields@),
                    best is Some <==> most_telling(views.take(i as int)) is Some,
                    best matches Some((score, name, value)) ==> most_telling(views.take(i as int))
                        == Some((score as nat, name@, value@)),
                decreases fields.len() - i,
            {
                proof {
                    assert(views.take(i + 1).drop_last() =~= views.take(i as int));
                    assert(views.take(i + 1).last() == views[i as int]);
                }
                if let Some((score, value)) = scalar_detail(&fields[i].1) {
                    let behind = match &best {
                        Some((top, _, text)) => score < *top || (score == *top && byte_len(
                            value.as_str(),
                        ) < byte_len(text.as_str())),
                        None => false,
                    };
                    if !behind {
                        best = Some((score, fields[i].0.clone(), value));
                    }
                }
                i += 1;
            }
            assert(views.take(i as int) =~= views);
            match best {
                Some((_, name, value)) => {
                    let mut text = name;
                    text.append(" ");
                    text.append(value.as_str());
                    crate::truncate::inline(text.as_str())
                },
                None => String::new(),
            }
        },
        _ => match scalar_detail(args) {
            Some((_, value)) => crate::truncate::inline(value.as_str()),
            None => String::new(),
        },
    }
}

// ---------- Output previews ----------

/// The most bytes of a tool's output that a preview shows.
pub const MAX_TOOL_OUTPUT_PREVIEW_BYTES: usize = 8192;

/// The most lines that a preview takes, with the line that tells of its truncation.
pub const MAX_TOOL_OUTPUT_PREVIEW_LINES: usize = 200;

/// The longest prefix of `s` that holds fewer than `count` line breaks.
pub open spec fn first_lines(s: Seq<char>, count: nat) -> Seq<char>
    decreases s.len(),
{
    if s.len() == 0 || text::occurrences(s, '\n') < count {
        s
    } else {
        first_lines(s.drop_last(), count)
    }
}

/// What a preview of `s` shows of it: the longest prefix within the limits on bytes and on
/// lines.
pub open spec fn preview_head(s: Seq<char>) -> Seq<char> {
    let by_bytes = truncate::prefix_within(s, MAX_TOOL_OUTPUT_PREVIEW_BYTES as nat);
    let by_lines = first_lines(s, (MAX_TOOL_OUTPUT_PREVIEW_LINES - 1) as nat);
    if by_lines.len() < by_bytes.len() {
        by_lines
    } else {
        by_bytes
    }
}

/// The preview of a rendered value.
pub open spec fn preview(s: Seq<char>) -> Seq<char> {
    let head = preview_head(s);
    if head.len() == s.len() {
        s
    } else {
        text::trim_end(head) + "\n… [output preview truncated]"@
    }
}

proof fn lemma_first_lines(s: Seq<char>, count: nat, k: int)
    requires
        0 <= k <= s.len(),
        text::occurrences(s.take(k), '\n') < count || k == 0,
        k < s.len() ==> text::occurrences(s.take(k + 1), '\n') >= count,
    ensures
        first_lines(s, count) == s.take(k),
    decreases s.len(),
{
    if k == s.len() {
        assert(s.take(k) =~= s);
    } else {
        lemma_occurrences_grow(s, k + 1);
        let d = s.drop_last();
        assert(d.take(k) =~= s.take(k));
        if k < d.len() {
            assert(d.take(k + 1) =~= s.take(k + 1));
        }
        lemma_first_lines(d, count, k);
    }
}

proof fn lemma_occurrences_grow(s: Seq<char>, k: int)
    requires
        0 <= k <= s.len(),
    ensures
        text::occurrences(s.take(k), '\n') <= text::occurrences(s, '\n'),
    decreases s.len(),
{
    if k == s.len() {
        assert(s.take(k) =~= s);
    } else {
        assert(s.drop_last().take(k) =~= s.take(k));
        lemma_occurrences_grow(s.drop_last(), k);
    }
}

/// The end of the longest prefix of `chars` that holds fewer than `count` line breaks.
fn lines_end(chars: &Vec<char>, count: usize) -> (r: usize)
    requires
        count > 0,
    ensures
        r <= chars@.len(),
        first_lines(chars@, count as nat) == chars@.take(r as int),
{
    let mut breaks: usize = 0;
    let mut i: usize = 0;
    assert(chars@.take(0) =~= Seq::empty());
    while i < chars.len()
        invariant
            i <= chars@.len(),
            breaks == text::occurrences(chars@.take(i as int), '\n'),
            breaks < count,
        decreases chars.len() - i,
    {
        assert(chars@.take(i + 1).drop_last() =~= chars@.take(i as int));
        if chars[i] == '\n' {
            breaks += 1;
            if breaks == count {
                proof {
                    lemma_first_lines(chars@, count as nat, i as int);
                }
                return i;
            }
        }
        i += 1;
    }
    proof {
        lemma_first_lines(chars@, count as nat, i as int);
    }
    i
}

/// The preview of a rendered value.
pub fn preview_text(rendered: String) -> (r: String)
    ensures
        r@ == preview(rendered@),
{
    let chars = to_chars(rendered.as_str());
    let by_bytes = fit_prefix(&chars, MAX_TOOL_OUTPUT_PREVIEW_BYTES);
    let by_lines = lines_end(&chars, MAX_TOOL_OUTPUT_PREVIEW_LINES - 1);
    let end = if by_lines < by_bytes {
        by_lines
    } else {
        by_bytes
    };
    if end == chars.len() {
        return rendered;
    }
    let head = slice_text(&chars, 0, end);
    assert(head@ =~= chars@.take(end as int));
    let mut out = right_trimmed(head.as_str());
    out.append("\n… [output preview truncated]");
    out
}

/// The preview of `value`, rendered as indented JSON.
pub fn tool_output_preview(value: &Json) -> (r: String)
    ensures
        r@ == preview(json::json_pretty(value@)),
{
    preview_text(pretty_json(value))
}

// ---------- Laws ----------

proof fn lemma_first_lines_is_prefix(s: Seq<char>, count: nat)
    requires
        count > 0,
    ensures
        first_lines(s, count).len() <= s.len(),
        first_lines(s, count) == s.take(first_lines(s, count).len() as int),
        text::occurrences(first_lines(s, count), '\n') < count,
    decreases s.len(),
{
    if s.len() == 0 || text::occurrences(s, '\n') < count {
        assert(s.take(s.len() as int) =~= s);
    } else {
        let d = s.drop_last();
        lemma_first_lines_is_prefix(d, count);
        let n = first_lines(d, count).len() as int;
        assert(d.take(n) =~= s.take(n));
    }
}

/// What a preview shows is a prefix of the output, within both limits.
pub proof fn preview_keeps_its_limits(s: Seq<char>)
    ensures
        preview_head(s) == s.take(preview_head(s).len() as int),
        text::utf8_len(preview_head(s)) <= MAX_TOOL_OUTPUT_PREVIEW_BYTES,
        text::occurrences(preview_head(s), '\n') + 1 < MAX_TOOL_OUTPUT_PREVIEW_LINES,
{
    let by_bytes = truncate::prefix_within(s, MAX_TOOL_OUTPUT_PREVIEW_BYTES as nat);
    let by_lines = first_lines(s, (MAX_TOOL_OUTPUT_PREVIEW_LINES - 1) as nat);
    truncate::prefix_within_fits(s, MAX_TOOL_OUTPUT_PREVIEW_BYTES as nat);
    lemma_first_lines_is_prefix(s, (MAX_TOOL_OUTPUT_PREVIEW_LINES - 1) as nat);
    if by_lines.len() < by_bytes.len() {
        assert(by_bytes.take(by_lines.len() as int) =~= by_lines);
        text::lemma_utf8_len_split(by_bytes, by_lines.len() as int);
    } else {
        assert(by_lines.take(by_bytes.len() as int) =~= by_bytes);
        lemma_occurrences_grow(by_lines, by_bytes.len() as int);
    }
}

/// An output within the limits is previewed as it is.
pub proof fn preview_leaves_short_output(s: Seq<char>)
    requires
        text::utf8_len(s) <= MAX_TOOL_OUTPUT_PREVIEW_BYTES,
        text::occurrences(s, '\n') + 1 < MAX_TOOL_OUTPUT_PREVIEW_LINES,
    ensures
        preview(s) == s,
{
}

/// What is told of a call with named arguments is an argument and its value: one than which
/// none tells more, and no later one as much in as many bytes.
pub proof fn the_most_telling_argument_is_told(fields: Seq<(Seq<char>, JsonView)>)
    ensures
        match most_telling(fields) {
            Some((score, name, value)) => (exists|i: int|
                0 <= i < fields.len() && (#[trigger] fields[i]).0 == name && told(fields[i].1)
                    == Some((score, value))) && forall|j: int|
                0 <= j < fields.len() ==> match told((#[trigger] fields[j]).1) {
                    Some((other, text)) => other < score || (other == score && text::utf8_len(text)
                        <= text::utf8_len(value)),
                    None => true,
                },
            None => forall|j: int|
                0 <= j < fields.len() ==> told((#[trigger] fields[j]).1) is None,
        },
        most_telling(fields) matches Some((score, name, value)) ==> detail_of(
            JsonView::Object(fields),
        ) == truncate::inlined(name + " "@ + value),
    decreases fields.len(),
{
    if fields.len() > 0 {
        let d = fields.drop_last();
        the_most_telling_argument_is_told(d);
        assert forall|j: int| 0 <= j < d.len() implies d[j] == fields[j] by {}
        let last = fields.len() - 1;
        match most_telling(fields) {
            Some((score, name, value)) => {
                if most_telling(d) == most_telling(fields) && most_telling(d) is Some {
                    let i = choose|i: int|
                        0 <= i < d.len() && (#[trigger] d[i]).0 == name && told(d[i].1) == Some(
                            (score, value),
                        );
                    assert(fields[i].0 == name);
                } else {
                    assert(fields[last].0 == name);
                }
                assert forall|j: int| 0 <= j < fields.len() implies match told(
                    (#[trigger] fields[j]).1,
                ) {
                    Some((other, text)) => other < score || (other == score && text::utf8_len(text)
                        <= text::utf8_len(value)),
                    None => true,
                } by {
                    if j < d.len() {
                        assert(d[j] == fields[j]);
                    }
                }
            },
            None => {
                assert forall|j: int| 0 <= j < fields.len() implies told(
                    (#[trigger] fields[j]).1,
                ) is None by {
                    if j < d.len() {
                        assert(d[j] == fields[j]);
                    }
                }
            },
        }
    }
}

/// A text that names a place tells more than any other text, a text more than a number or a
/// truth value, and what is told of each is what it says; nothing and objects tell nothing.
pub proof fn places_tell_more_than_texts_and_texts_more_than_numbers(
    place: Seq<char>,
    text: Seq<char>,
    number: Seq<char>,
    b: bool,
)
    requires
        !text::is_blank(place) && is_target(truncate::inlined(place)),
        !text::is_blank(text) && !is_target(truncate::inlined(text)),
    ensures
        told(JsonView::Text(place)) matches Some((high, shown_place)) && shown_place == truncate::inlined(
            place,
        ) && (told(JsonView::Text(text)) matches Some((middle, shown_text)) && shown_text
            == truncate::inlined(text) && (told(JsonView::Number(number)) matches Some((low, shown_number))
            && shown_number == number && (told(JsonView::Bool(b)) matches Some((lowest, shown_bool))
            && shown_bool == (if b {
            "true"@
        } else {
            "false"@
        }) && lowest == low && low < middle && middle < high))),
        told(JsonView::Null) is None,
{
}

proof fn lemma_told_by_all(items: Seq<JsonView>, i: int)
    requires
        0 <= i < items.len(),
        told_by_all(items) is Some,
    ensures
        (told_by_all(items)->0).1.len() == items.len(),
        told(items[i]) matches Some((score, value)) && (told_by_all(items)->0).1[i] == value && score
            <= (told_by_all(items)->0).0,
    decreases items.len(),
{
    let d = items.drop_last();
    if i < d.len() {
        lemma_told_by_all(d, i);
    } else if d.len() > 0 {
        lemma_told_by_all(d, 0);
    }
}

/// A list tells what each of its items tells, in their order, and scores more than each of
/// them, short of the greatest score.
pub proof fn lists_tell_all_their_items(items: Seq<JsonView>, i: int)
    requires
        0 <= i < items.len(),
        told(JsonView::Array(items)) is Some,
    ensures
        told(items[i]) matches Some((score, value)) && (score < (told(JsonView::Array(items))->0).0
            || (told(JsonView::Array(items))->0).0 == u8::MAX) && text::holds_in_order(
            (told(JsonView::Array(items))->0).1,
            seq![value],
        ),
{
    lemma_told_by_all(items, i);
    let values = (told_by_all(items)->0).1;
    text::joined_texts_are_held_in_order(values, ", "@);
    text::lemma_holds_one(text::join(values, ", "@), values, i);
}

proof fn lemma_first_lines_is_longest(s: Seq<char>, count: nat)
    requires
        count > 0,
        first_lines(s, count).len() < s.len(),
    ensures
        text::occurrences(s.take(first_lines(s, count).len() as int + 1), '\n') >= count,
    decreases s.len(),
{
    let d = s.drop_last();
    let n = first_lines(s, count).len() as int;
    if n < d.len() {
        lemma_first_lines_is_longest(d, count);
        assert(d.take(n + 1) =~= s.take(n + 1));
    } else {
        lemma_first_lines_is_prefix(d, count);
        assert(s.take(n + 1) =~= s);
    }
}

proof fn lemma_prefix_is_longest(s: Seq<char>, max: nat)
    requires
        truncate::prefix_within(s, max).len() < s.len(),
    ensures
        text::utf8_len(s.take(truncate::prefix_within(s, max).len() as int + 1)) > max,
    decreases s.len(),
{
    let d = s.drop_last();
    let n = truncate::prefix_within(s, max).len() as int;
    if n < d.len() {
        lemma_prefix_is_longest(d, max);
        assert(d.take(n + 1) =~= s.take(n + 1));
    } else {
        truncate::prefix_within_fits(d, max);
        assert(s.take(n + 1) =~= s);
    }
}

/// A long output is previewed by as much of its start as keeps to the limits, without white
/// space at its end, and by a note that says that it was cut.
pub proof fn previews_show_as_much_as_fits(s: Seq<char>)
    requires
        text::utf8_len(s) > MAX_TOOL_OUTPUT_PREVIEW_BYTES || text::occurrences(s, '\n') + 1
            >= MAX_TOOL_OUTPUT_PREVIEW_LINES,
    ensures
        ({
            let n = preview_head(s).len() as int;
            &&& n < s.len()
            &&& text::utf8_len(s.take(n + 1)) > MAX_TOOL_OUTPUT_PREVIEW_BYTES || text::occurrences(
                s.take(n + 1),
                '\n',
            ) + 1 >= MAX_TOOL_OUTPUT_PREVIEW_LINES
            &&& preview(s) == text::trim_end(s.take(n)) + "\n… [output preview truncated]"@
        }),
{
    preview_keeps_its_limits(s);
    let n = preview_head(s).len() as int;
    let by_bytes = truncate::prefix_within(s, MAX_TOOL_OUTPUT_PREVIEW_BYTES as nat);
    let by_lines = first_lines(s, (MAX_TOOL_OUTPUT_PREVIEW_LINES - 1) as nat);
    truncate::prefix_within_fits(s, MAX_TOOL_OUTPUT_PREVIEW_BYTES as nat);
    lemma_first_lines_is_prefix(s, (MAX_TOOL_OUTPUT_PREVIEW_LINES - 1) as nat);
    assert(s.take(s.len() as int) =~= s);
    if by_lines.len() < by_bytes.len() {
        lemma_first_lines_is_longest(s, (MAX_TOOL_OUTPUT_PREVIEW_LINES - 1) as nat);
    } else {
        lemma_prefix_is_longest(s, MAX_TOOL_OUTPUT_PREVIEW_BYTES as nat);
    }
}

/// A preview shows eight kibibytes at most and 199 lines, and all of an output that has no more.
pub proof fn previews_have_their_limits(s: Seq<char>)
    ensures
        text::utf8_len(preview_head(s)) <= 8192 && text::occurrences(preview_head(s), '\n') < 199,
        text::utf8_len(s) <= 8192 && text::occurrences(s, '\n') < 199 ==> preview(s) == s,
{
    preview_keeps_its_limits(s);
    if text::utf8_len(s) <= 8192 && text::occurrences(s, '\n') < 199 {
        preview_leaves_short_output(s);
    }
}

} // verus!
