//! The reasoning of a model: its text, its title and its body.
use vstd::prelude::*;
use vstd::string::*;
use crate::text;
use crate::text::{blank, find_char, join_texts, slice_text, to_chars, trimmed, trimmed_range};

verus! {

// ---------- Text ----------

/// One piece of a model's reasoning.
#[derive(Debug)]
pub enum ReasoningContent {
    Summary(String),
    Text(String),
    Other,
}

/// The texts of the summaries, or of the other texts, that are not empty.
pub open spec fn pieces(content: Seq<ReasoningContent>, summary: bool) -> Seq<Seq<char>>
    decreases content.len(),
{
    if content.len() == 0 {
        Seq::empty()
    } else {
        let rest = pieces(content.drop_last(), summary);
        match content.last() {
            ReasoningContent::Summary(text) => if summary && text@.len() > 0 {
                rest.push(text@)
            } else {
                rest
            },
            ReasoningContent::Text(text) => if !summary && text@.len() > 0 {
                rest.push(text@)
            } else {
                rest
            },
            ReasoningContent::Other => rest,
        }
    }
}

/// The text of a model's reasoning: its summaries if they say anything, else its texts if
/// they do.
pub open spec fn reasoned(content: Seq<ReasoningContent>) -> Option<Seq<char>> {
    let summary = text::join(pieces(content, true), "\n"@);
    let text = text::join(pieces(content, false), "\n"@);
    if !text::is_blank(summary) {
        Some(summary)
    } else if !text::is_blank(text) {
        Some(text)
    } else {
        None
    }
}

/// The texts of one kind, one to a line.
fn collect_pieces(content: &Vec<ReasoningContent>, summary: bool) -> (r: String)
    ensures
        r@ == text::join(pieces(content@, summary), "\n"@),
{
    let mut out: Vec<String> = Vec::new();
    let mut i: usize = 0;
    assert(content@.take(0) =~= Seq::empty());
    assert(text::texts(out@) =~= Seq::empty());
    while i < content.len()
        invariant
            i <= content@.len(),
            text::texts(out@) == pieces(content@.take(i as int), summary),
        decreases content.len() - i,
    {
        let ghost earlier = text::texts(out@);
        proof {
            assert(content@.take(i + 1).drop_last() =~= content@.take(i as int));
        }
        match &content[i] {
            ReasoningContent::Summary(text) => {
                if summary && text.as_str().unicode_len() > 0 {
                    out.push(text.clone());
                    assert(text::texts(out@) =~= earlier.push(text@));
                }
            },
            ReasoningContent::Text(text) => {
                if !summary && text.as_str().unicode_len() > 0 {
                    out.push(text.clone());
                    assert(text::texts(out@) =~= earlier.push(text@));
                }
            },
            ReasoningContent::Other => {},
        }
        i += 1;
    }
    assert(content@.take(i as int) =~= content@);
    join_texts(&out, "\n")
}

/// What an optional text holds.
pub open spec fn optional(text: Option<String>) -> Option<Seq<char>> {
    match text {
        Some(text) => Some(text@),
        None => None,
    }
}

/// The text of a model's reasoning.
pub fn reasoning_text(content: &Vec<ReasoningContent>) -> (r: Option<String>)
    ensures
        optional(r) == reasoned(content@),
{
    let summary = collect_pieces(content, true);
    if !blank(summary.as_str()) {
        return Some(summary);
    }
    let text = collect_pieces(content, false);
    if !blank(text.as_str()) {
        Some(text)
    } else {
        None
    }
}

// ---------- Title and body ----------

/// The most characters of a title.
pub const MAX_TITLE_CHARS: usize = 80;

/// `first` is a title: bold text of a few characters. Its text is given.
pub open spec fn title_in(first: Seq<char>) -> Option<Seq<char>> {
    if first.len() >= 4 && first[0] == '*' && first[1] == '*' && first[first.len() - 1] == '*'
        && first[first.len() - 2] == '*' {
        let title = text::trim(first.subrange(2, first.len() - 2));
        if 0 < title.len() <= MAX_TITLE_CHARS {
            Some(title)
        } else {
            None
        }
    } else {
        None
    }
}

/// The title and the body of a reasoning: the title is its first line if that is bold, and
/// the body is the rest.
pub open spec fn parts(text: Option<Seq<char>>) -> (Option<Seq<char>>, Option<Seq<char>>) {
    match text {
        None => (None, None),
        Some(text) => if text::is_blank(text) {
            (None, None)
        } else {
            let text = text::trim(text);
            let end = text::first_index(text, '\n');
            let rest = if end < text.len() {
                text::trim(text.skip(end as int + 1))
            } else {
                Seq::empty()
            };
            match title_in(text::trim(text.take(end as int))) {
                Some(title) => (
                    Some(title),
                    if rest.len() > 0 {
                        Some(rest)
                    } else {
                        None
                    },
                ),
                None => (None, Some(text)),
            }
        },
    }
}

/// The title and the body of a reasoning.
pub fn thinking_parts(text: Option<&str>) -> (r: (Option<String>, Option<String>))
    ensures
        (optional(r.0), optional(r.1)) == parts(
            match text {
                Some(text) => Some(text@),
                None => None,
            },
        ),
{
    let text = match text {
        None => {
            return (None, None);
        },
        Some(text) => text,
    };
    if blank(text) {
        return (None, None);
    }
    let whole = trimmed(text);
    let chars = to_chars(whole.as_str());
    let end = find_char(&chars, '\n');
    let (start, stop) = trimmed_range(&chars, 0, end);
    let ghost first = chars@.subrange(start as int, stop as int);
    assert(chars@.subrange(0, end as int) =~= chars@.take(end as int));
    if stop - start >= 4 && chars[start] == '*' && chars[start + 1] == '*' && chars[stop - 1] == '*'
        && chars[stop - 2] == '*' {
        let (from, to) = trimmed_range(&chars, start + 2, stop - 2);
        assert(chars@.subrange(start + 2, stop - 2) =~= first.subrange(2, first.len() - 2));
        if from < to && to - from <= MAX_TITLE_CHARS {
            let title = slice_text(&chars, from, to);
            if end < chars.len() {
                let (from, to) = trimmed_range(&chars, end + 1, chars.len());
                assert(chars@.subrange(end + 1, chars@.len() as int) =~= chars@.skip(end + 1));
                if from < to {
                    return (Some(title), Some(slice_text(&chars, from, to)));
                }
            }
            return (Some(title), None);
        }
    }
    (None, Some(whole))
}

// ---------- Laws ----------

/// What piece `i` says as a summary, or as a text.
pub open spec fn says(content: Seq<ReasoningContent>, i: int, summary: bool) -> Option<Seq<char>> {
    match content[i] {
        ReasoningContent::Summary(text) => if summary {
            Some(text@)
        } else {
            None
        },
        ReasoningContent::Text(text) => if summary {
            None
        } else {
            Some(text@)
        },
        ReasoningContent::Other => None,
    }
}

proof fn lemma_piece_is_there(content: Seq<ReasoningContent>, summary: bool, i: int) -> (a: int)
    requires
        0 <= i < content.len(),
        says(content, i, summary) matches Some(text) && text.len() > 0,
    ensures
        0 <= a < pieces(content, summary).len(),
        pieces(content, summary)[a] == says(content, i, summary)->0,
        a >= pieces(content.take(i), summary).len(),
    decreases content.len(),
{
    let d = content.drop_last();
    if i < content.len() - 1 {
        let a = lemma_piece_is_there(d, summary, i);
        assert(d.take(i) =~= content.take(i));
        a
    } else {
        assert(content.take(i) =~= d);
        pieces(d, summary).len() as int
    }
}

proof fn lemma_pieces_are_there(content: Seq<ReasoningContent>, summary: bool, i: int, j: int) -> (r: (
    int,
    int,
))
    requires
        0 <= i < j < content.len(),
        says(content, i, summary) matches Some(text) && text.len() > 0,
        says(content, j, summary) matches Some(text) && text.len() > 0,
    ensures
        0 <= r.0 < r.1 < pieces(content, summary).len(),
        pieces(content, summary)[r.0] == says(content, i, summary)->0,
        pieces(content, summary)[r.1] == says(content, j, summary)->0,
    decreases content.len(),
{
    let d = content.drop_last();
    if j < content.len() - 1 {
        lemma_pieces_are_there(d, summary, i, j)
    } else {
        let a = lemma_piece_is_there(d, summary, i);
        (a, pieces(d, summary).len() as int)
    }
}

/// Where a summary says anything, the summaries are what is reasoned, all of them and in order;
/// the texts are where no summary does.
pub proof fn summaries_go_before_texts(content: Seq<ReasoningContent>, i: int, summary: bool)
    requires
        0 <= i < content.len(),
        says(content, i, summary) matches Some(text) && !text::is_blank(text),
        !summary ==> forall|k: int|
            0 <= k < content.len() ==> says(content, k, true) is None,
    ensures
        reasoned(content) matches Some(text) && text::holds_in_order(
            text,
            seq![says(content, i, summary)->0],
        ) && forall|a: int, b: int|
            #![trigger says(content, a, summary), says(content, b, summary)]
            0 <= a < b < content.len() && says(content, a, summary) is Some && says(
                content,
                b,
                summary,
            ) is Some && says(content, a, summary)->0.len() > 0 && says(
                content,
                b,
                summary,
            )->0.len() > 0 ==> text::holds_in_order(
                text,
                seq![says(content, a, summary)->0, says(content, b, summary)->0],
            ),
{
    let p = pieces(content, summary);
    let all = text::join(p, "\n"@);
    text::joined_texts_are_held_in_order(p, "\n"@);
    let piece = says(content, i, summary)->0;
    let at = lemma_piece_is_there(content, summary, i);
    text::lemma_holds_one(all, p, at);
    let one = seq![piece];
    let k = choose|k: int| #[trigger] text::stands_at(all, one[0], k);
    let w = choose|w: int| 0 <= w < piece.len() && !text::is_white(#[trigger] piece[w]);
    assert(all.subrange(k, k + piece.len())[w] == all[k + w]);
    assert(!text::is_blank(all)) by {
        assert(!text::is_white(all[k + w]));
    }
    if !summary {
        lemma_no_pieces(content, true);
        assert(text::join(pieces(content, true), "\n"@) =~= Seq::empty());
    }
    assert(reasoned(content) == Some(all));
    assert forall|a: int, b: int|
        #![trigger says(content, a, summary), says(content, b, summary)]
        0 <= a < b < content.len() && says(content, a, summary) is Some && says(
            content,
            b,
            summary,
        ) is Some && says(content, a, summary)->0.len() > 0 && says(content, b, summary)->0.len()
            > 0 implies text::holds_in_order(
        all,
        seq![says(content, a, summary)->0, says(content, b, summary)->0],
    ) by {
        let r = lemma_pieces_are_there(content, summary, a, b);
        text::lemma_holds_two(all, p, r.0, r.1);
    }
}

proof fn lemma_no_pieces(content: Seq<ReasoningContent>, summary: bool)
    requires
        forall|k: int| 0 <= k < content.len() ==> says(content, k, summary) is None,
    ensures
        pieces(content, summary).len() == 0,
    decreases content.len(),
{
    if content.len() > 0 {
        let d = content.drop_last();
        assert forall|k: int| 0 <= k < d.len() implies says(d, k, summary) is None by {
            assert(says(content, k, summary) is None);
        }
        lemma_no_pieces(d, summary);
        assert(says(content, content.len() - 1, summary) is None);
    }
}

/// `s` says something, and neither starts nor ends in white space.
pub open spec fn is_trim(s: Seq<char>) -> bool {
    s.len() > 0 && !text::is_white(s[0]) && !text::is_white(s.last())
}

/// Reasoning that starts with a bold line is titled with it, and what follows is its body.
pub proof fn bold_first_lines_are_titles(title: Seq<char>, body: Seq<char>)
    requires
        is_trim(title),
        title.len() <= MAX_TITLE_CHARS,
        !title.contains('\n'),
        is_trim(body),
    ensures
        parts(Some("**"@ + title + "**\n"@ + body)) == (Some(title), Some(body)),
        parts(Some("**"@ + title + "**"@)) == (Some(title), None::<Seq<char>>),
{
    reveal_strlit("**");
    reveal_strlit("**\n");
    let first = "**"@ + title + "**"@;
    let text = "**"@ + title + "**\n"@ + body;
    assert(first[0] == '*' && first[1] == '*');
    assert(first.last() == '*' && first[first.len() - 2] == '*');
    assert(first.subrange(2, first.len() - 2) =~= title);
    lemma_first_break(text, first.len() as int);
    lemma_no_break(first);
    assert(text.take(first.len() as int) =~= first);
    assert(text.skip(first.len() as int + 1) =~= body);
    assert(text.last() == body.last());
    assert(first.take(first.len() as int) =~= first);
    assert(!text::is_white(text[0]));
    assert(!text::is_white(first[0]));
}

proof fn lemma_first_break(text: Seq<char>, n: int)
    requires
        0 <= n < text.len(),
        text[n] == '\n',
        forall|i: int| 0 <= i < n ==> text[i] != '\n',
    ensures
        text::first_index(text, '\n') == n,
{
    text::first_index_is_first(text, '\n');
}

proof fn lemma_no_break(text: Seq<char>)
    requires
        forall|i: int| 0 <= i < text.len() ==> text[i] != '\n',
    ensures
        text::first_index(text, '\n') == text.len(),
{
    text::first_index_is_first(text, '\n');
}

/// Reasoning that does not start in bold has no title, and is its body; that of white space has
/// neither.
pub proof fn other_reasoning_is_all_body(text: Seq<char>)
    ensures
        text::is_blank(text) ==> parts(Some(text)) == (None::<Seq<char>>, None::<Seq<char>>),
        is_trim(text) && text[0] != '*' ==> parts(Some(text)) == (None::<Seq<char>>, Some(text)),
        parts(None) == (None::<Seq<char>>, None::<Seq<char>>),
        parts(Some(text)).0 is None && !text::is_blank(text) ==> parts(Some(text)).1 == Some(text::trim(text)),
{
    if is_trim(text) && text[0] != '*' {
        assert(!text::is_blank(text)) by {
            assert(!text::is_white(text[0]));
        }
        text::first_index_is_first(text, '\n');
        let end = text::first_index(text, '\n');
        let first = text.take(end as int);
        if end > 0 {
            assert(first[0] == text[0]);
            lemma_trim_keeps_first(first);
        }
    }
}

proof fn lemma_trim_keeps_first(s: Seq<char>)
    requires
        s.len() > 0,
        !text::is_white(s[0]),
    ensures
        text::trim(s).len() > 0,
        text::trim(s)[0] == s[0],
    decreases s.len(),
{
    if text::is_white(s.last()) {
        lemma_trim_keeps_first(s.drop_last());
        assert(text::trim_start(s.drop_last()) == s.drop_last());
    }
}

} // verus!
