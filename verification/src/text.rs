//! Text as a sequence of characters: trimming, splitting, joining, decimal
//! numerals and UTF-8 lengths.
use vstd::prelude::*;
use vstd::string::*;
use vstd::utf8::*;

verus! {

/// `String::push` appends the given character to the end of the string.
pub assume_specification[ String::push ](s: &mut String, c: char)
    ensures
        final(s)@ == old(s)@.push(c),
;

// ---------- Characters ----------

/// The characters with Unicode's `White_Space` property.
pub open spec fn is_white(c: char) -> bool {
    let u = c as u32;
    ||| 0x09 <= u <= 0x0d
    ||| u == 0x20
    ||| u == 0x85
    ||| u == 0xa0
    ||| u == 0x1680
    ||| 0x2000 <= u <= 0x200a
    ||| u == 0x2028
    ||| u == 0x2029
    ||| u == 0x202f
    ||| u == 0x205f
    ||| u == 0x3000
}

/// Tells whether `c` has Unicode's `White_Space` property.
pub fn white(c: char) -> (r: bool)
    ensures
        r == is_white(c),
{
    let u: u32 = c as u32;
    (0x09 <= u && u <= 0x0d) || u == 0x20 || u == 0x85 || u == 0xa0 || u == 0x1680 || (0x2000 <= u
        && u <= 0x200a) || u == 0x2028 || u == 0x2029 || u == 0x202f || u == 0x205f || u == 0x3000
}

/// ASCII letters and digits.
pub open spec fn is_ascii_alnum(c: char) -> bool {
    ||| '0' <= c <= '9'
    ||| 'A' <= c <= 'Z'
    ||| 'a' <= c <= 'z'
}

/// The number of bytes that UTF-8 spends on `c`.
pub open spec fn char_bytes(c: char) -> nat {
    let u = c as u32;
    if u < 0x80 {
        1
    } else if u < 0x800 {
        2
    } else if u < 0x10000 {
        3
    } else {
        4
    }
}

/// The number of bytes that UTF-8 spends on `c`.
pub fn char_width(c: char) -> (r: usize)
    ensures
        r == char_bytes(c),
        1 <= r <= 4,
{
    let u: u32 = c as u32;
    if u < 0x80 {
        1
    } else if u < 0x800 {
        2
    } else if u < 0x10000 {
        3
    } else {
        4
    }
}

// ---------- Lengths in bytes ----------

/// The length of `s` in UTF-8 bytes.
pub open spec fn utf8_len(s: Seq<char>) -> nat
    decreases s.len(),
{
    if s.len() == 0 {
        0
    } else {
        utf8_len(s.drop_last()) + char_bytes(s.last())
    }
}

/// `utf8_len` adds up over concatenation.
pub proof fn lemma_utf8_len_add(a: Seq<char>, b: Seq<char>)
    ensures
        utf8_len(a + b) == utf8_len(a) + utf8_len(b),
    decreases b.len(),
{
    if b.len() == 0 {
        assert(a + b =~= a);
    } else {
        assert((a + b).drop_last() =~= a + b.drop_last());
        lemma_utf8_len_add(a, b.drop_last());
    }
}

/// A text is at least as long in bytes as in characters, and at most four times.
pub proof fn lemma_utf8_len_bounds(s: Seq<char>)
    ensures
        s.len() <= utf8_len(s) <= 4 * s.len(),
    decreases s.len(),
{
    if s.len() > 0 {
        lemma_utf8_len_bounds(s.drop_last());
    }
}

/// A prefix and the rest make up the whole length.
pub proof fn lemma_utf8_len_split(s: Seq<char>, k: int)
    requires
        0 <= k <= s.len(),
    ensures
        utf8_len(s) == utf8_len(s.take(k)) + utf8_len(s.skip(k)),
{
    assert(s.take(k) + s.skip(k) =~= s);
    lemma_utf8_len_add(s.take(k), s.skip(k));
}

/// One character is as long as its own encoding.
pub proof fn lemma_utf8_len_one(c: char)
    ensures
        utf8_len(seq![c]) == char_bytes(c),
{
    reveal_with_fuel(utf8_len, 2);
    assert(seq![c].drop_last() =~= Seq::<char>::empty());
}

/// The length of the encoded bytes is `utf8_len`.
pub proof fn lemma_encoded_len(s: Seq<char>)
    ensures
        encode_utf8(s).len() == utf8_len(s),
    decreases s.len(),
{
    if s.len() > 0 {
        lemma_encoded_len(s.drop_first());
        lemma_utf8_len_one(s[0]);
        char_is_scalar(s[0]);
        assert(encode_scalar(s[0] as u32).len() == char_bytes(s[0]));
        assert(seq![s[0]] + s.drop_first() =~= s);
        lemma_utf8_len_add(seq![s[0]], s.drop_first());
    }
}

/// The length of `s` in bytes.
pub fn byte_len(s: &str) -> (r: usize)
    ensures
        r == utf8_len(s@),
{
    proof {
        lemma_encoded_len(s@);
    }
    s.as_bytes().len()
}

// ---------- Conversions ----------

/// The characters of `s`.
pub fn to_chars(s: &str) -> (r: Vec<char>)
    ensures
        r@ == s@,
{
    let mut out: Vec<char> = Vec::new();
    for c in it: s.chars()
        invariant
            it.seq() == s@,
            out@ == it.seq().take(it.index()),
    {
        out.push(c);
    }
    out
}

/// Appends `chars[from..to]` to `out`.
pub fn push_range(out: &mut String, chars: &Vec<char>, from: usize, to: usize)
    requires
        from <= to <= chars@.len(),
    ensures
        final(out)@ == old(out)@ + chars@.subrange(from as int, to as int),
{
    let ghost start = out@;
    let mut i: usize = from;
    while i < to
        invariant
            from <= i <= to <= chars@.len(),
            out@ == start + chars@.subrange(from as int, i as int),
        decreases to - i,
    {
        out.push(chars[i]);
        i += 1;
    }
}

/// The text made of `chars[from..to]`.
pub fn slice_text(chars: &Vec<char>, from: usize, to: usize) -> (r: String)
    requires
        from <= to <= chars@.len(),
    ensures
        r@ == chars@.subrange(from as int, to as int),
{
    let mut out = String::new();
    push_range(&mut out, chars, from, to);
    out
}

/// Tells whether two texts have the same characters.
pub fn same_text(a: &str, b: &str) -> (r: bool)
    ensures
        r == (a@ == b@),
{
    a.to_owned() == b.to_owned()
}

// ---------- Trimming ----------

/// `s` without its leading white space.
pub open spec fn trim_start(s: Seq<char>) -> Seq<char>
    decreases s.len(),
{
    if s.len() > 0 && is_white(s[0]) {
        trim_start(s.drop_first())
    } else {
        s
    }
}

/// `s` without its trailing white space.
pub open spec fn trim_end(s: Seq<char>) -> Seq<char>
    decreases s.len(),
{
    if s.len() > 0 && is_white(s.last()) {
        trim_end(s.drop_last())
    } else {
        s
    }
}

/// `s` without white space at either end.
pub open spec fn trim(s: Seq<char>) -> Seq<char> {
    trim_end(trim_start(s))
}

/// `s` holds nothing but white space.
pub open spec fn is_blank(s: Seq<char>) -> bool {
    forall|i: int| 0 <= i < s.len() ==> is_white(#[trigger] s[i])
}

/// The end of `s` without trailing white space.
pub fn trimmed_end(chars: &Vec<char>, from: usize, to: usize) -> (r: usize)
    requires
        from <= to <= chars@.len(),
    ensures
        from <= r <= to,
        chars@.subrange(from as int, r as int) == trim_end(
            chars@.subrange(from as int, to as int),
        ),
{
    let mut end: usize = to;
    while end > from && white(chars[end - 1])
        invariant
            from <= end <= to <= chars@.len(),
            trim_end(chars@.subrange(from as int, to as int)) == trim_end(
                chars@.subrange(from as int, end as int),
            ),
        decreases end,
    {
        proof {
            let s = chars@.subrange(from as int, end as int);
            assert(s.last() == chars@[end - 1]);
            assert(s.drop_last() =~= chars@.subrange(from as int, end - 1));
        }
        end -= 1;
    }
    proof {
        let s = chars@.subrange(from as int, end as int);
        assert(end > from ==> s.last() == chars@[end - 1]);
    }
    end
}

/// The start and end of `chars[from..to]` without white space at either end.
pub fn trimmed_range(chars: &Vec<char>, from: usize, to: usize) -> (r: (usize, usize))
    requires
        from <= to <= chars@.len(),
    ensures
        from <= r.0 <= r.1 <= to,
        chars@.subrange(r.0 as int, r.1 as int) == trim(chars@.subrange(from as int, to as int)),
{
    let mut start: usize = from;
    while start < to && white(chars[start])
        invariant
            from <= start <= to <= chars@.len(),
            trim_start(chars@.subrange(from as int, to as int)) == trim_start(
                chars@.subrange(start as int, to as int),
            ),
        decreases to - start,
    {
        proof {
            let s = chars@.subrange(start as int, to as int);
            assert(s[0] == chars@[start as int]);
            assert(s.drop_first() =~= chars@.subrange(start + 1, to as int));
        }
        start += 1;
    }
    proof {
        let s = chars@.subrange(start as int, to as int);
        assert(start < to ==> s[0] == chars@[start as int]);
    }
    (start, trimmed_end(chars, start, to))
}

/// `s` without white space at either end.
pub fn trimmed(s: &str) -> (r: String)
    ensures
        r@ == trim(s@),
{
    let chars = to_chars(s);
    assert(chars@.subrange(0, chars@.len() as int) =~= s@);
    let (start, end) = trimmed_range(&chars, 0, chars.len());
    slice_text(&chars, start, end)
}

/// `s` without white space at its end.
pub fn right_trimmed(s: &str) -> (r: String)
    ensures
        r@ == trim_end(s@),
{
    let chars = to_chars(s);
    assert(chars@.subrange(0, chars@.len() as int) =~= s@);
    let end = trimmed_end(&chars, 0, chars.len());
    slice_text(&chars, 0, end)
}

/// Tells whether `s` holds nothing but white space.
pub fn blank(s: &str) -> (r: bool)
    ensures
        r == is_blank(s@),
        r == (trim(s@).len() == 0),
{
    let chars = to_chars(s);
    assert(chars@.subrange(0, chars@.len() as int) =~= s@);
    let (start, end) = trimmed_range(&chars, 0, chars.len());
    proof {
        lemma_blank_iff_trim_empty(s@);
    }
    start == end
}

/// Trimming leaves nothing exactly when there is only white space.
pub proof fn lemma_blank_iff_trim_empty(s: Seq<char>)
    ensures
        is_blank(s) <==> trim(s).len() == 0,
{
    lemma_trim_start(s);
    lemma_trim_end(trim_start(s));
    let t = trim_start(s);
    if t.len() > 0 {
        let k = s.len() - t.len();
        assert(s[k] == t[0]);
        assert(!is_white(s[k]));
        if trim_end(t).len() == 0 {
            assert(is_white(t[0]));
        }
    } else {
        assert(trim_end(t).len() == 0);
    }
}

proof fn lemma_trim_start(s: Seq<char>)
    ensures
        trim_start(s).len() <= s.len(),
        trim_start(s) == s.skip(s.len() - trim_start(s).len()),
        forall|i: int| 0 <= i < s.len() - trim_start(s).len() ==> is_white(#[trigger] s[i]),
        trim_start(s).len() > 0 ==> !is_white(trim_start(s)[0]),
    decreases s.len(),
{
    if s.len() > 0 && is_white(s[0]) {
        let d = s.drop_first();
        lemma_trim_start(d);
        let n = s.len() - trim_start(s).len();
        assert(d.skip(n - 1) =~= s.skip(n));
        assert forall|i: int| 0 <= i < n implies is_white(#[trigger] s[i]) by {
            if i > 0 {
                assert(d[i - 1] == s[i]);
            }
        }
    } else {
        assert(s.skip(0) =~= s);
    }
}

proof fn lemma_trim_end(s: Seq<char>)
    ensures
        trim_end(s).len() <= s.len(),
        trim_end(s) == s.take(trim_end(s).len() as int),
        forall|i: int| trim_end(s).len() <= i < s.len() ==> is_white(#[trigger] s[i]),
        trim_end(s).len() > 0 ==> !is_white(trim_end(s).last()),
    decreases s.len(),
{
    if s.len() > 0 && is_white(s.last()) {
        let d = s.drop_last();
        lemma_trim_end(d);
        let n = trim_end(s).len() as int;
        assert(d.take(n) =~= s.take(n));
        assert forall|i: int| n <= i < s.len() implies is_white(#[trigger] s[i]) by {
            if i < s.len() - 1 {
                assert(d[i] == s[i]);
            }
        }
    } else {
        assert(s.take(s.len() as int) =~= s);
    }
}

/// Trimmed text has no white space at either end.
pub proof fn lemma_trim_ends(s: Seq<char>)
    ensures
        trim(s).len() > 0 ==> !is_white(trim(s)[0]) && !is_white(trim(s).last()),
        trim(s).len() <= s.len(),
{
    lemma_trim_start(s);
    lemma_trim_end(trim_start(s));
}

/// Trimming a second time changes nothing.
pub proof fn trim_is_idempotent(s: Seq<char>)
    ensures
        trim(trim(s)) == trim(s),
{
    lemma_trim_ends(s);
}

// ---------- Splitting and joining ----------

/// The pieces of `s` between the occurrences of `sep`.
pub open spec fn split(s: Seq<char>, sep: char) -> Seq<Seq<char>>
    decreases s.len(),
{
    if s.len() == 0 {
        seq![Seq::empty()]
    } else {
        let pieces = split(s.drop_last(), sep);
        if s.last() == sep {
            pieces.push(Seq::empty())
        } else {
            pieces.drop_last().push(pieces.last().push(s.last()))
        }
    }
}

/// `parts` one after the other, with `sep` between them.
pub open spec fn join(parts: Seq<Seq<char>>, sep: Seq<char>) -> Seq<char>
    decreases parts.len(),
{
    if parts.len() == 0 {
        Seq::empty()
    } else if parts.len() == 1 {
        parts[0]
    } else {
        join(parts.drop_last(), sep) + sep + parts.last()
    }
}

/// The texts of `v`.
pub open spec fn texts(v: Seq<String>) -> Seq<Seq<char>> {
    Seq::new(v.len(), |i: int| v[i]@)
}

/// There is always at least one piece.
pub proof fn lemma_split_nonempty(s: Seq<char>, sep: char)
    ensures
        split(s, sep).len() >= 1,
    decreases s.len(),
{
    if s.len() > 0 {
        lemma_split_nonempty(s.drop_last(), sep);
    }
}

/// Joining the pieces of a text with the separator gives the text back.
pub proof fn join_undoes_split(s: Seq<char>, sep: char)
    ensures
        join(split(s, sep), seq![sep]) == s,
    decreases s.len(),
{
    if s.len() == 0 {
        assert(join(split(s, sep), seq![sep]) =~= s);
    } else {
        let d = s.drop_last();
        let pieces = split(d, sep);
        lemma_split_nonempty(d, sep);
        join_undoes_split(d, sep);
        let all = split(s, sep);
        if s.last() == sep {
            assert(all.drop_last() =~= pieces);
            assert(join(all, seq![sep]) =~= d + seq![sep] + Seq::empty());
            assert(d + seq![sep] + Seq::<char>::empty() =~= s);
        } else {
            assert(all.drop_last() =~= pieces.drop_last());
            assert(all.last() == pieces.last().push(s.last()));
            if pieces.len() == 1 {
                assert(all[0] =~= s);
            } else {
                assert(join(all, seq![sep]) =~= join(pieces, seq![sep]).push(s.last()));
                assert(d.push(s.last()) =~= s);
            }
        }
    }
}

/// No piece holds the separator.
pub proof fn split_pieces_hold_no_separator(s: Seq<char>, sep: char)
    ensures
        forall|i: int| 0 <= i < split(s, sep).len() ==> !(#[trigger] split(s, sep)[i]).contains(sep),
    decreases s.len(),
{
    if s.len() > 0 {
        let d = s.drop_last();
        split_pieces_hold_no_separator(d, sep);
        lemma_split_nonempty(d, sep);
        let pieces = split(d, sep);
        let all = split(s, sep);
        assert forall|i: int| 0 <= i < all.len() implies !(#[trigger] all[i]).contains(sep) by {
            if s.last() == sep {
                if i < pieces.len() {
                    assert(all[i] == pieces[i]);
                }
            } else if i < pieces.len() - 1 {
                assert(all[i] == pieces[i]);
            } else {
                let last = pieces[pieces.len() - 1];
                assert(!last.contains(sep));
                assert(all[i] == last.push(s.last()));
                if all[i].contains(sep) {
                    let j = choose|j: int| 0 <= j < all[i].len() && all[i][j] == sep;
                    assert(j < last.len());
                    assert(last[j] == sep);
                }
            }
        }
    }
}

/// The pieces of `s` between the occurrences of `sep`.
pub fn split_text(s: &str, sep: char) -> (r: Vec<String>)
    ensures
        texts(r@) == split(s@, sep),
        r@.len() >= 1,
{
    let chars = to_chars(s);
    let mut out: Vec<String> = Vec::new();
    let mut current = String::new();
    let mut i: usize = 0;
    assert(s@.take(0) =~= Seq::empty());
    assert(split(s@.take(0), sep) =~= texts(out@).push(current@));
    while i < chars.len()
        invariant
            chars@ == s@,
            i <= chars@.len(),
            split(s@.take(i as int), sep) == texts(out@).push(current@),
        decreases chars.len() - i,
    {
        let c = chars[i];
        let ghost before = texts(out@).push(current@);
        assert(s@.take(i + 1).drop_last() =~= s@.take(i as int));
        if c == sep {
            let ghost old_out = out@;
            out.push(current);
            assert(texts(out@) =~= before);
            current = String::new();
            assert(before.push(Seq::empty()) =~= texts(out@).push(current@));
        } else {
            assert(before.drop_last() =~= texts(out@));
            current.push(c);
        }
        i += 1;
    }
    assert(s@.take(s@.len() as int) =~= s@);
    let ghost before = texts(out@).push(current@);
    out.push(current);
    assert(texts(out@) =~= before);
    out
}

/// `parts` one after the other, with `sep` between them.
pub fn join_texts(parts: &Vec<String>, sep: &str) -> (r: String)
    ensures
        r@ == join(texts(parts@), sep@),
{
    let mut out = String::new();
    let mut i: usize = 0;
    assert(texts(parts@).take(0) =~= Seq::empty());
    while i < parts.len()
        invariant
            i <= parts@.len(),
            out@ == join(texts(parts@).take(i as int), sep@),
        decreases parts.len() - i,
    {
        proof {
            let t = texts(parts@);
            assert(t.take(i + 1).drop_last() =~= t.take(i as int));
            assert(t.take(i + 1).last() == parts@[i as int]@);
        }
        if i > 0 {
            out.append(sep);
            out.append(parts[i].as_str());
        } else {
            out.append(parts[i].as_str());
            assert(out@ =~= parts@[0]@);
        }
        i += 1;
    }
    assert(texts(parts@).take(parts@.len() as int) =~= texts(parts@));
    out
}

// ---------- Lines ----------

/// A line without the carriage return before its line feed.
pub open spec fn without_return(line: Seq<char>) -> Seq<char> {
    if line.len() > 0 && line.last() == '\r' {
        line.drop_last()
    } else {
        line
    }
}

/// The lines of `s`: each ends in a line feed, or in a carriage return and a line feed,
/// and the last one may end with the text.
pub open spec fn lines(s: Seq<char>) -> Seq<Seq<char>> {
    let pieces = split(s, '\n');
    let whole = Seq::new(
        (pieces.len() - 1) as nat,
        |i: int| without_return(pieces[i]),
    );
    if pieces.last().len() == 0 {
        whole
    } else {
        whole.push(pieces.last())
    }
}

/// The lines of `s`, without their line endings.
pub fn lines_of(s: &str) -> (r: Vec<String>)
    ensures
        texts(r@) == lines(s@),
{
    let pieces = split_text(s, '\n');
    let ghost all = texts(pieces@);
    let mut out: Vec<String> = Vec::new();
    let mut i: usize = 0;
    let ghost whole = Seq::new((all.len() - 1) as nat, |i: int| without_return(all[i]));
    while i < pieces.len() - 1
        invariant
            all == texts(pieces@),
            all.len() >= 1,
            i <= all.len() - 1,
            whole == Seq::new((all.len() - 1) as nat, |i: int| without_return(all[i])),
            texts(out@) == whole.take(i as int),
        decreases pieces.len() - i,
    {
        let chars = to_chars(pieces[i].as_str());
        let n = chars.len();
        let end: usize = if n > 0 && chars[n - 1] == '\r' {
            n - 1
        } else {
            n
        };
        let line = slice_text(&chars, 0, end);
        assert(line@ =~= without_return(all[i as int]));
        let ghost before = texts(out@);
        out.push(line);
        assert(texts(out@) =~= before.push(line@));
        assert(whole.take(i + 1) =~= whole.take(i as int).push(whole[i as int]));
        i += 1;
    }
    assert(whole.take(all.len() - 1) =~= whole);
    let last = pieces[pieces.len() - 1].clone();
    if !last.as_str().is_empty() {
        let ghost before = texts(out@);
        out.push(last);
        assert(texts(out@) =~= before.push(last@));
    }
    out
}

// ---------- Words ----------

/// The words that are complete after `s`, and the one that is still open.
pub open spec fn word_state(s: Seq<char>) -> (Seq<Seq<char>>, Seq<char>)
    decreases s.len(),
{
    if s.len() == 0 {
        (Seq::empty(), Seq::empty())
    } else {
        let (done, open) = word_state(s.drop_last());
        if !is_white(s.last()) {
            (done, open.push(s.last()))
        } else if open.len() == 0 {
            (done, open)
        } else {
            (done.push(open), Seq::empty())
        }
    }
}

/// The words of `s`: its longest runs of characters that are no white space.
pub open spec fn words(s: Seq<char>) -> Seq<Seq<char>> {
    let (done, open) = word_state(s);
    if open.len() == 0 {
        done
    } else {
        done.push(open)
    }
}

/// The words of `s`.
pub fn words_of(s: &str) -> (r: Vec<String>)
    ensures
        texts(r@) == words(s@),
{
    let chars = to_chars(s);
    let mut out: Vec<String> = Vec::new();
    let mut current = String::new();
    let mut i: usize = 0;
    assert(s@.take(0) =~= Seq::empty());
    assert(texts(out@) =~= Seq::empty());
    while i < chars.len()
        invariant
            chars@ == s@,
            i <= chars@.len(),
            word_state(s@.take(i as int)) == (texts(out@), current@),
        decreases chars.len() - i,
    {
        let c = chars[i];
        assert(s@.take(i + 1).drop_last() =~= s@.take(i as int));
        if !white(c) {
            current.push(c);
        } else if !current.as_str().is_empty() {
            let ghost before = texts(out@).push(current@);
            out.push(current);
            assert(texts(out@) =~= before);
            current = String::new();
            assert(current@ =~= Seq::empty());
        }
        i += 1;
    }
    assert(s@.take(s@.len() as int) =~= s@);
    if !current.as_str().is_empty() {
        let ghost before = texts(out@).push(current@);
        out.push(current);
        assert(texts(out@) =~= before);
    }
    out
}

/// The white space in `s` is single spaces, none of them at its start.
pub open spec fn is_spaced(s: Seq<char>) -> bool {
    forall|i: int|
        0 <= i < s.len() && is_white(#[trigger] s[i]) ==> s[i] == ' ' && i > 0 && !is_white(
            s[i - 1],
        )
}

/// `s` is not empty and holds no white space.
pub open spec fn is_word(s: Seq<char>) -> bool {
    s.len() > 0 && forall|i: int| 0 <= i < s.len() ==> !is_white(#[trigger] s[i])
}

/// What is between white space in a text is words.
proof fn lemma_word_state(s: Seq<char>)
    ensures
        forall|k: int| 0 <= k < word_state(s).0.len() ==> is_word(#[trigger] word_state(s).0[k]),
        word_state(s).1.len() > 0 ==> is_word(word_state(s).1),
    decreases s.len(),
{
    if s.len() > 0 {
        let d = s.drop_last();
        lemma_word_state(d);
        let (done, open) = word_state(d);
        let (all, next) = word_state(s);
        assert forall|k: int| 0 <= k < all.len() implies is_word(#[trigger] all[k]) by {
            if k < done.len() {
                assert(all[k] == done[k]);
            }
        }
        if !is_white(s.last()) {
            assert forall|i: int| 0 <= i < next.len() implies !is_white(#[trigger] next[i]) by {
                if i < open.len() {
                    assert(next[i] == open[i]);
                }
            }
        }
    }
}

/// Words that are joined by spaces are a spaced text, without white space at its end.
proof fn lemma_joined_is_spaced(parts: Seq<Seq<char>>)
    requires
        forall|k: int| 0 <= k < parts.len() ==> is_word(#[trigger] parts[k]),
    ensures
        is_spaced(join(parts, " "@)),
        parts.len() > 0 ==> join(parts, " "@).len() > 0 && !is_white(join(parts, " "@).last()),
    decreases parts.len(),
{
    reveal_strlit(" ");
    if parts.len() == 1 {
        assert(is_word(parts[0]));
    } else if parts.len() > 1 {
        let d = parts.drop_last();
        assert forall|k: int| 0 <= k < d.len() implies is_word(#[trigger] d[k]) by {
            assert(d[k] == parts[k]);
        }
        lemma_joined_is_spaced(d);
        let start = join(d, " "@);
        let last = parts.last();
        let all = join(parts, " "@);
        assert(is_word(parts[parts.len() - 1]));
        assert forall|i: int| 0 <= i < all.len() && is_white(#[trigger] all[i]) implies all[i]
            == ' ' && i > 0 && !is_white(all[i - 1]) by {
            if i < start.len() {
                assert(all[i] == start[i]);
                assert(all[i - 1] == start[i - 1]);
            } else if i == start.len() {
                assert(all[i - 1] == start.last());
            } else {
                assert(all[i] == last[i - start.len() - 1]);
            }
        }
        assert(all.last() == last[last.len() - 1]);
    }
}

/// The words of a text, joined by spaces, are a spaced text.
pub proof fn lemma_words_joined(s: Seq<char>)
    ensures
        is_spaced(join(words(s), " "@)),
        join(words(s), " "@).len() > 0 ==> !is_white(join(words(s), " "@).last()),
{
    lemma_word_state(s);
    let (done, open) = word_state(s);
    let parts = words(s);
    assert forall|k: int| 0 <= k < parts.len() implies is_word(#[trigger] parts[k]) by {
        if k < done.len() {
            assert(parts[k] == done[k]);
        }
    }
    lemma_joined_is_spaced(parts);
}

/// The words so far of a spaced text make up the text.
proof fn lemma_spaced_state(s: Seq<char>)
    requires
        is_spaced(s),
    ensures
        ({
            let (done, open) = word_state(s);
            if s.len() == 0 {
                done.len() == 0 && open.len() == 0
            } else if is_white(s.last()) {
                open.len() == 0 && done.len() > 0 && join(done, " "@) + " "@ == s
            } else {
                open.len() > 0 && join(done.push(open), " "@) == s
            }
        }),
    decreases s.len(),
{
    reveal_strlit(" ");
    if s.len() > 0 {
        let d = s.drop_last();
        let c = s.last();
        assert forall|i: int| 0 <= i < d.len() && is_white(#[trigger] d[i]) implies d[i] == ' '
            && i > 0 && !is_white(d[i - 1]) by {
            assert(is_white(s[i]));
        }
        lemma_spaced_state(d);
        let (done, open) = word_state(d);
        assert(d.push(c) =~= s);
        if is_white(c) {
            assert(is_white(s[s.len() - 1]));
            assert(d.last() == s[s.len() - 2]);
            assert(join(done.push(open), " "@) + " "@ =~= s);
        } else {
            let next = open.push(c);
            assert(done.push(next).drop_last() =~= done);
            assert(done.push(open).drop_last() =~= done);
            if d.len() == 0 {
                assert(done.push(next).len() == 1);
                assert(next =~= s);
            } else if is_white(d.last()) {
                assert(next =~= seq![c]);
                assert(join(done, " "@) + " "@ + next =~= s);
            } else if done.len() == 0 {
                assert(open == d);
                assert(next =~= s);
            } else {
                assert(join(done, " "@) + " "@ + next =~= (join(done, " "@) + " "@ + open).push(c));
            }
        }
    }
}

/// The words of a spaced text without white space at its end, joined by spaces, are the text.
pub proof fn lemma_spaced_stays(s: Seq<char>)
    requires
        is_spaced(s),
        s.len() > 0 ==> !is_white(s.last()),
    ensures
        join(words(s), " "@) == s,
{
    lemma_spaced_state(s);
    if s.len() == 0 {
        assert(join(words(s), " "@) =~= s);
    }
}

// ---------- Numerals ----------

/// The decimal digit for `d`.
pub open spec fn digit(d: nat) -> char {
    ('0' as u32 + d) as char
}

/// `n` in decimal notation.
pub open spec fn decimal(n: nat) -> Seq<char>
    decreases n,
{
    if n < 10 {
        seq![digit(n)]
    } else {
        decimal(n / 10).push(digit(n % 10))
    }
}

/// Appends `n` in decimal notation.
pub fn push_decimal(out: &mut String, n: u128)
    ensures
        final(out)@ == old(out)@ + decimal(n as nat),
    decreases n,
{
    let d: char = match (n % 10) as u8 {
        0 => '0',
        1 => '1',
        2 => '2',
        3 => '3',
        4 => '4',
        5 => '5',
        6 => '6',
        7 => '7',
        8 => '8',
        _ => '9',
    };
    assert(d == digit((n % 10) as nat));
    if n >= 10 {
        push_decimal(out, n / 10);
    }
    out.push(d);
    assert(out@ =~= old(out)@ + decimal(n as nat));
}

/// `n` in decimal notation.
pub fn decimal_text(n: u128) -> (r: String)
    ensures
        r@ == decimal(n as nat),
{
    let mut out = String::new();
    push_decimal(&mut out, n);
    assert(out@ =~= decimal(n as nat));
    out
}

/// A numeral is made of digits, has at least one of them, and grows with the number.
pub proof fn lemma_decimal(n: nat)
    ensures
        decimal(n).len() >= 1,
        utf8_len(decimal(n)) == decimal(n).len(),
        forall|i: int| 0 <= i < decimal(n).len() ==> '0' <= #[trigger] decimal(n)[i] <= '9',
    decreases n,
{
    if n < 10 {
        lemma_utf8_len_one(digit(n));
    } else {
        lemma_decimal(n / 10);
        assert(decimal(n).drop_last() =~= decimal(n / 10));
    }
}

/// A smaller number has no longer numeral.
pub proof fn lemma_decimal_monotone(a: nat, b: nat)
    requires
        a <= b,
    ensures
        decimal(a).len() <= decimal(b).len(),
    decreases b,
{
    if b >= 10 {
        if a < 10 {
            lemma_decimal(b / 10);
        } else {
            lemma_decimal_monotone(a / 10, b / 10);
        }
    }
}

/// Different numbers have different numerals.
pub proof fn decimal_is_injective(a: nat, b: nat)
    requires
        decimal(a) == decimal(b),
    ensures
        a == b,
    decreases a,
{
    lemma_decimal(a);
    lemma_decimal(b);
    if a < 10 {
        if b >= 10 {
            lemma_decimal(b / 10);
            assert(decimal(b).len() >= 2);
        } else {
            assert(decimal(a)[0] == decimal(b)[0]);
        }
    } else if b < 10 {
        lemma_decimal(a / 10);
        assert(decimal(a).len() >= 2);
    } else {
        assert(decimal(a).drop_last() =~= decimal(a / 10));
        assert(decimal(b).drop_last() =~= decimal(b / 10));
        decimal_is_injective(a / 10, b / 10);
        assert(decimal(a).last() == decimal(b).last());
    }
}

// ---------- Searching ----------

/// `prefix` stands at the start of `s`.
pub open spec fn starts(s: Seq<char>, prefix: Seq<char>) -> bool {
    prefix.len() <= s.len() && s.take(prefix.len() as int) == prefix
}

/// Tells whether `prefix` stands at the start of `s`.
pub fn has_prefix(s: &str, prefix: &str) -> (r: bool)
    ensures
        r == starts(s@, prefix@),
{
    let a = to_chars(s);
    let b = to_chars(prefix);
    if b.len() > a.len() {
        return false;
    }
    let mut i: usize = 0;
    while i < b.len()
        invariant
            a@ == s@,
            b@ == prefix@,
            i <= b@.len() <= a@.len(),
            forall|j: int| 0 <= j < i ==> a@[j] == b@[j],
        decreases b.len() - i,
    {
        if a[i] != b[i] {
            assert(s@.take(prefix@.len() as int)[i as int] != prefix@[i as int]);
            return false;
        }
        i += 1;
    }
    assert(s@.take(prefix@.len() as int) =~= prefix@);
    true
}

/// Tells whether `c` occurs in `s`.
pub fn has_char(s: &str, c: char) -> (r: bool)
    ensures
        r == s@.contains(c),
{
    let chars = to_chars(s);
    let mut i: usize = 0;
    while i < chars.len()
        invariant
            chars@ == s@,
            i <= chars@.len(),
            forall|j: int| 0 <= j < i ==> s@[j] != c,
        decreases chars.len() - i,
    {
        if chars[i] == c {
            assert(s@[i as int] == c);
            return true;
        }
        i += 1;
    }
    false
}

/// Where `c` first occurs in `s`; the length of `s` if it does not.
pub open spec fn first_index(s: Seq<char>, c: char) -> nat
    decreases s.len(),
{
    if s.len() == 0 || s[0] == c {
        0
    } else {
        1 + first_index(s.drop_first(), c)
    }
}

/// The first occurrence is one, and none comes before it.
pub proof fn first_index_is_first(s: Seq<char>, c: char)
    ensures
        first_index(s, c) <= s.len(),
        first_index(s, c) < s.len() ==> s[first_index(s, c) as int] == c,
        forall|i: int| 0 <= i < first_index(s, c) ==> s[i] != c,
    decreases s.len(),
{
    if s.len() > 0 && s[0] != c {
        first_index_is_first(s.drop_first(), c);
        assert forall|i: int| 0 <= i < first_index(s, c) implies s[i] != c by {
            if i > 0 {
                assert(s.drop_first()[i - 1] == s[i]);
            }
        }
    }
}

/// Where `c` first occurs in `chars`; their number if it does not.
pub fn find_char(chars: &Vec<char>, c: char) -> (r: usize)
    ensures
        r == first_index(chars@, c),
        r <= chars@.len(),
{
    let mut i: usize = 0;
    assert(chars@.skip(0) =~= chars@);
    while i < chars.len() && chars[i] != c
        invariant
            i <= chars@.len(),
            first_index(chars@, c) == i + first_index(chars@.skip(i as int), c),
        decreases chars.len() - i,
    {
        assert(chars@.skip(i as int)[0] == chars@[i as int]);
        assert(chars@.skip(i as int).drop_first() =~= chars@.skip(i + 1));
        i += 1;
    }
    assert(i < chars@.len() ==> chars@.skip(i as int)[0] == chars@[i as int]);
    i
}

/// How often `c` occurs in `s`.
pub open spec fn occurrences(s: Seq<char>, c: char) -> nat
    decreases s.len(),
{
    if s.len() == 0 {
        0
    } else {
        occurrences(s.drop_last(), c) + if s.last() == c {
            1nat
        } else {
            0nat
        }
    }
}

/// How often `c` occurs in `s`.
pub fn count_char(s: &str, c: char) -> (r: usize)
    ensures
        r == occurrences(s@, c),
        r <= s@.len(),
{
    let chars = to_chars(s);
    let mut count: usize = 0;
    let mut i: usize = 0;
    assert(chars@.take(0) =~= Seq::empty());
    while i < chars.len()
        invariant
            i <= chars@.len(),
            count <= i,
            count == occurrences(chars@.take(i as int), c),
        decreases chars.len() - i,
    {
        assert(chars@.take(i + 1).drop_last() =~= chars@.take(i as int));
        if chars[i] == c {
            count += 1;
        }
        i += 1;
    }
    assert(chars@.take(i as int) =~= s@);
    count
}

/// `count` copies of `c`.
pub open spec fn repeated(c: char, count: nat) -> Seq<char> {
    Seq::new(count, |i: int| c)
}

/// Appends `count` copies of `c`.
pub fn push_repeated(out: &mut String, c: char, count: usize)
    ensures
        final(out)@ == old(out)@ + repeated(c, count as nat),
{
    let ghost start = out@;
    let mut i: usize = 0;
    assert(out@ =~= start + repeated(c, 0));
    while i < count
        invariant
            i <= count,
            out@ == start + repeated(c, i as nat),
        decreases count - i,
    {
        out.push(c);
        i += 1;
        assert(out@ =~= start + repeated(c, i as nat));
    }
}

// ---------- Pieces in order ----------

/// `piece` stands in `text` from position `i` on.
pub open spec fn stands_at(text: Seq<char>, piece: Seq<char>, i: int) -> bool {
    0 <= i <= text.len() - piece.len() && text.subrange(i, i + piece.len()) == piece
}

/// `text` holds `pieces` one after the other, in this order, whatever stands between them.
pub open spec fn holds_in_order(text: Seq<char>, pieces: Seq<Seq<char>>) -> bool
    decreases pieces.len(),
{
    pieces.len() == 0 || exists|i: int| #[trigger]
        stands_at(text, pieces[0], i) && holds_in_order(
            text.skip(i + pieces[0].len()),
            pieces.drop_first(),
        )
}

/// A text behind another still holds its pieces.
pub proof fn lemma_holds_behind(a: Seq<char>, b: Seq<char>, pieces: Seq<Seq<char>>)
    requires
        holds_in_order(b, pieces),
    ensures
        holds_in_order(a + b, pieces),
{
    if pieces.len() > 0 {
        let n = pieces[0].len();
        let i = choose|i: int| #[trigger]
            stands_at(b, pieces[0], i) && holds_in_order(b.skip(i + n), pieces.drop_first());
        let j = a.len() + i;
        assert((a + b).subrange(j, j + n) =~= b.subrange(i, i + n));
        assert((a + b).skip(j + n) =~= b.skip(i + n));
        assert(stands_at(a + b, pieces[0], j));
    }
}

/// Two texts, one behind the other, hold the pieces of both.
pub proof fn lemma_holds_both(a: Seq<char>, b: Seq<char>, p: Seq<Seq<char>>, q: Seq<Seq<char>>)
    requires
        holds_in_order(a, p),
        holds_in_order(b, q),
    ensures
        holds_in_order(a + b, p + q),
    decreases p.len(),
{
    if p.len() == 0 {
        assert(p + q =~= q);
        lemma_holds_behind(a, b, q);
    } else {
        let n = p[0].len();
        let i = choose|i: int| #[trigger]
            stands_at(a, p[0], i) && holds_in_order(a.skip(i + n), p.drop_first());
        lemma_holds_both(a.skip(i + n), b, p.drop_first(), q);
        assert((p + q).drop_first() =~= p.drop_first() + q);
        assert((p + q)[0] == p[0]);
        assert((a + b).subrange(i, i + n) =~= a.subrange(i, i + n));
        assert((a + b).skip(i + n) =~= a.skip(i + n) + b);
        assert(stands_at(a + b, (p + q)[0], i));
    }
}

/// A text holds itself.
pub proof fn lemma_holds_itself(s: Seq<char>)
    ensures
        holds_in_order(s, seq![s]),
        holds_in_order(s, Seq::empty()),
{
    let p = seq![s];
    assert(s.subrange(0, s.len() as int) =~= s);
    assert(stands_at(s, p[0], 0));
    assert(holds_in_order(s.skip(0int + p[0].len()), p.drop_first()));
}

/// A text that holds pieces still holds them before another text.
pub proof fn lemma_holds_before(a: Seq<char>, b: Seq<char>, pieces: Seq<Seq<char>>)
    requires
        holds_in_order(a, pieces),
    ensures
        holds_in_order(a + b, pieces),
{
    lemma_holds_itself(b);
    lemma_holds_both(a, b, pieces, Seq::empty());
    assert(pieces + Seq::<Seq<char>>::empty() =~= pieces);
}

/// A lead, a piece: the two hold the piece.
pub proof fn lemma_holds_next(text: Seq<char>, lead: Seq<char>, piece: Seq<char>, pieces: Seq<Seq<char>>)
    requires
        holds_in_order(text, pieces),
    ensures
        holds_in_order(text + lead + piece, pieces.push(piece)),
{
    lemma_holds_before(text, lead, pieces);
    lemma_holds_itself(piece);
    lemma_holds_both(text + lead, piece, pieces, seq![piece]);
    assert(pieces + seq![piece] =~= pieces.push(piece));
}

/// Joined texts are held one after the other, whatever stands between them.
pub proof fn joined_texts_are_held_in_order(parts: Seq<Seq<char>>, sep: Seq<char>)
    ensures
        holds_in_order(join(parts, sep), parts),
    decreases parts.len(),
{
    if parts.len() == 0 {
        lemma_holds_itself(Seq::empty());
    } else if parts.len() == 1 {
        lemma_holds_itself(parts[0]);
        assert(parts =~= seq![parts[0]]);
    } else {
        let d = parts.drop_last();
        joined_texts_are_held_in_order(d, sep);
        lemma_holds_next(join(d, sep), sep, parts.last(), d);
        assert(d.push(parts.last()) =~= parts);
    }
}

/// What stands in `s` besides white space.
pub open spec fn solid(s: Seq<char>) -> Seq<char>
    decreases s.len(),
{
    if s.len() == 0 {
        Seq::empty()
    } else if is_white(s.last()) {
        solid(s.drop_last())
    } else {
        solid(s.drop_last()).push(s.last())
    }
}

/// What stands in two texts besides white space stands in both together.
pub proof fn lemma_solid_add(a: Seq<char>, b: Seq<char>)
    ensures
        solid(a + b) == solid(a) + solid(b),
    decreases b.len(),
{
    if b.len() == 0 {
        assert(a + b =~= a);
        assert(solid(a) + solid(b) =~= solid(a));
    } else {
        lemma_solid_add(a, b.drop_last());
        assert((a + b).drop_last() =~= a + b.drop_last());
        assert((a + b).last() == b.last());
        if !is_white(b.last()) {
            assert((solid(a) + solid(b.drop_last())).push(b.last()) =~= solid(a) + solid(
                b.drop_last(),
            ).push(b.last()));
        }
    }
}

/// What stands in a single character besides white space.
pub proof fn lemma_solid_one(c: char)
    ensures
        solid(seq![c]) == (if is_white(c) {
            Seq::empty()
        } else {
            seq![c]
        }),
{
    reveal_with_fuel(solid, 2);
    assert(seq![c].drop_last() =~= Seq::empty());
    assert(Seq::empty().push(c) =~= seq![c]);
}

proof fn lemma_solid_words(s: Seq<char>)
    ensures
        ({
            let (done, open) = word_state(s);
            solid(join(done, " "@)) + solid(open) == solid(s)
        }),
    decreases s.len(),
{
    reveal_strlit(" ");
    if s.len() == 0 {
        assert(solid(join(word_state(s).0, " "@)) + solid(word_state(s).1) =~= solid(s));
    } else {
        let d = s.drop_last();
        lemma_solid_words(d);
        let (done, open) = word_state(d);
        let c = s.last();
        if !is_white(c) {
            assert(open.push(c).drop_last() =~= open);
            assert(solid(join(done, " "@)) + solid(open).push(c) =~= (solid(join(done, " "@))
                + solid(open)).push(c));
        } else if open.len() > 0 {
            let all = done.push(open);
            assert(all.drop_last() =~= done);
            if done.len() > 0 {
                lemma_solid_add(join(done, " "@) + " "@, open);
                lemma_solid_add(join(done, " "@), " "@);
                lemma_solid_one(' ');
                assert(" "@ =~= seq![' ']);
                assert(solid(join(done, " "@)) + Seq::<char>::empty() =~= solid(join(done, " "@)));
            } else {
                assert(solid(join(done, " "@)) + solid(open) =~= solid(open));
            }
            assert(solid(join(all, " "@)) + solid(Seq::empty()) =~= solid(join(all, " "@)));
        }
    }
}

/// The words of a text, joined by spaces, say all that the text says.
pub proof fn words_say_what_the_text_says(s: Seq<char>)
    ensures
        solid(join(words(s), " "@)) == solid(s),
{
    reveal_strlit(" ");
    lemma_solid_words(s);
    let (done, open) = word_state(s);
    if open.len() == 0 {
        assert(solid(open) =~= Seq::empty());
        assert(solid(join(done, " "@)) + solid(open) =~= solid(join(done, " "@)));
    } else {
        let all = done.push(open);
        assert(all.drop_last() =~= done);
        if done.len() > 0 {
            lemma_solid_add(join(done, " "@) + " "@, open);
            lemma_solid_add(join(done, " "@), " "@);
            lemma_solid_one(' ');
            assert(" "@ =~= seq![' ']);
            assert(solid(join(done, " "@)) + Seq::<char>::empty() =~= solid(join(done, " "@)));
        } else {
            assert(solid(join(done, " "@)) + solid(open) =~= solid(open));
        }
    }
}

/// Trimming takes nothing but white space, and leaves none at either end.
pub proof fn trimming_takes_white_space_alone(s: Seq<char>)
    ensures
        solid(trim(s)) == solid(s),
        solid(trim_end(s)) == solid(s),
        solid(trim_start(s)) == solid(s),
        trim(s).len() > 0 ==> !is_white(trim(s)[0]) && !is_white(trim(s).last()),
        trim_end(s) == s.take(trim_end(s).len() as int),
        trim_end(s).len() > 0 ==> !is_white(trim_end(s).last()),
{
    lemma_trim_ends(s);
    lemma_trim_end(s);
    lemma_solid_start(s);
    lemma_solid_end(s);
    lemma_solid_end(trim_start(s));
}

proof fn lemma_solid_end(s: Seq<char>)
    ensures
        solid(trim_end(s)) == solid(s),
    decreases s.len(),
{
    if s.len() > 0 && is_white(s.last()) {
        lemma_solid_end(s.drop_last());
    }
}

proof fn lemma_solid_start(s: Seq<char>)
    ensures
        solid(trim_start(s)) == solid(s),
    decreases s.len(),
{
    if s.len() > 0 && is_white(s[0]) {
        lemma_solid_start(s.drop_first());
        assert(s =~= seq![s[0]] + s.drop_first());
        lemma_solid_add(seq![s[0]], s.drop_first());
        lemma_solid_one(s[0]);
        assert(Seq::<char>::empty() + solid(s.drop_first()) =~= solid(s.drop_first()));
    }
}

/// Fewer pieces are held where more are: those at `a` and at `b`.
pub proof fn lemma_holds_two(text: Seq<char>, pieces: Seq<Seq<char>>, a: int, b: int)
    requires
        holds_in_order(text, pieces),
        0 <= a < b < pieces.len(),
    ensures
        holds_in_order(text, seq![pieces[a], pieces[b]]),
    decreases pieces.len(),
{
    let n = pieces[0].len();
    let i = choose|i: int| #[trigger]
        stands_at(text, pieces[0], i) && holds_in_order(text.skip(i + n), pieces.drop_first());
    let tail = text.skip(i + n);
    assert(text =~= text.take(i + n) + tail);
    if a > 0 {
        lemma_holds_two(tail, pieces.drop_first(), a - 1, b - 1);
        lemma_holds_behind(text.take(i + n), tail, seq![pieces[a], pieces[b]]);
    } else {
        lemma_holds_one(tail, pieces.drop_first(), b - 1);
        let two = seq![pieces[a], pieces[b]];
        assert(two.drop_first() =~= seq![pieces[b]]);
        assert(stands_at(text, two[0], i));
    }
}

/// Where pieces are held, each of them is.
pub proof fn lemma_holds_one(text: Seq<char>, pieces: Seq<Seq<char>>, a: int)
    requires
        holds_in_order(text, pieces),
        0 <= a < pieces.len(),
    ensures
        holds_in_order(text, seq![pieces[a]]),
    decreases pieces.len(),
{
    let n = pieces[0].len();
    let i = choose|i: int| #[trigger]
        stands_at(text, pieces[0], i) && holds_in_order(text.skip(i + n), pieces.drop_first());
    let tail = text.skip(i + n);
    assert(text =~= text.take(i + n) + tail);
    if a > 0 {
        lemma_holds_one(tail, pieces.drop_first(), a - 1);
        lemma_holds_behind(text.take(i + n), tail, seq![pieces[a]]);
    } else {
        let one = seq![pieces[a]];
        assert(one.drop_first() =~= Seq::empty());
        assert(stands_at(text, one[0], i));
        assert(holds_in_order(text.skip(i + one[0].len()), one.drop_first()));
    }
}

/// A text is split at a separator into the pieces before and behind it.
pub proof fn lemma_split_at(a: Seq<char>, sep: char, b: Seq<char>)
    ensures
        split(a + seq![sep] + b, sep) == split(a, sep) + split(b, sep),
    decreases b.len(),
{
    lemma_split_nonempty(a, sep);
    lemma_split_nonempty(b, sep);
    let s = a + seq![sep] + b;
    if b.len() == 0 {
        assert(s.drop_last() =~= a);
        assert(split(a, sep).push(Seq::empty()) =~= split(a, sep) + split(b, sep));
    } else {
        let d = b.drop_last();
        assert(s.drop_last() =~= a + seq![sep] + d);
        assert(s.last() == b.last());
        lemma_split_at(a, sep, d);
        lemma_split_nonempty(d, sep);
        let pieces = split(a, sep) + split(d, sep);
        if b.last() == sep {
            assert(pieces.push(Seq::empty()) =~= split(a, sep) + split(b, sep));
        } else {
            assert(pieces.drop_last() =~= split(a, sep) + split(d, sep).drop_last());
            assert(pieces.drop_last().push(pieces.last().push(b.last())) =~= split(a, sep) + split(
                b,
                sep,
            ));
        }
    }
}

/// A text without separators is a single piece.
pub proof fn lemma_split_one(s: Seq<char>, sep: char)
    requires
        !s.contains(sep),
    ensures
        split(s, sep) == seq![s],
    decreases s.len(),
{
    if s.len() > 0 {
        let d = s.drop_last();
        assert forall|i: int| 0 <= i < d.len() implies d[i] != sep by {
            assert(s[i] != sep);
        }
        lemma_split_one(d, sep);
        assert(s[s.len() - 1] != sep);
        assert(d.push(s.last()) =~= s);
        assert(split(s, sep) =~= seq![s]);
    } else {
        assert(s =~= Seq::empty());
    }
}

/// Pieces that hold no separator come back from the text that they are joined to by it.
pub proof fn split_undoes_join(parts: Seq<Seq<char>>, sep: char)
    requires
        parts.len() > 0,
        forall|k: int| 0 <= k < parts.len() ==> !(#[trigger] parts[k]).contains(sep),
    ensures
        split(join(parts, seq![sep]), sep) == parts,
    decreases parts.len(),
{
    let last = parts.len() - 1;
    assert(!parts[last].contains(sep));
    lemma_split_one(parts[last], sep);
    if last > 0 {
        let d = parts.drop_last();
        assert forall|k: int| 0 <= k < d.len() implies !(#[trigger] d[k]).contains(sep) by {
            assert(d[k] == parts[k]);
        }
        split_undoes_join(d, sep);
        lemma_split_at(join(d, seq![sep]), sep, parts[last]);
        assert(d + seq![parts[last]] =~= parts);
    } else {
        assert(parts =~= seq![parts[0]]);
    }
}

/// The lines of a text are what stands between its line breaks: lines that hold none come back
/// from the text that they are written to, with a line break at its end or not.
pub proof fn lines_come_back(parts: Seq<Seq<char>>)
    requires
        parts.len() > 0,
        parts.last().len() > 0,
        forall|k: int|
            0 <= k < parts.len() ==> !(#[trigger] parts[k]).contains('\n') && (parts[k].len() > 0
                ==> parts[k].last() != '\r'),
    ensures
        lines(join(parts, "\n"@)) == parts,
        lines(join(parts, "\n"@) + "\n"@) == parts,
{
    reveal_strlit("\n");
    assert("\n"@ =~= seq!['\n']);
    split_undoes_join(parts, '\n');
    let text = join(parts, "\n"@);
    let none = Seq::<char>::empty();
    lemma_split_at(text, '\n', none);
    assert(text + seq!['\n'] + none =~= text + "\n"@);
    assert(!none.contains('\n'));
    lemma_split_one(none, '\n');
    assert((parts + seq![none]).drop_last() =~= parts);
    assert(parts[parts.len() - 1] == parts.last());
    assert forall|k: int| 0 <= k < parts.len() implies without_return(#[trigger] parts[k])
        == parts[k] by {}
    assert(lines(text) =~= parts);
    assert(lines(text + "\n"@) =~= parts);
}

/// What stands besides white space in all of `parts`, one after the other.
pub open spec fn all_solid(parts: Seq<Seq<char>>) -> Seq<char>
    decreases parts.len(),
{
    if parts.len() == 0 {
        Seq::empty()
    } else {
        all_solid(parts.drop_last()) + solid(parts.last())
    }
}

/// What stands in two lists of texts stands in both together.
pub proof fn lemma_all_solid_add(a: Seq<Seq<char>>, b: Seq<Seq<char>>)
    ensures
        all_solid(a + b) == all_solid(a) + all_solid(b),
    decreases b.len(),
{
    if b.len() == 0 {
        assert(a + b =~= a);
        assert(all_solid(a) + all_solid(b) =~= all_solid(a));
    } else {
        lemma_all_solid_add(a, b.drop_last());
        assert((a + b).drop_last() =~= a + b.drop_last());
        assert((a + b).last() == b.last());
        assert(all_solid(a) + all_solid(b.drop_last()) + solid(b.last()) =~= all_solid(a) + (
        all_solid(b.drop_last()) + solid(b.last())));
    }
}

/// Splitting at white space loses nothing else.
pub proof fn lemma_all_solid_split(s: Seq<char>, sep: char)
    requires
        is_white(sep),
    ensures
        all_solid(split(s, sep)) == solid(s),
    decreases s.len(),
{
    reveal_with_fuel(all_solid, 2);
    let pieces = split(s, sep);
    lemma_split_nonempty(s, sep);
    if s.len() == 0 {
        assert(pieces.drop_last() =~= Seq::empty());
        assert(all_solid(pieces) =~= solid(s));
    } else {
        let d = s.drop_last();
        let before = split(d, sep);
        lemma_split_nonempty(d, sep);
        lemma_all_solid_split(d, sep);
        if s.last() == sep {
            assert(pieces.drop_last() =~= before);
            assert(all_solid(before) + solid(Seq::empty()) =~= all_solid(before));
        } else {
            assert(pieces.drop_last() =~= before.drop_last());
            assert(before.last().push(s.last()).drop_last() =~= before.last());
            assert(all_solid(before.drop_last()) + solid(before.last()).push(s.last()) =~= (
            all_solid(before.drop_last()) + solid(before.last())).push(s.last()));
        }
    }
}

/// Joining by white space adds nothing else.
pub proof fn lemma_solid_join(parts: Seq<Seq<char>>, sep: Seq<char>)
    requires
        is_blank(sep),
    ensures
        solid(join(parts, sep)) == all_solid(parts),
    decreases parts.len(),
{
    reveal_with_fuel(all_solid, 2);
    if parts.len() == 1 {
        assert(parts.drop_last() =~= Seq::empty());
        assert(Seq::<char>::empty() + solid(parts[0]) =~= solid(parts[0]));
    } else if parts.len() > 1 {
        let d = parts.drop_last();
        lemma_solid_join(d, sep);
        lemma_solid_add(join(d, sep) + sep, parts.last());
        lemma_solid_add(join(d, sep), sep);
        lemma_solid_blank(sep);
        assert(all_solid(d) + Seq::<char>::empty() =~= all_solid(d));
    }
}

/// White space is nothing besides white space.
pub proof fn lemma_solid_blank(s: Seq<char>)
    requires
        is_blank(s),
    ensures
        solid(s) == Seq::<char>::empty(),
    decreases s.len(),
{
    if s.len() > 0 {
        assert forall|i: int| 0 <= i < s.len() - 1 implies is_white(#[trigger] s.drop_last()[i]) by {
            assert(is_white(s[i]));
        }
        lemma_solid_blank(s.drop_last());
        assert(is_white(s[s.len() - 1]));
    }
}

} // verus!
