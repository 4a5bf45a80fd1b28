//! Projection of JSON values to a budget of bytes.
//!
//! A value whose encoding fits its budget stays as it is. A text keeps its head and tail, an
//! array samples its first and last items, and an object keeps its shortest scalars, its
//! longest one and its first structures; what is left out is counted in a note.
use vstd::prelude::*;
use vstd::string::*;
use crate::json;
use crate::json::{json_fits, json_len, names_field, set_field, Json, JsonView};
use crate::text;
use crate::text::{byte_len, decimal_text, to_chars};
use crate::truncate;
use crate::truncate::truncate_chars;

verus! {

/// The most items that a projected array samples.
pub const MAX_ITEMS: usize = 8;

/// The most scalar fields that a projected object keeps.
pub const MAX_SCALARS: usize = 8;

/// The most fields with arrays or objects that a projected object keeps.
pub const MAX_STRUCTURES: usize = 4;

// ---------- Height ----------

/// How deeply arrays and objects are nested in `v`.
pub open spec fn height(v: JsonView) -> nat
    decreases v,
{
    match v {
        JsonView::Array(items) => 1 + tallest(items),
        JsonView::Object(fields) => 1 + tallest_field(fields),
        _ => 0,
    }
}

/// The greatest height among `items`.
pub open spec fn tallest(items: Seq<JsonView>) -> nat
    decreases items,
{
    if items.len() == 0 {
        0
    } else {
        let rest = tallest(items.drop_last());
        let last = height(items.last());
        if last > rest {
            last
        } else {
            rest
        }
    }
}

/// The greatest height among the values of `fields`.
pub open spec fn tallest_field(fields: Seq<(Seq<char>, JsonView)>) -> nat
    decreases fields,
{
    if fields.len() == 0 {
        0
    } else {
        let rest = tallest_field(fields.drop_last());
        let last = height(fields.last().1);
        if last > rest {
            last
        } else {
            rest
        }
    }
}

proof fn lemma_tallest(items: Seq<JsonView>, i: int)
    requires
        0 <= i < items.len(),
    ensures
        height(items[i]) <= tallest(items),
    decreases items.len(),
{
    if i < items.len() - 1 {
        lemma_tallest(items.drop_last(), i);
    }
}

proof fn lemma_tallest_field(fields: Seq<(Seq<char>, JsonView)>, i: int)
    requires
        0 <= i < fields.len(),
    ensures
        height(fields[i].1) <= tallest_field(fields),
    decreases fields.len(),
{
    if i < fields.len() - 1 {
        lemma_tallest_field(fields.drop_last(), i);
    }
}

proof fn lemma_tallest_at_most(items: Seq<JsonView>, h: nat)
    requires
        forall|i: int| 0 <= i < items.len() ==> height(#[trigger] items[i]) <= h,
    ensures
        tallest(items) <= h,
    decreases items.len(),
{
    if items.len() > 0 {
        let d = items.drop_last();
        assert forall|i: int| 0 <= i < d.len() implies height(#[trigger] d[i]) <= h by {
            assert(d[i] == items[i]);
        }
        lemma_tallest_at_most(d, h);
    }
}

pub proof fn lemma_sample_height(items: Seq<JsonView>, head: int, tail: int)
    requires
        0 <= head <= items.len(),
        0 <= tail <= items.len(),
    ensures
        tallest(items.take(head) + items.skip(items.len() - tail)) <= tallest(items),
{
    let chosen = items.take(head) + items.skip(items.len() - tail);
    assert forall|i: int| 0 <= i < chosen.len() implies height(#[trigger] chosen[i]) <= tallest(
        items,
    ) by {
        if i < head {
            lemma_tallest(items, i);
        } else {
            lemma_tallest(items, items.len() - tail + (i - head));
        }
    }
    lemma_tallest_at_most(chosen, tallest(items));
}

// ---------- Texts ----------

/// The label of the note in a shortened JSON text.
pub open spec fn text_label() -> Seq<char> {
    "JSON string"@
}

/// The search by halves for a limit between `low` and `high` at which the shortened text `s`
/// encodes within `max` bytes; `best` is the last text that did.
pub open spec fn text_search(s: Seq<char>, max: nat, low: nat, high: int, best: Seq<char>) -> Seq<
    char,
>
    decreases high - low + 1,
{
    if low > high {
        best
    } else {
        let limit = (low + (high - low) / 2) as nat;
        let candidate = truncate::head_and_tail(s, limit, text_label());
        if json::encoded_len(JsonView::Text(candidate)) <= max {
            text_search(s, max, limit + 1, high, candidate)
        } else if limit == 0 {
            best
        } else {
            text_search(s, max, low, limit - 1, best)
        }
    }
}

/// The text `s`, shortened so that it encodes within `max` bytes.
fn project_json_string(text: &str, max_bytes: usize) -> (r: Json)
    ensures
        r@ == JsonView::Text(text_search(text@, max_bytes as nat, 0, max_bytes as int, Seq::empty())),
{
    let chars = to_chars(text);
    let total = byte_len(text);
    let mut low: usize = 0;
    let mut high: usize = max_bytes;
    let mut best = Json::Text(String::new());
    assert(best@ == JsonView::Text(Seq::empty())) by {
        assert(best@->Text_0 =~= Seq::empty());
    }
    let ghost whole = text_search(text@, max_bytes as nat, 0, max_bytes as int, Seq::empty());
    while low <= high
        invariant
            chars@ == text@,
            total == text::utf8_len(text@),
            best@ is Text,
            whole == text_search(
                text@,
                max_bytes as nat,
                low as nat,
                high as int,
                best@->Text_0,
            ),
        ensures
            best@ == JsonView::Text(whole),
        decreases high + 1 - low,
    {
        let limit: usize = low + (high - low) / 2;
        let candidate = Json::Text(truncate_chars(&chars, total, limit, "JSON string"));
        if json_fits(&candidate, max_bytes) {
            best = candidate;
            if limit >= high {
                assert(whole == text_search(
                    text@,
                    max_bytes as nat,
                    (limit + 1) as nat,
                    high as int,
                    best@->Text_0,
                ));
                break ;
            }
            low = limit + 1;
        } else if limit == 0 {
            break ;
        } else {
            high = limit - 1;
        }
    }
    best
}

// ---------- Fields ----------

/// Arrays and objects, as opposed to scalars.
pub open spec fn is_structure(v: JsonView) -> bool {
    v is Array || v is Object
}

/// Field `i` has a shorter encoding than field `j`, or one of the same length and an earlier
/// name.
pub open spec fn shorter(fields: Seq<(Seq<char>, JsonView)>, i: int, j: int) -> bool {
    let a = json::encoded_len(fields[i].1);
    let b = json::encoded_len(fields[j].1);
    a < b || (a == b && i < j)
}

/// `sorted` with `i` put behind all that are no longer than field `i`.
pub open spec fn insert_by_len(
    fields: Seq<(Seq<char>, JsonView)>,
    sorted: Seq<int>,
    i: int,
) -> Seq<int>
    decreases sorted.len(),
{
    if sorted.len() == 0 || !shorter(fields, i, sorted.last()) {
        sorted.push(i)
    } else {
        insert_by_len(fields, sorted.drop_last(), i).push(sorted.last())
    }
}

/// The positions of the scalars among the first `n` fields, the shortest first.
pub open spec fn scalars_by_len(fields: Seq<(Seq<char>, JsonView)>, n: nat) -> Seq<int>
    decreases n,
{
    if n == 0 {
        Seq::empty()
    } else {
        let sorted = scalars_by_len(fields, (n - 1) as nat);
        if is_structure(fields[n - 1].1) {
            sorted
        } else {
            insert_by_len(fields, sorted, n - 1)
        }
    }
}

/// How many of the first `n` fields hold an array or an object.
pub open spec fn structures(fields: Seq<(Seq<char>, JsonView)>, n: nat) -> nat
    decreases n,
{
    if n == 0 {
        0
    } else {
        structures(fields, (n - 1) as nat) + if is_structure(fields[n - 1].1) {
            1nat
        } else {
            0nat
        }
    }
}

/// The first `count` elements of `s`, or all of them.
pub open spec fn at_most<A>(s: Seq<A>, count: nat) -> Seq<A> {
    if s.len() <= count {
        s
    } else {
        s.take(count as int)
    }
}

/// A projected object may keep field `i`: it is among the first structures, among the
/// shortest scalars, or the longest scalar.
pub open spec fn is_kept(fields: Seq<(Seq<char>, JsonView)>, i: int) -> bool {
    if is_structure(fields[i].1) {
        structures(fields, i as nat) < MAX_STRUCTURES
    } else {
        let sorted = scalars_by_len(fields, fields.len());
        at_most(sorted, (MAX_SCALARS - 1) as nat).contains(i) || sorted.last() == i
    }
}

/// The positions among the first `n` that a projected object may keep.
pub open spec fn kept_fields(fields: Seq<(Seq<char>, JsonView)>, n: nat) -> Seq<int>
    decreases n,
{
    if n == 0 {
        Seq::empty()
    } else {
        let rest = kept_fields(fields, (n - 1) as nat);
        if is_kept(fields, n - 1) {
            rest.push(n - 1)
        } else {
            rest
        }
    }
}

/// The names at `positions`.
pub open spec fn names_at(fields: Seq<(Seq<char>, JsonView)>, positions: Seq<int>) -> Seq<
    Seq<char>,
> {
    Seq::new(positions.len(), |k: int| fields[positions[k]].0)
}

/// The values at `positions`.
pub open spec fn values_at(fields: Seq<(Seq<char>, JsonView)>, positions: Seq<int>) -> Seq<
    JsonView,
> {
    Seq::new(positions.len(), |k: int| fields[positions[k]].1)
}

/// The length of the longest name.
pub open spec fn longest_name(fields: Seq<(Seq<char>, JsonView)>) -> nat
    decreases fields.len(),
{
    if fields.len() == 0 {
        0
    } else {
        let rest = longest_name(fields.drop_last());
        if fields.last().0.len() > rest {
            fields.last().0.len()
        } else {
            rest
        }
    }
}

pub proof fn lemma_longest_name(fields: Seq<(Seq<char>, JsonView)>, name: Seq<char>)
    requires
        json::has_name(fields, name),
    ensures
        name.len() <= longest_name(fields),
    decreases fields.len(),
{
    let i = choose|i: int| 0 <= i < fields.len() && (#[trigger] fields[i]).0 == name;
    if i < fields.len() - 1 {
        let d = fields.drop_last();
        assert(d[i].0 == name);
        lemma_longest_name(d, name);
    }
}

/// `name`, behind as many underscores as it takes to be the name of no field.
pub open spec fn free_name(fields: Seq<(Seq<char>, JsonView)>, name: Seq<char>) -> Seq<char>
    decreases longest_name(fields) + 1 - name.len(),
{
    if json::has_name(fields, name) {
        proof {
            lemma_longest_name(fields, name);
        }
        free_name(fields, seq!['_'] + name)
    } else {
        name
    }
}

/// The free name is no name of a field.
pub proof fn free_name_is_free(fields: Seq<(Seq<char>, JsonView)>, name: Seq<char>)
    ensures
        !json::has_name(fields, free_name(fields, name)),
    decreases longest_name(fields) + 1 - name.len(),
{
    if json::has_name(fields, name) {
        lemma_longest_name(fields, name);
        free_name_is_free(fields, seq!['_'] + name);
    }
}

// ---------- Frames ----------

/// What a projected array or object is built around: its projected children, and a note on
/// what is omitted, if anything is.
pub enum FrameView {
    Array { at: nat, omitted: nat },
    Object { names: Seq<Seq<char>>, marker: Seq<char>, omitted: nat },
}

/// The note on omitted items, which stands among the items.
pub open spec fn items_note(omitted: nat) -> JsonView {
    JsonView::Object(
        seq![("__thx_omitted_items"@, JsonView::Number(text::decimal(omitted)))],
    )
}

/// `names` with `values`, each with its own.
pub open spec fn paired(names: Seq<Seq<char>>, values: Seq<JsonView>) -> Seq<
    (Seq<char>, JsonView),
> {
    Seq::new(names.len(), |i: int| (names[i], values[i]))
}

impl FrameView {
    /// The array or object with the given children.
    pub open spec fn build(self, children: Seq<JsonView>) -> JsonView {
        match self {
            FrameView::Array { at, omitted } => JsonView::Array(
                if omitted > 0 {
                    children.insert(at as int, items_note(omitted))
                } else {
                    children
                },
            ),
            FrameView::Object { names, marker, omitted } => JsonView::Object(
                if omitted > 0 {
                    json::with_field(
                        paired(names, children),
                        marker,
                        JsonView::Number(text::decimal(omitted)),
                    )
                } else {
                    paired(names, children)
                },
            ),
        }
    }
}

// ---------- Projection ----------

/// `v` within `max` bytes.
pub open spec fn projected(v: JsonView, max: nat) -> JsonView
    decreases height(v), 3nat, 0int,
{
    if json::encoded_len(v) <= max {
        v
    } else {
        match v {
            JsonView::Text(s) => JsonView::Text(
                text_search(s, max, 0, max as int, Seq::empty()),
            ),
            JsonView::Array(items) => projected_items(
                items,
                if items.len() <= MAX_ITEMS {
                    items.len()
                } else {
                    MAX_ITEMS as nat
                },
                max,
            ),
            JsonView::Object(fields) => projected_fields(
                fields,
                kept_fields(fields, fields.len()).len(),
                max,
            ),
            _ => JsonView::Null,
        }
    }
}

/// The first and last `keep` items and fewer, until some number of them fits.
pub open spec fn projected_items(items: Seq<JsonView>, keep: nat, max: nat) -> JsonView
    decreases 1 + tallest(items), 2nat, keep as int,
{
    if keep > items.len() {
        JsonView::Array(Seq::empty())
    } else {
        let head = keep as int / 2;
        let tail = keep as int - head;
        proof {
            lemma_sample_height(items, head, tail);
        }
        match fitted(
            FrameView::Array { at: head as nat, omitted: (items.len() - keep) as nat },
            items.take(head) + items.skip(items.len() - tail),
            max,
            0,
            max as int,
            None,
        ) {
            Some(candidate) => candidate,
            None => if keep == 0 {
                JsonView::Array(Seq::empty())
            } else {
                projected_items(items, (keep - 1) as nat, max)
            },
        }
    }
}

/// The first `keep` of the fields worth keeping and fewer, until some number of them fits.
pub open spec fn projected_fields(
    fields: Seq<(Seq<char>, JsonView)>,
    keep: nat,
    max: nat,
) -> JsonView
    decreases 1 + tallest_field(fields), 2nat, keep as int,
{
    let kept = kept_fields(fields, fields.len());
    if keep > kept.len() {
        JsonView::Object(Seq::empty())
    } else {
        let chosen = kept.take(keep as int);
        proof {
            lemma_kept(fields, fields.len());
            lemma_chosen_height(fields, chosen);
        }
        match fitted(
            FrameView::Object {
                names: names_at(fields, chosen),
                marker: free_name(fields, "__thx_omitted_fields"@),
                omitted: (fields.len() - keep) as nat,
            },
            values_at(fields, chosen),
            max,
            0,
            max as int,
            None,
        ) {
            Some(candidate) => candidate,
            None => if keep == 0 {
                JsonView::Object(Seq::empty())
            } else {
                projected_fields(fields, (keep - 1) as nat, max)
            },
        }
    }
}

/// The search by halves for a budget between `low` and `high`, the same for every child, at
/// which the frame encodes within `max` bytes; `best` is the last value that did.
pub open spec fn fitted(
    frame: FrameView,
    children: Seq<JsonView>,
    max: nat,
    low: nat,
    high: int,
    best: Option<JsonView>,
) -> Option<JsonView>
    decreases 1 + tallest(children), 1nat, high - low + 1,
{
    if low > high {
        best
    } else {
        let budget = (low + (high - low) / 2) as nat;
        let candidate = frame.build(projected_all(children, budget));
        if json::encoded_len(candidate) <= max {
            fitted(frame, children, max, budget + 1, high, Some(candidate))
        } else if budget == 0 {
            best
        } else {
            fitted(frame, children, max, low, budget - 1, best)
        }
    }
}

/// Each of `children` within `max` bytes.
pub open spec fn projected_all(children: Seq<JsonView>, max: nat) -> Seq<JsonView>
    decreases 1 + tallest(children), 0nat, children.len() as int,
{
    if children.len() == 0 {
        Seq::empty()
    } else {
        projected_all(children.drop_last(), max).push(projected(children.last(), max))
    }
}

/// The positions that are kept ascend and are positions of fields.
pub proof fn lemma_kept(fields: Seq<(Seq<char>, JsonView)>, n: nat)
    requires
        n <= fields.len(),
    ensures
        kept_fields(fields, n).len() <= n,
        forall|k: int|
            0 <= k < kept_fields(fields, n).len() ==> 0 <= #[trigger] kept_fields(fields, n)[k] < n,
        forall|j: int, k: int|
            0 <= j < k < kept_fields(fields, n).len() ==> #[trigger] kept_fields(fields, n)[j]
                < #[trigger] kept_fields(fields, n)[k],
    decreases n,
{
    if n > 0 {
        lemma_kept(fields, (n - 1) as nat);
    }
}

pub proof fn lemma_chosen_height(fields: Seq<(Seq<char>, JsonView)>, chosen: Seq<int>)
    requires
        forall|k: int| 0 <= k < chosen.len() ==> 0 <= #[trigger] chosen[k] < fields.len(),
    ensures
        tallest(values_at(fields, chosen)) <= tallest_field(fields),
{
    let values = values_at(fields, chosen);
    assert forall|k: int| 0 <= k < values.len() implies height(#[trigger] values[k])
        <= tallest_field(fields) by {
        lemma_tallest_field(fields, chosen[k]);
    }
    lemma_tallest_at_most(values, tallest_field(fields));
}

// ---------- Which scalars stay ----------

/// The positions in `s` stand in the order of `shorter`.
spec fn in_order(fields: Seq<(Seq<char>, JsonView)>, s: Seq<int>) -> bool {
    forall|a: int, b: int|
        0 <= a < b < s.len() ==> shorter(fields, #[trigger] s[a], #[trigger] s[b])
}

proof fn lemma_insert(fields: Seq<(Seq<char>, JsonView)>, s: Seq<int>, i: int)
    requires
        in_order(fields, s),
        0 <= i,
        forall|k: int| 0 <= k < s.len() ==> 0 <= #[trigger] s[k] < i,
    ensures
        in_order(fields, insert_by_len(fields, s, i)),
        insert_by_len(fields, s, i).len() == s.len() + 1,
        forall|k: int|
            0 <= k <= s.len() ==> 0 <= #[trigger] insert_by_len(fields, s, i)[k] <= i,
        insert_by_len(fields, s, i).last() == if s.len() == 0 || !shorter(fields, i, s.last()) {
            i
        } else {
            s.last()
        },
        forall|k: int|
            0 <= k <= s.len() ==> (#[trigger] insert_by_len(fields, s, i)[k]) == i || s.contains(
                insert_by_len(fields, s, i)[k],
            ),
    decreases s.len(),
{
    if s.len() == 0 || !shorter(fields, i, s.last()) {
        let r = s.push(i);
        assert forall|k: int| 0 <= k <= s.len() implies (#[trigger] r[k]) == i || s.contains(
            r[k],
        ) by {
            if k < s.len() {
                assert(s[k] == r[k]);
            }
        }
    } else {
        let d = s.drop_last();
        lemma_insert(fields, d, i);
        let w = insert_by_len(fields, d, i);
        let r = w.push(s.last());
        assert forall|k: int| 0 <= k < w.len() implies shorter(
            fields,
            #[trigger] w[k],
            s.last(),
        ) by {
            if w[k] != i {
                let m = choose|m: int| 0 <= m < d.len() && d[m] == w[k];
                assert(shorter(fields, s[m], s[s.len() - 1]));
            }
        }
        assert forall|k: int| 0 <= k <= s.len() implies (#[trigger] r[k]) == i || s.contains(
            r[k],
        ) by {
            if k < w.len() {
                if w[k] != i {
                    let m = choose|m: int| 0 <= m < d.len() && d[m] == w[k];
                    assert(s[m] == r[k]);
                }
            } else {
                assert(s[s.len() - 1] == r[k]);
            }
        }
    }
}

proof fn lemma_scalars(fields: Seq<(Seq<char>, JsonView)>, n: nat)
    ensures
        in_order(fields, scalars_by_len(fields, n)),
        forall|k: int|
            0 <= k < scalars_by_len(fields, n).len() ==> 0 <= #[trigger] scalars_by_len(
                fields,
                n,
            )[k] < n,
    decreases n,
{
    if n > 0 {
        lemma_scalars(fields, (n - 1) as nat);
        if !is_structure(fields[n - 1].1) {
            lemma_insert(fields, scalars_by_len(fields, (n - 1) as nat), n - 1);
        }
    }
}

/// The first few after an insertion come from the first few before it.
proof fn lemma_insert_prefix(
    fields: Seq<(Seq<char>, JsonView)>,
    s: Seq<int>,
    i: int,
    count: nat,
)
    requires
        in_order(fields, s),
        0 <= i,
        forall|k: int| 0 <= k < s.len() ==> 0 <= #[trigger] s[k] < i,
        count > 0,
    ensures
        at_most(insert_by_len(fields, s, i), count) == at_most(
            insert_by_len(fields, at_most(s, count), i),
            count,
        ),
    decreases s.len(),
{
    if s.len() > count {
        let p = s.take(count as int);
        lemma_insert(fields, s, i);
        lemma_insert(fields, p, i);
        if !shorter(fields, i, s.last()) {
            assert(shorter(fields, s[count - 1], s[s.len() - 1]));
            assert(p.last() == s[count - 1]);
            assert(s.push(i).take(count as int) =~= p);
            assert(p.push(i).take(count as int) =~= p);
        } else {
            let d = s.drop_last();
            lemma_insert(fields, d, i);
            let w = insert_by_len(fields, d, i);
            lemma_insert_prefix(fields, d, i, count);
            assert(w.push(s.last()).take(count as int) =~= w.take(count as int));
            if d.len() > count {
                assert(d.take(count as int) =~= p);
            } else {
                assert(d =~= p);
            }
        }
    }
}

/// What `sorted` holds, as positions.
spec fn positions(v: Seq<usize>) -> Seq<int> {
    Seq::new(v.len(), |k: int| v[k] as int)
}

/// Puts `i` into `sorted` and keeps the first `count`.
fn insert_shortest(
    lens: &Vec<usize>,
    sorted: &mut Vec<usize>,
    i: usize,
    count: usize,
    Ghost(fields): Ghost<Seq<(Seq<char>, JsonView)>>,
)
    requires
        fields.len() == lens@.len(),
        i < lens@.len(),
        old(sorted)@.len() <= count,
        count < usize::MAX,
        !is_structure(fields[i as int].1),
        forall|k: int|
            0 <= k < fields.len() && !is_structure((#[trigger] fields[k]).1) ==> lens@[k]
                == json::encoded_len(fields[k].1),
        forall|k: int|
            0 <= k < old(sorted)@.len() ==> (#[trigger] old(sorted)@[k]) < i && !is_structure(
                fields[old(sorted)@[k] as int].1,
            ),
    ensures
        positions(final(sorted)@) == at_most(
            insert_by_len(fields, positions(old(sorted)@), i as int),
            count as nat,
        ),
        final(sorted)@.len() <= count,
        forall|k: int|
            0 <= k < final(sorted)@.len() ==> (#[trigger] final(sorted)@[k]) <= i && !is_structure(
                fields[final(sorted)@[k] as int].1,
            ),
{
    let ghost start = positions(sorted@);
    let mut at: usize = sorted.len();
    assert(start.take(at as int) =~= start);
    assert(insert_by_len(fields, start, i as int) + start.skip(at as int) =~= insert_by_len(
        fields,
        start,
        i as int,
    ));
    while at > 0 && lens[i] < lens[sorted[at - 1]]
        invariant
            at <= sorted@.len(),
            sorted@ == old(sorted)@,
            start == positions(sorted@),
            fields.len() == lens@.len(),
            i < lens@.len(),
            !is_structure(fields[i as int].1),
            forall|k: int|
                0 <= k < fields.len() && !is_structure((#[trigger] fields[k]).1) ==> lens@[k]
                    == json::encoded_len(fields[k].1),
            forall|k: int|
                0 <= k < sorted@.len() ==> (#[trigger] sorted@[k]) < i && !is_structure(
                    fields[sorted@[k] as int].1,
                ),
            insert_by_len(fields, start, i as int) == insert_by_len(
                fields,
                start.take(at as int),
                i as int,
            ) + start.skip(at as int),
        decreases at,
    {
        proof {
            let head = start.take(at as int);
            assert(head.last() == start[at - 1]);
            assert(head.drop_last() =~= start.take(at - 1));
            let w = insert_by_len(fields, head.drop_last(), i as int);
            assert(w.push(head.last()) + start.skip(at as int) =~= w + start.skip(at - 1));
        }
        at -= 1;
    }
    proof {
        let head = start.take(at as int);
        if at > 0 {
            assert(head.last() == start[at - 1]);
            assert(start[at - 1] == sorted@[at - 1]);
        }
        assert(head.push(i as int) + start.skip(at as int) =~= start.insert(at as int, i as int));
    }
    sorted.insert(at, i);
    assert(positions(sorted@) =~= start.insert(at as int, i as int));
    if sorted.len() > count {
        sorted.pop();
        assert(positions(sorted@) =~= start.insert(at as int, i as int).take(count as int));
    }
}

/// The positions of the fields that a projected object may keep, in ascending order.
fn choose_fields(values: &Vec<(String, Json)>) -> (r: Vec<usize>)
    ensures
        positions(r@) == kept_fields(json::fields_view(values@), values@.len()),
{
    let ghost fields = json::fields_view(values@);
    let mut lens: Vec<usize> = Vec::new();
    let mut n: usize = 0;
    while n < values.len()
        invariant
            n <= values@.len(),
            fields == json::fields_view(values@),
            lens@.len() == n,
            forall|k: int|
                0 <= k < n && !is_structure((#[trigger] fields[k]).1) ==> lens@[k] == json::encoded_len(
                    fields[k].1,
                ),
        decreases values.len() - n,
    {
        let len: usize = if structure(&values[n].1) {
            0
        } else {
            json_len(&values[n].1)
        };
        lens.push(len);
        n += 1;
    }
    let mut shortest: Vec<usize> = Vec::new();
    let mut longest: Option<usize> = None;
    n = 0;
    assert(positions(shortest@) =~= Seq::empty());
    while n < values.len()
        invariant
            n <= values@.len(),
            fields == json::fields_view(values@),
            lens@.len() == fields.len(),
            forall|k: int|
                0 <= k < fields.len() && !is_structure((#[trigger] fields[k]).1) ==> lens@[k]
                    == json::encoded_len(fields[k].1),
            shortest@.len() <= MAX_SCALARS - 1,
            positions(shortest@) == at_most(
                scalars_by_len(fields, n as nat),
                (MAX_SCALARS - 1) as nat,
            ),
            forall|k: int|
                0 <= k < shortest@.len() ==> (#[trigger] shortest@[k]) < n && !is_structure(
                    fields[shortest@[k] as int].1,
                ),
            longest is None <==> scalars_by_len(fields, n as nat).len() == 0,
            longest matches Some(i) ==> i < n && !is_structure(fields[i as int].1)
                && scalars_by_len(fields, n as nat).last() == i,
        decreases values.len() - n,
    {
        if !structure(&values[n].1) {
            proof {
                let s = scalars_by_len(fields, n as nat);
                lemma_scalars(fields, n as nat);
                lemma_insert(fields, s, n as int);
                lemma_insert_prefix(fields, s, n as int, (MAX_SCALARS - 1) as nat);
            }
            insert_shortest(&lens, &mut shortest, n, MAX_SCALARS - 1, Ghost(fields));
            let longer = match longest {
                None => true,
                Some(i) => lens[n] >= lens[i],
            };
            if longer {
                longest = Some(n);
            }
        }
        n += 1;
    }
    let mut out: Vec<usize> = Vec::new();
    let mut held: usize = 0;
    n = 0;
    assert(positions(out@) =~= Seq::empty());
    while n < values.len()
        invariant
            n <= values@.len(),
            fields == json::fields_view(values@),
            positions(shortest@) == at_most(
                scalars_by_len(fields, fields.len()),
                (MAX_SCALARS - 1) as nat,
            ),
            longest is None <==> scalars_by_len(fields, fields.len()).len() == 0,
            longest matches Some(i) ==> scalars_by_len(fields, fields.len()).last() == i,
            held == structures(fields, n as nat),
            held <= n,
            positions(out@) == kept_fields(fields, n as nat),
        decreases values.len() - n,
    {
        let keep: bool;
        if structure(&values[n].1) {
            keep = held < MAX_STRUCTURES;
            held += 1;
        } else {
            proof {
                lemma_is_listed(fields, fields.len(), n as int);
            }
            keep = holds(&shortest, n) || longest == Some(n);
        }
        assert(keep == is_kept(fields, n as int));
        if keep {
            out.push(n);
        }
        assert(positions(out@) =~= kept_fields(fields, (n + 1) as nat));
        n += 1;
    }
    out
}

/// A scalar is among the scalars, so there is a longest one.
proof fn lemma_is_listed(fields: Seq<(Seq<char>, JsonView)>, n: nat, i: int)
    requires
        0 <= i < n,
        !is_structure(fields[i].1),
    ensures
        scalars_by_len(fields, n).len() > 0,
    decreases n,
{
    lemma_scalars(fields, (n - 1) as nat);
    if i == n - 1 {
        lemma_insert(fields, scalars_by_len(fields, (n - 1) as nat), n - 1);
    } else {
        lemma_is_listed(fields, (n - 1) as nat, i);
        if !is_structure(fields[n - 1].1) {
            lemma_insert(fields, scalars_by_len(fields, (n - 1) as nat), n - 1);
        }
    }
}

/// Tells whether `v` holds `i`.
fn holds(v: &Vec<usize>, i: usize) -> (r: bool)
    ensures
        r == positions(v@).contains(i as int),
{
    let mut k: usize = 0;
    while k < v.len()
        invariant
            k <= v@.len(),
            forall|j: int| 0 <= j < k ==> (#[trigger] positions(v@)[j]) != i,
        decreases v.len() - k,
    {
        if v[k] == i {
            assert(positions(v@)[k as int] == i);
            return true;
        }
        k += 1;
    }
    false
}

/// Tells whether `value` is an array or an object.
fn structure(value: &Json) -> (r: bool)
    ensures
        r == is_structure(value@),
{
    match value {
        Json::Array(_) => true,
        Json::Object(_) => true,
        _ => false,
    }
}

// ---------- Building ----------

/// A frame for projected children.
enum Frame {
    Array { at: usize, omitted: usize },
    Object { names: Vec<String>, marker: String, omitted: usize },
}

/// What a list of values holds.
spec fn value_views(values: Seq<&Json>) -> Seq<JsonView> {
    Seq::new(values.len(), |i: int| values[i]@)
}

impl Frame {
    spec fn model(&self) -> FrameView {
        match self {
            Frame::Array { at, omitted } => FrameView::Array {
                at: *at as nat,
                omitted: *omitted as nat,
            },
            Frame::Object { names, marker, omitted } => FrameView::Object {
                names: text::texts(names@),
                marker: marker@,
                omitted: *omitted as nat,
            },
        }
    }

    /// The children that the frame is made for: `count` of them.
    spec fn takes(&self, count: nat) -> bool {
        match self {
            Frame::Array { at, omitted } => *at <= count,
            Frame::Object { names, marker, omitted } => names@.len() == count,
        }
    }

    /// The array or object with the given children.
    fn build(&self, children: Vec<Json>) -> (r: Json)
        requires
            self.takes(children@.len()),
        ensures
            r@ == self.model().build(json::items_view(children@)),
    {
        let mut items = children;
        match self {
            Frame::Array { at, omitted } => {
                let ghost start = json::items_view(items@);
                if *omitted > 0 {
                    let mut fields: Vec<(String, Json)> = Vec::new();
                    let name = "__thx_omitted_items".to_owned();
                    fields.push((name, Json::Number(decimal_text(*omitted as u128))));
                    let note = Json::Object(fields);
                    proof {
                        json::lemma_json_view(note);
                        assert(json::fields_view(fields@) =~= items_note(*omitted as nat)->Object_0);
                    }
                    items.insert(*at, note);
                    assert(json::items_view(items@) =~= start.insert(
                        *at as int,
                        items_note(*omitted as nat),
                    ));
                }
                let r = Json::Array(items);
                proof {
                    json::lemma_json_view(r);
                }
                r
            },
            Frame::Object { names, marker, omitted } => {
                let ghost values = json::items_view(items@);
                let ghost whole = paired(text::texts(names@), values);
                let mut fields: Vec<(String, Json)> = Vec::new();
                let mut i: usize = names.len();
                while i > 0
                    invariant
                        i <= names@.len(),
                        items@.len() == i,
                        values.len() == names@.len(),
                        json::items_view(items@) == values.take(i as int),
                        whole == paired(text::texts(names@), values),
                        json::fields_view(fields@) == whole.skip(i as int),
                    decreases i,
                {
                    i -= 1;
                    assert(json::items_view(items@)[i as int] == values[i as int]);
                    let ghost rest = json::fields_view(fields@);
                    if let Some(value) = items.pop() {
                        fields.insert(0, (names[i].clone(), value));
                    }
                    assert(json::items_view(items@) =~= values.take(i as int));
                    assert(json::fields_view(fields@) =~= seq![whole[i as int]] + rest);
                    assert(json::fields_view(fields@) =~= whole.skip(i as int));
                }
                assert(json::fields_view(fields@) =~= whole);
                if *omitted > 0 {
                    set_field(
                        &mut fields,
                        marker.clone(),
                        Json::Number(decimal_text(*omitted as u128)),
                    );
                }
                let r = Json::Object(fields);
                proof {
                    json::lemma_json_view(r);
                }
                r
            },
        }
    }
}

// ---------- Projecting ----------

/// The frame with each child within a budget as great as fits, if any does.
fn fit_json_children(frame: &Frame, children: &Vec<&Json>, max_bytes: usize) -> (r: Option<Json>)
    requires
        frame.takes(children@.len()),
    ensures
        json::optional_view(r) == fitted(
            frame.model(),
            value_views(children@),
            max_bytes as nat,
            0,
            max_bytes as int,
            None,
        ),
    decreases 1 + tallest(value_views(children@)), 1nat, max_bytes + 1,
{
    let ghost views = value_views(children@);
    let ghost whole = fitted(
        frame.model(),
        views,
        max_bytes as nat,
        0,
        max_bytes as int,
        None,
    );
    let mut low: usize = 0;
    let mut high: usize = max_bytes;
    let mut best: Option<Json> = None;
    while low <= high
        invariant
            frame.takes(children@.len()),
            views == value_views(children@),
            whole == fitted(
                frame.model(),
                views,
                max_bytes as nat,
                low as nat,
                high as int,
                json::optional_view(best),
            ),
        ensures
            json::optional_view(best) == whole,
        decreases high + 1 - low,
    {
        let budget: usize = low + (high - low) / 2;
        let mut projections: Vec<Json> = Vec::new();
        let mut i: usize = 0;
        assert(json::items_view(projections@) =~= projected_all(views.take(0), budget as nat));
        while i < children.len()
            invariant
                i <= children@.len(),
                views == value_views(children@),
                projections@.len() == i,
                json::items_view(projections@) == projected_all(views.take(i as int), budget as nat),
            decreases children.len() - i,
        {
            proof {
                lemma_tallest(views, i as int);
                let head = views.take(i + 1);
                assert(head.drop_last() =~= views.take(i as int));
                assert(head.last() == views[i as int]);
            }
            projections.push(project_json_value(children[i], budget));
            i += 1;
            assert(json::items_view(projections@) =~= projected_all(views.take(i as int), budget as nat));
        }
        assert(views.take(i as int) =~= views);
        let candidate = frame.build(projections);
        if json_fits(&candidate, max_bytes) {
            best = Some(candidate);
            if budget >= high {
                assert(whole == fitted(
                    frame.model(),
                    views,
                    max_bytes as nat,
                    (budget + 1) as nat,
                    high as int,
                    json::optional_view(best),
                ));
                break ;
            }
            low = budget + 1;
        } else if budget == 0 {
            break ;
        } else {
            high = budget - 1;
        }
    }
    best
}

/// The first and last items of `values` that fit, each within its budget.
fn project_json_array(values: &Vec<Json>, max_bytes: usize) -> (r: Json)
    ensures
        r@ == projected_items(
            json::items_view(values@),
            if values@.len() <= MAX_ITEMS {
                values@.len()
            } else {
                MAX_ITEMS as nat
            },
            max_bytes as nat,
        ),
    decreases 1 + tallest(json::items_view(values@)), 2nat, values@.len() as int,
{
    let ghost items = json::items_view(values@);
    let mut keep: usize = if values.len() <= MAX_ITEMS {
        values.len()
    } else {
        MAX_ITEMS
    };
    let ghost whole = projected_items(items, keep as nat, max_bytes as nat);
    loop
        invariant
            keep <= values@.len(),
            items == json::items_view(values@),
            whole == projected_items(
                items,
                if values@.len() <= MAX_ITEMS {
                    values@.len()
                } else {
                    MAX_ITEMS as nat
                },
                max_bytes as nat,
            ),
            whole == projected_items(items, keep as nat, max_bytes as nat),
        ensures
            whole == JsonView::Array(Seq::empty()),
        decreases keep,
    {
        let head: usize = keep / 2;
        let tail: usize = keep - head;
        let mut chosen: Vec<&Json> = Vec::new();
        let mut i: usize = 0;
        while i < keep
            invariant
                i <= keep,
                keep <= values@.len(),
                head == keep / 2,
                tail == keep - head,
                chosen@.len() == i,
                forall|k: int|
                    0 <= k < i ==> (#[trigger] chosen@[k])@ == if k < head {
                        values@[k]@
                    } else {
                        values@[values@.len() - tail + (k - head)]@
                    },
            decreases keep - i,
        {
            if i < head {
                chosen.push(&values[i]);
            } else {
                chosen.push(&values[values.len() - tail + (i - head)]);
            }
            i += 1;
        }
        let frame = Frame::Array { at: head, omitted: values.len() - keep };
        proof {
            lemma_sample_height(items, head as int, tail as int);
            assert(value_views(chosen@) =~= items.take(head as int) + items.skip(
                items.len() - tail,
            ));
        }
        if let Some(candidate) = fit_json_children(&frame, &chosen, max_bytes) {
            return candidate;
        }
        if keep == 0 {
            break ;
        }
        keep -= 1;
    }
    let r = Json::Array(Vec::new());
    proof {
        json::lemma_json_view(r);
        assert(r@->Array_0 =~= Seq::empty());
    }
    r
}

/// The fields of `values` that are worth keeping and fit, each within its budget.
fn project_json_object(values: &Vec<(String, Json)>, max_bytes: usize) -> (r: Json)
    ensures
        r@ == projected_fields(
            json::fields_view(values@),
            kept_fields(json::fields_view(values@), values@.len()).len(),
            max_bytes as nat,
        ),
    decreases 1 + tallest_field(json::fields_view(values@)), 2nat, values@.len() as int,
{
    let ghost fields = json::fields_view(values@);
    let selected = choose_fields(values);
    let ghost kept = kept_fields(fields, fields.len());
    let mut marker = "__thx_omitted_fields".to_owned();
    while names_field(values, marker.as_str())
        invariant
            fields == json::fields_view(values@),
            free_name(fields, marker@) == free_name(fields, "__thx_omitted_fields"@),
        decreases longest_name(fields) + 1 - marker@.len(),
    {
        proof {
            lemma_longest_name(fields, marker@);
        }
        let mut longer = "_".to_owned();
        proof {
            reveal_strlit("_");
            assert("_"@ =~= seq!['_']);
        }
        longer.append(marker.as_str());
        marker = longer;
    }
    let mut keep: usize = selected.len();
    let ghost whole = projected_fields(fields, keep as nat, max_bytes as nat);
    proof {
        lemma_kept(fields, fields.len());
    }
    loop
        invariant
            fields == json::fields_view(values@),
            kept == kept_fields(fields, fields.len()),
            positions(selected@) == kept,
            keep <= selected@.len(),
            kept.len() <= fields.len(),
            forall|k: int| 0 <= k < kept.len() ==> 0 <= #[trigger] kept[k] < fields.len(),
            marker@ == free_name(fields, "__thx_omitted_fields"@),
            whole == projected_fields(fields, kept.len(), max_bytes as nat),
            whole == projected_fields(fields, keep as nat, max_bytes as nat),
        ensures
            whole == JsonView::Object(Seq::empty()),
        decreases keep,
    {
        let ghost chosen = kept.take(keep as int);
        let mut names: Vec<String> = Vec::new();
        let mut children: Vec<&Json> = Vec::new();
        let mut i: usize = 0;
        while i < keep
            invariant
                i <= keep,
                fields == json::fields_view(values@),
                keep <= selected@.len(),
                positions(selected@) == kept,
                forall|k: int| 0 <= k < kept.len() ==> 0 <= #[trigger] kept[k] < fields.len(),
                names@.len() == i,
                children@.len() == i,
                forall|k: int| 0 <= k < i ==> (#[trigger] names@[k])@ == fields[kept[k]].0,
                forall|k: int| 0 <= k < i ==> (#[trigger] children@[k])@ == fields[kept[k]].1,
            decreases keep - i,
        {
            let at: usize = selected[i];
            assert(kept[i as int] == at);
            names.push(values[at].0.clone());
            children.push(&values[at].1);
            i += 1;
        }
        proof {
            lemma_chosen_height(fields, chosen);
            assert(text::texts(names@) =~= names_at(fields, chosen));
            assert(value_views(children@) =~= values_at(fields, chosen));
        }
        let frame = Frame::Object { names, marker: marker.clone(), omitted: values.len() - keep };
        if let Some(candidate) = fit_json_children(&frame, &children, max_bytes) {
            return candidate;
        }
        if keep == 0 {
            break ;
        }
        keep -= 1;
    }
    let r = Json::Object(Vec::new());
    proof {
        json::lemma_json_view(r);
        assert(r@->Object_0 =~= Seq::empty());
    }
    r
}

/// `value` within `max_bytes` bytes.
pub fn project_json_value(value: &Json, max_bytes: usize) -> (r: Json)
    ensures
        r@ == projected(value@, max_bytes as nat),
    decreases height(value@), 3nat, 0int,
{
    if json_fits(value, max_bytes) {
        return value.copy();
    }
    proof {
        json::lemma_json_view(*value);
    }
    match value {
        Json::Text(text) => project_json_string(text.as_str(), max_bytes),
        Json::Array(values) => project_json_array(values, max_bytes),
        Json::Object(values) => project_json_object(values, max_bytes),
        _ => Json::Null,
    }
}

/// `value` within `max_bytes` bytes.
pub fn limit_json(value: Json, max_bytes: usize) -> (r: Json)
    ensures
        r@ == projected(value@, max_bytes as nat),
{
    if json_fits(&value, max_bytes) {
        return value;
    }
    project_json_value(&value, max_bytes)
}

// ---------- Laws ----------

proof fn lemma_text_search_fits(s: Seq<char>, max: nat, low: nat, high: int, best: Seq<char>)
    ensures
        text_search(s, max, low, high, best) == best || json::encoded_len(
            JsonView::Text(text_search(s, max, low, high, best)),
        ) <= max,
    decreases high - low + 1,
{
    if low <= high {
        let limit = (low + (high - low) / 2) as nat;
        let candidate = truncate::head_and_tail(s, limit, text_label());
        if json::encoded_len(JsonView::Text(candidate)) <= max {
            lemma_text_search_fits(s, max, limit + 1, high, candidate);
        } else if limit > 0 {
            lemma_text_search_fits(s, max, low, limit - 1, best);
        }
    }
}

proof fn lemma_fitted_fits(
    frame: FrameView,
    children: Seq<JsonView>,
    max: nat,
    low: nat,
    high: int,
    best: Option<JsonView>,
)
    requires
        best matches Some(v) ==> json::encoded_len(v) <= max,
    ensures
        fitted(frame, children, max, low, high, best) matches Some(v) ==> json::encoded_len(v) <= max,
    decreases high - low + 1,
{
    if low <= high {
        let budget = (low + (high - low) / 2) as nat;
        let candidate = frame.build(projected_all(children, budget));
        if json::encoded_len(candidate) <= max {
            lemma_fitted_fits(frame, children, max, budget + 1, high, Some(candidate));
        } else if budget > 0 {
            lemma_fitted_fits(frame, children, max, low, budget - 1, best);
        }
    }
}

proof fn lemma_items_fit(items: Seq<JsonView>, keep: nat, max: nat)
    ensures
        projected_items(items, keep, max) == JsonView::Array(Seq::empty()) || json::encoded_len(
            projected_items(items, keep, max),
        ) <= max,
    decreases keep,
{
    let head = keep as int / 2;
    let tail = keep as int - head;
    if keep <= items.len() {
        lemma_fitted_fits(
            FrameView::Array { at: head as nat, omitted: (items.len() - keep) as nat },
            items.take(head) + items.skip(items.len() - tail),
            max,
            0,
            max as int,
            None,
        );
        if keep > 0 {
            lemma_items_fit(items, (keep - 1) as nat, max);
        }
    }
}

proof fn lemma_fields_fit(fields: Seq<(Seq<char>, JsonView)>, keep: nat, max: nat)
    ensures
        projected_fields(fields, keep, max) == JsonView::Object(Seq::empty()) || json::encoded_len(
            projected_fields(fields, keep, max),
        ) <= max,
    decreases keep,
{
    let kept = kept_fields(fields, fields.len());
    if keep <= kept.len() {
        let chosen = kept.take(keep as int);
        lemma_fitted_fits(
            FrameView::Object {
                names: names_at(fields, chosen),
                marker: free_name(fields, "__thx_omitted_fields"@),
                omitted: (fields.len() - keep) as nat,
            },
            values_at(fields, chosen),
            max,
            0,
            max as int,
            None,
        );
        if keep > 0 {
            lemma_fields_fit(fields, (keep - 1) as nat, max);
        }
    }
}

/// What is left of a value when nothing else of it fits.
pub open spec fn bare(v: JsonView) -> JsonView {
    match v {
        JsonView::Text(_) => JsonView::Text(Seq::empty()),
        JsonView::Array(_) => JsonView::Array(Seq::empty()),
        JsonView::Object(_) => JsonView::Object(Seq::empty()),
        _ => JsonView::Null,
    }
}

/// A projected value keeps its budget, or there is nothing left of it.
proof fn lemma_projection_fits(v: JsonView, max: nat)
    ensures
        projected(v, max) == bare(v) || json::encoded_len(projected(v, max)) <= max,
{
    if json::encoded_len(v) > max {
        match v {
            JsonView::Text(s) => {
                lemma_text_search_fits(s, max, 0, max as int, Seq::empty());
            },
            JsonView::Array(items) => {
                lemma_items_fit(
                    items,
                    if items.len() <= MAX_ITEMS {
                        items.len()
                    } else {
                        MAX_ITEMS as nat
                    },
                    max,
                );
            },
            JsonView::Object(fields) => {
                lemma_fields_fit(fields, kept_fields(fields, fields.len()).len(), max);
            },
            _ => {},
        }
    }
}

/// A projected value keeps its budget, where the budget leaves room for it or for `null`, for
/// an empty text, or for no items or fields in its place.
pub proof fn projection_keeps_the_budget(v: JsonView, max: nat)
    requires
        json::encoded_len(v) <= max || json::encoded_len(bare(v)) <= max,
    ensures
        json::encoded_len(projected(v, max)) <= max,
{
    lemma_projection_fits(v, max);
}

/// A value that fits its budget is projected to itself.
pub proof fn projection_leaves_what_fits(v: JsonView, max: nat)
    requires
        json::encoded_len(v) <= max,
    ensures
        projected(v, max) == v,
{
}

/// Nothing is left of an empty text.
proof fn lemma_bare_text(max: nat, low: nat, high: int)
    requires
        json::encoded_len(JsonView::Text(Seq::empty())) > max,
    ensures
        text_search(Seq::empty(), max, low, high, Seq::empty()) == Seq::<char>::empty(),
    decreases high - low + 1,
{
    if low <= high {
        let limit = (low + (high - low) / 2) as nat;
        truncate::truncation_leaves_short_text(Seq::empty(), limit, text_label());
        if limit > 0 {
            lemma_bare_text(max, low, limit - 1);
        }
    }
}

/// A frame without children that does not fit is not fitted.
proof fn lemma_bare_frame(frame: FrameView, max: nat, low: nat, high: int, best: Option<JsonView>)
    requires
        json::encoded_len(frame.build(Seq::empty())) > max,
    ensures
        fitted(frame, Seq::empty(), max, low, high, best) == best,
    decreases high - low + 1,
{
    if low <= high {
        let budget = (low + (high - low) / 2) as nat;
        assert(projected_all(Seq::empty(), budget) =~= Seq::empty());
        if budget > 0 {
            lemma_bare_frame(frame, max, low, budget - 1, best);
        }
    }
}

/// Projecting what is left of a value where nothing else fits leaves it.
proof fn lemma_bare_stays(v: JsonView, max: nat)
    requires
        json::encoded_len(bare(v)) > max,
    ensures
        projected(bare(v), max) == bare(v),
{
    match v {
        JsonView::Text(_) => {
            lemma_bare_text(max, 0, max as int);
        },
        JsonView::Array(_) => {
            let items = Seq::<JsonView>::empty();
            let frame = FrameView::Array { at: 0, omitted: 0 };
            assert(items.take(0) + items.skip(0) =~= items);
            lemma_bare_frame(frame, max, 0, max as int, None);
            assert(projected_items(items, 0, max) == JsonView::Array(Seq::empty()));
        },
        JsonView::Object(_) => {
            let fields = Seq::<(Seq<char>, JsonView)>::empty();
            let chosen = kept_fields(fields, 0).take(0);
            let frame = FrameView::Object {
                names: names_at(fields, chosen),
                marker: free_name(fields, "__thx_omitted_fields"@),
                omitted: 0,
            };
            assert(values_at(fields, chosen) =~= Seq::empty());
            assert(paired(names_at(fields, chosen), Seq::empty()) =~= fields);
            lemma_bare_frame(frame, max, 0, max as int, None);
            assert(projected_fields(fields, 0, max) == JsonView::Object(Seq::empty()));
        },
        _ => {},
    }
}

/// Projecting twice is projecting once.
pub proof fn projection_is_idempotent(v: JsonView, max: nat)
    ensures
        projected(projected(v, max), max) == projected(v, max),
{
    lemma_projection_fits(v, max);
    if json::encoded_len(projected(v, max)) > max {
        lemma_bare_stays(v, max);
    }
}

/// Every one of `children` is valid.
spec fn all_valid(children: Seq<JsonView>) -> bool {
    forall|i: int| 0 <= i < children.len() ==> json::valid(#[trigger] children[i])
}

/// The frame takes `count` children and has its names in ascending order.
spec fn sound(frame: FrameView, count: nat) -> bool {
    match frame {
        FrameView::Array { at, omitted } => at <= count,
        FrameView::Object { names, marker, omitted } => names.len() == count && forall|
            i: int,
            j: int,
        |
            0 <= i < j < names.len() ==> json::before(#[trigger] names[i], #[trigger] names[j]),
    }
}

proof fn lemma_build_valid(frame: FrameView, children: Seq<JsonView>)
    requires
        all_valid(children),
        sound(frame, children.len()),
    ensures
        json::valid(frame.build(children)),
{
    match frame {
        FrameView::Array { at, omitted } => {
            let note = items_note(omitted);
            reveal_with_fuel(json::valid, 2);
            assert(json::valid(note));
            let items = frame.build(children)->Array_0;
            assert forall|i: int| 0 <= i < items.len() implies json::valid(#[trigger] items[i]) by {
                if omitted > 0 && i > at {
                    assert(items[i] == children[i - 1]);
                } else if omitted == 0 || i < at {
                    assert(items[i] == children[i]);
                }
            }
        },
        FrameView::Object { names, marker, omitted } => {
            let pairs = paired(names, children);
            assert(json::ascending(pairs));
            let count = JsonView::Number(text::decimal(omitted));
            json::with_field_keeps_order(pairs, marker, count);
            let fields = frame.build(children)->Object_0;
            assert forall|i: int| 0 <= i < fields.len() implies json::valid(
                (#[trigger] fields[i]).1,
            ) by {
                if omitted > 0 {
                    if fields[i] != (marker, count) {
                        let k = choose|k: int| 0 <= k < pairs.len() && pairs[k] == fields[i];
                        assert(json::valid(children[k]));
                    }
                } else {
                    assert(json::valid(children[i]));
                }
            }
        },
    }
}

proof fn lemma_fitted_valid(
    frame: FrameView,
    children: Seq<JsonView>,
    max: nat,
    low: nat,
    high: int,
    best: Option<JsonView>,
)
    requires
        all_valid(children),
        sound(frame, children.len()),
        best matches Some(v) ==> json::valid(v),
    ensures
        fitted(frame, children, max, low, high, best) matches Some(v) ==> json::valid(v),
    decreases 1 + tallest(children), 1nat, high - low + 1,
{
    if low <= high {
        let budget = (low + (high - low) / 2) as nat;
        let all = projected_all(children, budget);
        lemma_all_valid(children, budget);
        lemma_build_valid(frame, all);
        let candidate = frame.build(all);
        if json::encoded_len(candidate) <= max {
            lemma_fitted_valid(frame, children, max, budget + 1, high, Some(candidate));
        } else if budget > 0 {
            lemma_fitted_valid(frame, children, max, low, budget - 1, best);
        }
    }
}

proof fn lemma_all_valid(children: Seq<JsonView>, max: nat)
    requires
        all_valid(children),
    ensures
        projected_all(children, max).len() == children.len(),
        all_valid(projected_all(children, max)),
    decreases 1 + tallest(children), 0nat, children.len() as int,
{
    if children.len() > 0 {
        let d = children.drop_last();
        assert forall|i: int| 0 <= i < d.len() implies json::valid(#[trigger] d[i]) by {
            assert(d[i] == children[i]);
        }
        assert(json::valid(children[children.len() - 1]));
        lemma_all_valid(d, max);
        projection_keeps_names_in_order(children.last(), max);
    }
}

proof fn lemma_items_valid(items: Seq<JsonView>, keep: nat, max: nat)
    requires
        all_valid(items),
    ensures
        json::valid(projected_items(items, keep, max)),
    decreases 1 + tallest(items), 2nat, keep as int,
{
    let head = keep as int / 2;
    let tail = keep as int - head;
    if keep <= items.len() {
        lemma_sample_height(items, head, tail);
        let chosen = items.take(head) + items.skip(items.len() - tail);
        assert forall|i: int| 0 <= i < chosen.len() implies json::valid(#[trigger] chosen[i]) by {
            if i < head {
                assert(json::valid(items[i]));
            } else {
                assert(json::valid(items[items.len() - tail + (i - head)]));
            }
        }
        lemma_fitted_valid(
            FrameView::Array { at: head as nat, omitted: (items.len() - keep) as nat },
            chosen,
            max,
            0,
            max as int,
            None,
        );
        if keep > 0 {
            lemma_items_valid(items, (keep - 1) as nat, max);
        }
    }
}

proof fn lemma_fields_valid(fields: Seq<(Seq<char>, JsonView)>, keep: nat, max: nat)
    requires
        json::valid(JsonView::Object(fields)),
    ensures
        json::valid(projected_fields(fields, keep, max)),
    decreases 1 + tallest_field(fields), 2nat, keep as int,
{
    let kept = kept_fields(fields, fields.len());
    if keep <= kept.len() {
        let chosen = kept.take(keep as int);
        lemma_kept(fields, fields.len());
        lemma_chosen_height(fields, chosen);
        let values = values_at(fields, chosen);
        assert forall|i: int| 0 <= i < values.len() implies json::valid(#[trigger] values[i]) by {
            assert(json::valid(fields[kept[i]].1));
        }
        let frame = FrameView::Object {
            names: names_at(fields, chosen),
            marker: free_name(fields, "__thx_omitted_fields"@),
            omitted: (fields.len() - keep) as nat,
        };
        assert(sound(frame, values.len())) by {
            let names = names_at(fields, chosen);
            assert forall|i: int, j: int| 0 <= i < j < names.len() implies json::before(
                #[trigger] names[i],
                #[trigger] names[j],
            ) by {
                assert(kept[i] < kept[j]);
                assert(json::before(fields[kept[i]].0, fields[kept[j]].0));
            }
        }
        lemma_fitted_valid(frame, values, max, 0, max as int, None);
        if keep > 0 {
            lemma_fields_valid(fields, (keep - 1) as nat, max);
        }
    }
}

/// A projected value has the fields of every object in ascending order of their names, each
/// name once, where the value itself has.
pub proof fn projection_keeps_names_in_order(v: JsonView, max: nat)
    requires
        json::valid(v),
    ensures
        json::valid(projected(v, max)),
    decreases height(v), 3nat, 0int,
{
    if json::encoded_len(v) > max {
        match v {
            JsonView::Array(items) => {
                lemma_items_valid(
                    items,
                    if items.len() <= MAX_ITEMS {
                        items.len()
                    } else {
                        MAX_ITEMS as nat
                    },
                    max,
                );
            },
            JsonView::Object(fields) => {
                lemma_fields_valid(fields, kept_fields(fields, fields.len()).len(), max);
            },
            _ => {},
        }
    }
}

// ---------- Nothing but what was there ----------

/// `t` is `s` shortened: all of it, nothing of it, the start of a note on it, or its head and its
/// tail with a note between them that counts the bytes left out.
pub open spec fn is_cut(s: Seq<char>, t: Seq<char>) -> bool {
    ||| t == s
    ||| t.len() == 0
    ||| t.len() <= truncate::omission_note(text::utf8_len(s), text_label()).len() && t == truncate::omission_note(
        text::utf8_len(s),
        text_label(),
    ).take(t.len() as int)
    ||| exists|h: int, k: int| #[trigger] truncate::is_cut_at(t, s, text_label(), h, k)
}

/// `w` is `v` abridged: a scalar stays or becomes `null`, a text is cut, an array keeps first and
/// last items with a note between them that counts the others, and an object keeps fields under
/// their names with a note that counts the others. What is kept of them is abridged in turn.
pub open spec fn abridges(v: JsonView, w: JsonView) -> bool
    decreases v,
{
    v == w || match (v, w) {
        (JsonView::Bool(_), JsonView::Null) => true,
        (JsonView::Number(_), JsonView::Null) => true,
        (JsonView::Text(s), JsonView::Text(t)) => is_cut(s, t),
        (JsonView::Array(items), JsonView::Array(kept)) => {
            ||| kept.len() == 0
            ||| kept.len() == items.len() && forall|i: int|
                0 <= i < items.len() ==> abridges(#[trigger] items[i], kept[i])
            ||| 0 < kept.len() <= items.len() && {
                let at = (kept.len() - 1) / 2;
                let left = items.len() - (kept.len() - 1);
                &&& kept[at] == items_note(left as nat)
                &&& forall|i: int| 0 <= i < at ==> abridges(#[trigger] items[i], kept[i])
                &&& forall|i: int|
                    at + left <= i < items.len() ==> abridges(
                        #[trigger] items[i],
                        kept[i - left + 1],
                    )
            }
        },
        (JsonView::Object(fields), JsonView::Object(kept)) => {
            ||| kept.len() == 0
            ||| kept.len() == fields.len() && forall|i: int|
                0 <= i < fields.len() ==> (#[trigger] fields[i]).0 == kept[i].0 && abridges(
                    fields[i].1,
                    kept[i].1,
                )
            ||| 0 < kept.len() <= fields.len() && forall|k: int|
                0 <= k < kept.len() ==> (#[trigger] kept[k] == fields_note(
                    fields,
                    (fields.len() - (kept.len() - 1)) as nat,
                ) || exists|i: int|
                    0 <= i < fields.len() && (#[trigger] fields[i]).0 == kept[k].0 && abridges(
                        fields[i].1,
                        kept[k].1,
                    ))
        },
        _ => false,
    }
}

/// The note on omitted fields, under a name that no field has.
pub open spec fn fields_note(fields: Seq<(Seq<char>, JsonView)>, omitted: nat) -> (
    Seq<char>,
    JsonView,
) {
    (free_name(fields, "__thx_omitted_fields"@), JsonView::Number(text::decimal(omitted)))
}

proof fn lemma_is_cut(s: Seq<char>, limit: nat)
    ensures
        is_cut(s, truncate::head_and_tail(s, limit, text_label())),
{
    let note = truncate::omission_note(text::utf8_len(s), text_label());
    let t = truncate::head_and_tail(s, limit, text_label());
    if text::utf8_len(s) > limit {
        if text::utf8_len(note) >= limit {
            truncate::prefix_within_fits(note, limit);
        } else {
            truncate::truncation_keeps_head_and_tail(s, limit, text_label());
            let (h, k) = choose|h: int, k: int| #[trigger]
                truncate::is_cut_at(t, s, text_label(), h, k) && {
                    let room = limit - text::utf8_len(truncate::omission_note(text::utf8_len(s), text_label()));
                    &&& 4 * (text::utf8_len(s.take(h)) + 4) >= room >= 4 * text::utf8_len(s.take(h))
                    &&& 4 * (text::utf8_len(s.skip(k)) + 4) >= 3 * room
                    &&& text::utf8_len(s.take(h)) + text::utf8_len(s.skip(k)) <= room
                };
            assert(truncate::is_cut_at(t, s, text_label(), h, k));
        }
    }
}

proof fn lemma_search_cuts(s: Seq<char>, max: nat, low: nat, high: int, best: Seq<char>)
    requires
        is_cut(s, best),
    ensures
        is_cut(s, text_search(s, max, low, high, best)),
    decreases high - low + 1,
{
    if low <= high {
        let limit = (low + (high - low) / 2) as nat;
        let candidate = truncate::head_and_tail(s, limit, text_label());
        lemma_is_cut(s, limit);
        if json::encoded_len(JsonView::Text(candidate)) <= max {
            lemma_search_cuts(s, max, limit + 1, high, candidate);
        } else if limit > 0 {
            lemma_search_cuts(s, max, low, limit - 1, best);
        }
    }
}

/// Projecting values is projecting each.
proof fn lemma_projected_all(children: Seq<JsonView>, max: nat)
    ensures
        projected_all(children, max).len() == children.len(),
        forall|i: int|
            0 <= i < children.len() ==> #[trigger] projected_all(children, max)[i] == projected(
                children[i],
                max,
            ),
    decreases children.len(),
{
    if children.len() > 0 {
        let d = children.drop_last();
        lemma_projected_all(d, max);
        assert forall|i: int| 0 <= i < children.len() implies #[trigger] projected_all(
            children,
            max,
        )[i] == projected(children[i], max) by {
            if i < d.len() {
                assert(projected_all(children, max)[i] == projected_all(d, max)[i]);
            }
        }
    }
}

/// What is fitted is the frame with every child projected to one budget.
proof fn lemma_fitted_shape(
    frame: FrameView,
    children: Seq<JsonView>,
    max: nat,
    low: nat,
    high: int,
    best: Option<JsonView>,
)
    requires
        best matches Some(v) ==> exists|b: nat| v == frame.build(#[trigger] projected_all(children, b)),
    ensures
        fitted(frame, children, max, low, high, best) matches Some(v) ==> exists|b: nat|
            v == frame.build(#[trigger] projected_all(children, b)),
    decreases high - low + 1,
{
    if low <= high {
        let budget = (low + (high - low) / 2) as nat;
        let candidate = frame.build(projected_all(children, budget));
        if json::encoded_len(candidate) <= max {
            lemma_fitted_shape(frame, children, max, budget + 1, high, Some(candidate));
        } else if budget > 0 {
            lemma_fitted_shape(frame, children, max, low, budget - 1, best);
        }
    }
}

/// The first and last `keep` items.
spec fn sample(items: Seq<JsonView>, keep: nat) -> Seq<JsonView> {
    items.take(keep as int / 2) + items.skip(items.len() - (keep as int - keep as int / 2))
}

/// What an array with `keep` of its items is built around.
spec fn items_frame(items: Seq<JsonView>, keep: nat) -> FrameView {
    FrameView::Array { at: (keep as int / 2) as nat, omitted: (items.len() - keep) as nat }
}

/// What an object with the first `keep` of its fields worth keeping is built around.
spec fn fields_frame(fields: Seq<(Seq<char>, JsonView)>, keep: nat) -> FrameView {
    FrameView::Object {
        names: names_at(fields, kept_fields(fields, fields.len()).take(keep as int)),
        marker: free_name(fields, "__thx_omitted_fields"@),
        omitted: (fields.len() - keep) as nat,
    }
}

proof fn lemma_items_shape(items: Seq<JsonView>, keep: nat, max: nat) -> (r: (nat, nat))
    ensures
        projected_items(items, keep, max) == JsonView::Array(Seq::empty()) || (r.0 <= keep && r.0
            <= items.len() && projected_items(items, keep, max) == items_frame(items, r.0).build(
            projected_all(sample(items, r.0), r.1),
        )),
    decreases keep,
{
    if keep <= items.len() {
        let frame = items_frame(items, keep);
        let chosen = sample(items, keep);
        lemma_fitted_shape(frame, chosen, max, 0, max as int, None);
        match fitted(frame, chosen, max, 0, max as int, None) {
            Some(v) => {
                let b = choose|b: nat| v == frame.build(#[trigger] projected_all(chosen, b));
                (keep, b)
            },
            None => if keep > 0 {
                lemma_items_shape(items, (keep - 1) as nat, max)
            } else {
                (0, 0)
            },
        }
    } else {
        (0, 0)
    }
}

proof fn lemma_fields_shape(fields: Seq<(Seq<char>, JsonView)>, keep: nat, max: nat) -> (r: (
    nat,
    nat,
))
    ensures
        projected_fields(fields, keep, max) == JsonView::Object(Seq::empty()) || (r.0 <= keep && r.0
            <= kept_fields(fields, fields.len()).len() && projected_fields(fields, keep, max)
            == fields_frame(fields, r.0).build(
            projected_all(
                values_at(fields, kept_fields(fields, fields.len()).take(r.0 as int)),
                r.1,
            ),
        )),
    decreases keep,
{
    let kept = kept_fields(fields, fields.len());
    if keep <= kept.len() {
        let frame = fields_frame(fields, keep);
        let chosen = values_at(fields, kept.take(keep as int));
        lemma_fitted_shape(frame, chosen, max, 0, max as int, None);
        match fitted(frame, chosen, max, 0, max as int, None) {
            Some(v) => {
                let b = choose|b: nat| v == frame.build(#[trigger] projected_all(chosen, b));
                (keep, b)
            },
            None => if keep > 0 {
                lemma_fields_shape(fields, (keep - 1) as nat, max)
            } else {
                (0, 0)
            },
        }
    } else {
        (0, 0)
    }
}

proof fn lemma_items_abridge(items: Seq<JsonView>, keep: nat, b: nat)
    requires
        keep <= items.len(),
        forall|i: int| 0 <= i < items.len() ==> abridges(#[trigger] items[i], projected(items[i], b)),
    ensures
        abridges(
            JsonView::Array(items),
            items_frame(items, keep).build(projected_all(sample(items, keep), b)),
        ),
{
    let chosen = sample(items, keep);
    let all = projected_all(chosen, b);
    let head = keep as int / 2;
    lemma_projected_all(chosen, b);
    if keep == items.len() {
        assert forall|i: int| 0 <= i < items.len() implies abridges(#[trigger] items[i], all[i]) by {
            assert(chosen[i] == items[i]);
            assert(all[i] == projected(chosen[i], b));
        }
        lemma_all_items_abridge(items, all);
    } else {
        let left = items.len() - keep;
        let kept = all.insert(head, items_note(left as nat));
        assert forall|i: int| 0 <= i < head implies abridges(#[trigger] items[i], kept[i]) by {
            assert(chosen[i] == items[i]);
            assert(kept[i] == all[i]);
            assert(all[i] == projected(chosen[i], b));
        }
        assert forall|i: int| head + left <= i < items.len() implies abridges(
            #[trigger] items[i],
            kept[i - left + 1],
        ) by {
            let k = i - left;
            assert(chosen[k] == items[i]);
            assert(kept[k + 1] == all[k]);
            assert(all[k] == projected(chosen[k], b));
        }
        lemma_some_items_abridge(items, kept, head, left);
    }
}

proof fn lemma_all_items_abridge(items: Seq<JsonView>, kept: Seq<JsonView>)
    requires
        kept.len() == items.len(),
        forall|i: int| 0 <= i < items.len() ==> abridges(#[trigger] items[i], kept[i]),
    ensures
        abridges(JsonView::Array(items), JsonView::Array(kept)),
{
}

proof fn lemma_some_items_abridge(
    items: Seq<JsonView>,
    kept: Seq<JsonView>,
    at: int,
    left: int,
)
    requires
        0 < kept.len() <= items.len(),
        at == (kept.len() - 1) / 2,
        left == items.len() - (kept.len() - 1),
        kept[at] == items_note(left as nat),
        forall|i: int| 0 <= i < at ==> abridges(#[trigger] items[i], kept[i]),
        forall|i: int|
            at + left <= i < items.len() ==> abridges(#[trigger] items[i], kept[i - left + 1]),
    ensures
        abridges(JsonView::Array(items), JsonView::Array(kept)),
{
}

proof fn lemma_fields_abridge(fields: Seq<(Seq<char>, JsonView)>, keep: nat, b: nat)
    requires
        keep <= kept_fields(fields, fields.len()).len(),
        json::valid(JsonView::Object(fields)),
        forall|i: int|
            0 <= i < fields.len() ==> abridges(
                (#[trigger] fields[i]).1,
                projected(fields[i].1, b),
            ),
    ensures
        abridges(
            JsonView::Object(fields),
            fields_frame(fields, keep).build(
                projected_all(
                    values_at(fields, kept_fields(fields, fields.len()).take(keep as int)),
                    b,
                ),
            ),
        ),
{
    let positions = kept_fields(fields, fields.len());
    let chosen = positions.take(keep as int);
    let values = values_at(fields, chosen);
    let names = names_at(fields, chosen);
    let all = projected_all(values, b);
    let w = fields_frame(fields, keep).build(all);
    let kept = w->Object_0;
    let pairs = paired(names, all);
    let omitted = (fields.len() - keep) as nat;
    lemma_kept(fields, fields.len());
    lemma_projected_all(values, b);
    assert forall|k: int| 0 <= k < pairs.len() implies fields[chosen[k]].0 == (
    #[trigger] pairs[k]).0 && abridges(fields[chosen[k]].1, pairs[k].1) && 0 <= chosen[k]
        < fields.len() by {
        assert(chosen[k] == positions[k]);
        assert(all[k] == projected(values[k], b));
        assert(abridges(fields[chosen[k]].1, projected(fields[chosen[k]].1, b)));
    }
    if omitted == 0 {
        lemma_all_kept(fields, positions);
        assert forall|i: int| 0 <= i < fields.len() implies (#[trigger] fields[i]).0 == kept[i].0
            && abridges(fields[i].1, kept[i].1) by {
            assert(chosen[i] == i);
            assert(pairs[i] == kept[i]);
        }
    } else {
        let note = fields_note(fields, omitted);
        free_name_is_free(fields, "__thx_omitted_fields"@);
        assert(json::ascending(pairs)) by {
            assert forall|i: int, j: int| 0 <= i < j < pairs.len() implies json::before(
                (#[trigger] pairs[i]).0,
                (#[trigger] pairs[j]).0,
            ) by {
                assert(positions[i] < positions[j]);
                assert(json::before(fields[positions[i]].0, fields[positions[j]].0));
            }
        }
        json::with_field_keeps_order(pairs, note.0, note.1);
        assert forall|k: int| 0 <= k < pairs.len() implies (#[trigger] pairs[k]).0 != note.0 by {
            assert(json::has_name(fields, fields[chosen[k]].0));
        }
        lemma_with_new_field(pairs, note.0, note.1);
        assert(kept.len() == keep + 1);
        assert forall|k: int| 0 <= k < kept.len() implies (#[trigger] kept[k] == fields_note(
            fields,
            (fields.len() - (kept.len() - 1)) as nat,
        ) || exists|i: int|
            0 <= i < fields.len() && (#[trigger] fields[i]).0 == kept[k].0 && abridges(
                fields[i].1,
                kept[k].1,
            )) by {
            if kept[k] != note {
                let p = choose|p: int| 0 <= p < pairs.len() && pairs[p] == kept[k];
                let i = chosen[p];
                assert(fields[i].0 == kept[k].0);
            }
        }
    }
}

/// As many ascending positions as there are fields are all of them.
proof fn lemma_all_kept(fields: Seq<(Seq<char>, JsonView)>, positions: Seq<int>)
    requires
        positions.len() == fields.len(),
        forall|k: int| 0 <= k < positions.len() ==> 0 <= #[trigger] positions[k] < fields.len(),
        forall|j: int, k: int|
            0 <= j < k < positions.len() ==> #[trigger] positions[j] < #[trigger] positions[k],
    ensures
        forall|k: int| 0 <= k < positions.len() ==> #[trigger] positions[k] == k,
{
    assert forall|k: int| 0 <= k < positions.len() implies #[trigger] positions[k] == k by {
        lemma_at_least(positions, k);
        lemma_at_most(positions, fields.len(), k);
    }
}

proof fn lemma_at_least(positions: Seq<int>, k: int)
    requires
        0 <= k < positions.len(),
        0 <= positions[0],
        forall|i: int, j: int|
            0 <= i < j < positions.len() ==> #[trigger] positions[i] < #[trigger] positions[j],
    ensures
        positions[k] >= k,
    decreases k,
{
    if k > 0 {
        lemma_at_least(positions, k - 1);
    }
}

proof fn lemma_at_most(positions: Seq<int>, n: nat, k: int)
    requires
        0 <= k < positions.len(),
        positions.len() == n,
        positions[n - 1] < n,
        forall|i: int, j: int|
            0 <= i < j < positions.len() ==> #[trigger] positions[i] < #[trigger] positions[j],
    ensures
        positions[k] <= k,
    decreases n - k,
{
    if k < n - 1 {
        lemma_at_most(positions, n, k + 1);
        assert(positions[k] < positions[k + 1]);
    }
}

/// Setting a field under a new name adds it.
proof fn lemma_with_new_field(
    fields: Seq<(Seq<char>, JsonView)>,
    name: Seq<char>,
    value: JsonView,
)
    requires
        forall|k: int| 0 <= k < fields.len() ==> (#[trigger] fields[k]).0 != name,
    ensures
        json::with_field(fields, name, value).len() == fields.len() + 1,
    decreases fields.len(),
{
    if fields.len() > 0 && !json::before(fields.last().0, name) {
        let d = fields.drop_last();
        assert(fields[fields.len() - 1].0 != name);
        assert forall|k: int| 0 <= k < d.len() implies (#[trigger] d[k]).0 != name by {
            assert(d[k] == fields[k]);
        }
        lemma_with_new_field(d, name, value);
    }
}

/// A projected value is the value abridged: nothing is in it that was not there, what is left
/// out is counted, and an object stays an object, an array an array and a text a text.
pub proof fn projection_abridges(v: JsonView, max: nat)
    requires
        json::valid(v),
    ensures
        abridges(v, projected(v, max)),
    decreases height(v),
{
    if json::encoded_len(v) > max {
        match v {
            JsonView::Text(s) => {
                lemma_search_cuts(s, max, 0, max as int, Seq::empty());
            },
            JsonView::Array(items) => {
                let most = if items.len() <= MAX_ITEMS {
                    items.len()
                } else {
                    MAX_ITEMS as nat
                };
                let (keep, b) = lemma_items_shape(items, most, max);
                if projected(v, max) != JsonView::Array(Seq::empty()) {
                    assert forall|i: int| 0 <= i < items.len() implies abridges(
                        #[trigger] items[i],
                        projected(items[i], b),
                    ) by {
                        lemma_tallest(items, i);
                        assert(json::valid(items[i]));
                        projection_abridges(items[i], b);
                    }
                    lemma_items_abridge(items, keep, b);
                }
            },
            JsonView::Object(fields) => {
                let (keep, b) = lemma_fields_shape(
                    fields,
                    kept_fields(fields, fields.len()).len(),
                    max,
                );
                if projected(v, max) != JsonView::Object(Seq::empty()) {
                    assert forall|i: int| 0 <= i < fields.len() implies abridges(
                        (#[trigger] fields[i]).1,
                        projected(fields[i].1, b),
                    ) by {
                        lemma_tallest_field(fields, i);
                        assert(json::valid(fields[i].1));
                        projection_abridges(fields[i].1, b);
                    }
                    lemma_fields_abridge(fields, keep, b);
                }
            },
            _ => {},
        }
    }
}

/// A projected value is of the kind of the value: an object stays an object, an array an array
/// and a text a text, however small the budget is.
pub proof fn projection_keeps_the_kind(v: JsonView, max: nat)
    ensures
        v is Object ==> projected(v, max) is Object,
        v is Array ==> projected(v, max) is Array,
        v is Text ==> projected(v, max) is Text,
        v is Null ==> projected(v, max) is Null,
        v is Bool ==> projected(v, max) is Bool || projected(v, max) is Null,
        v is Number ==> projected(v, max) == v || projected(v, max) is Null,
{
    match v {
        JsonView::Array(items) => {
            let most = if items.len() <= MAX_ITEMS {
                items.len()
            } else {
                MAX_ITEMS as nat
            };
            let (keep, b) = lemma_items_shape(items, most, max);
        },
        JsonView::Object(fields) => {
            let (keep, b) = lemma_fields_shape(
                fields,
                kept_fields(fields, fields.len()).len(),
                max,
            );
        },
        _ => {},
    }
}

// ---------- As much as fits ----------

/// Where the frame fits with its children in every budget up to `each`, they have a budget of
/// `each` at least.
proof fn lemma_fitted_reaches(
    frame: FrameView,
    children: Seq<JsonView>,
    max: nat,
    low: nat,
    high: int,
    best: Option<JsonView>,
    each: nat,
) -> (r: nat)
    requires
        each <= high,
        low == 0 || best == Some(frame.build(projected_all(children, (low - 1) as nat))),
        forall|b: nat|
            b <= each ==> json::encoded_len(frame.build(#[trigger] projected_all(children, b))) <= max,
    ensures
        each <= r,
        fitted(frame, children, max, low, high, best) == Some(
            frame.build(projected_all(children, r)),
        ),
    decreases high - low + 1,
{
    if low > high {
        (low - 1) as nat
    } else {
        let budget = (low + (high - low) / 2) as nat;
        let candidate = frame.build(projected_all(children, budget));
        if json::encoded_len(candidate) <= max {
            lemma_fitted_reaches(frame, children, max, budget + 1, high, Some(candidate), each)
        } else {
            lemma_fitted_reaches(frame, children, max, low, budget - 1, best, each)
        }
    }
}

/// What is projected to a budget of no more than `each` bytes takes no more than `each`.
proof fn lemma_projection_within(v: JsonView, b: nat, each: nat)
    requires
        b <= each,
        4 <= each,
    ensures
        json::encoded_len(projected(v, b)) <= each,
{
    lemma_projection_fits(v, b);
}

/// Every text that `s` is cut to in `limit` bytes encodes within `each` bytes.
pub open spec fn cuts_fit(s: Seq<char>, limit: nat, each: nat) -> bool {
    forall|t: Seq<char>| #[trigger]
        is_cut(s, t) && text::utf8_len(t) <= limit ==> json::encoded_len(JsonView::Text(t)) <= each
}

/// `t` is `s`, or a cut of it that keeps a quarter of `limit` bytes at its head and three at its
/// tail, but for the note and up to a character each.
pub open spec fn keeps_ends(s: Seq<char>, t: Seq<char>, limit: nat) -> bool {
    t == s || exists|h: int, k: int| #[trigger]
        truncate::is_cut_at(t, s, text_label(), h, k) && {
            let room = limit - text::utf8_len(truncate::omission_note(text::utf8_len(s), text_label()));
            &&& 4 * (text::utf8_len(s.take(h)) + 4) >= room
            &&& 4 * (text::utf8_len(s.skip(k)) + 4) >= 3 * room
        }
}

proof fn lemma_search_reaches(
    s: Seq<char>,
    max: nat,
    low: nat,
    high: int,
    best: Seq<char>,
    limit: nat,
) -> (r: nat)
    requires
        limit <= high,
        low == 0 || best == truncate::head_and_tail(s, (low - 1) as nat, text_label()),
        forall|l: nat|
            l <= limit ==> json::encoded_len(
                JsonView::Text(#[trigger] truncate::head_and_tail(s, l, text_label())),
            ) <= max,
    ensures
        limit <= r,
        text_search(s, max, low, high, best) == truncate::head_and_tail(s, r, text_label()),
    decreases high - low + 1,
{
    if low > high {
        (low - 1) as nat
    } else {
        let probe = (low + (high - low) / 2) as nat;
        let candidate = truncate::head_and_tail(s, probe, text_label());
        if json::encoded_len(JsonView::Text(candidate)) <= max {
            lemma_search_reaches(s, max, probe + 1, high, candidate, limit)
        } else {
            lemma_search_reaches(s, max, low, probe - 1, best, limit)
        }
    }
}

/// A text that is projected keeps its head and its tail, as long as the budget has room for its
/// cuts.
pub proof fn projected_texts_keep_head_and_tail(s: Seq<char>, max: nat, limit: nat)
    requires
        limit <= max,
        cuts_fit(s, limit, max),
        text::utf8_len(truncate::omission_note(text::utf8_len(s), text_label())) < limit,
    ensures
        projected(JsonView::Text(s), max) is Text,
        keeps_ends(s, projected(JsonView::Text(s), max)->Text_0, limit),
{
    if json::encoded_len(JsonView::Text(s)) > max {
        assert forall|l: nat| l <= limit implies json::encoded_len(
            JsonView::Text(#[trigger] truncate::head_and_tail(s, l, text_label())),
        ) <= max by {
            lemma_is_cut(s, l);
            truncate::truncation_keeps_the_budget(s, l, text_label());
        }
        let r = lemma_search_reaches(s, max, 0, max as int, Seq::empty(), limit);
        let t = truncate::head_and_tail(s, r, text_label());
        if text::utf8_len(s) > r {
            truncate::truncation_keeps_head_and_tail(s, r, text_label());
            let (h, k) = choose|h: int, k: int| #[trigger]
                truncate::is_cut_at(t, s, text_label(), h, k) && {
                    let room = r - text::utf8_len(truncate::omission_note(text::utf8_len(s), text_label()));
                    &&& 4 * (text::utf8_len(s.take(h)) + 4) >= room >= 4 * text::utf8_len(s.take(h))
                    &&& 4 * (text::utf8_len(s.skip(k)) + 4) >= 3 * room
                    &&& text::utf8_len(s.take(h)) + text::utf8_len(s.skip(k)) <= room
                };
            assert(truncate::is_cut_at(t, s, text_label(), h, k));
        }
    }
}

/// `w` is what has to be left of `v` with room for `each` bytes: all of it where it takes no
/// more, else an abridgement, and of a text its head and its tail.
pub open spec fn is_left(v: JsonView, w: JsonView, each: nat) -> bool {
    &&& json::encoded_len(v) <= each ==> w == v
    &&& abridges(v, w)
    &&& v matches JsonView::Text(s) ==> forall|limit: nat|
        limit <= each && #[trigger] cuts_fit(s, limit, each) && text::utf8_len(
            truncate::omission_note(text::utf8_len(s), text_label()),
        ) < limit ==> w is Text && keeps_ends(s, w->Text_0, limit)
}

proof fn lemma_is_left(v: JsonView, b: nat, each: nat)
    requires
        json::valid(v),
        each <= b,
    ensures
        is_left(v, projected(v, b), each),
{
    projection_abridges(v, b);
    if let JsonView::Text(s) = v {
        assert forall|limit: nat|
            limit <= each && #[trigger] cuts_fit(s, limit, each) && text::utf8_len(
                truncate::omission_note(text::utf8_len(s), text_label()),
            ) < limit implies projected(v, b) is Text && keeps_ends(
            s,
            projected(v, b)->Text_0,
            limit,
        ) by {
            assert(cuts_fit(s, limit, b)) by {
                assert forall|t: Seq<char>| #[trigger]
                    is_cut(s, t) && text::utf8_len(t) <= limit implies json::encoded_len(JsonView::Text(t))
                    <= b by {
                }
            }
            projected_texts_keep_head_and_tail(s, b, limit);
        }
    }
}

/// Every one of `values` takes `each` bytes at most.
pub open spec fn are_within(values: Seq<JsonView>, each: nat) -> bool {
    forall|i: int| 0 <= i < values.len() ==> json::encoded_len(#[trigger] values[i]) <= each
}

/// Arrays of `count` values, each of `each` bytes at most, encode within `max` bytes.
pub open spec fn arrays_fit(count: nat, each: nat, max: nat) -> bool {
    forall|values: Seq<JsonView>| #[trigger]
        are_within(values, each) && values.len() == count ==> json::encoded_len(JsonView::Array(values))
            <= max
}

/// An array of up to `MAX_ITEMS` items keeps every one in its place, where values of `each` bytes
/// have room: those of no more bytes as they are, the others abridged.
pub proof fn short_arrays_keep_their_items(items: Seq<JsonView>, each: nat, max: nat)
    requires
        json::valid(JsonView::Array(items)),
        items.len() <= MAX_ITEMS,
        4 <= each <= max,
        arrays_fit(items.len(), each, max),
    ensures
        projected(JsonView::Array(items), max) matches JsonView::Array(kept) && kept.len()
            == items.len() && forall|i: int|
            0 <= i < items.len() ==> is_left(#[trigger] items[i], kept[i], each),
{
    let v = JsonView::Array(items);
    if json::encoded_len(v) <= max {
        assert forall|i: int| 0 <= i < items.len() implies is_left(
            #[trigger] items[i],
            items[i],
            each,
        ) by {
        }
    } else {
        let keep = items.len();
        let frame = items_frame(items, keep);
        let chosen = sample(items, keep);
        assert(chosen =~= items);
        assert forall|b: nat| b <= each implies json::encoded_len(
            frame.build(#[trigger] projected_all(chosen, b)),
        ) <= max by {
            let all = projected_all(chosen, b);
            lemma_projected_all(chosen, b);
            assert forall|i: int| 0 <= i < all.len() implies json::encoded_len(#[trigger] all[i])
                <= each by {
                lemma_projection_within(chosen[i], b, each);
            }
            assert(are_within(all, each));
            assert(frame.build(all) == JsonView::Array(all));
        }
        let b = lemma_fitted_reaches(frame, chosen, max, 0, max as int, None, each);
        let all = projected_all(chosen, b);
        lemma_projected_all(chosen, b);
        assert(projected(v, max) == JsonView::Array(all));
        assert forall|i: int| 0 <= i < items.len() implies is_left(
            #[trigger] items[i],
            all[i],
            each,
        ) by {
            assert(json::valid(items[i]));
            assert(all[i] == projected(chosen[i], b));
            lemma_is_left(items[i], b, each);
        }
    }
}

/// A longer array that is too long keeps its first and its last four items, with a note between
/// them on the others, where values of `each` bytes have room: those of no more bytes as they
/// are, the others abridged.
pub proof fn long_arrays_keep_first_and_last_items(items: Seq<JsonView>, each: nat, max: nat)
    requires
        json::valid(JsonView::Array(items)),
        items.len() > MAX_ITEMS,
        json::encoded_len(JsonView::Array(items)) > max,
        4 <= each <= max,
        json::encoded_len(items_note((items.len() - MAX_ITEMS) as nat)) <= each,
        arrays_fit((MAX_ITEMS + 1) as nat, each, max),
    ensures
        projected(JsonView::Array(items), max) matches JsonView::Array(kept) && {
            &&& kept.len() == 9
            &&& forall|i: int| 0 <= i < 4 ==> is_left(#[trigger] items[i], kept[i], each)
            &&& kept[4] == items_note((items.len() - 8) as nat)
            &&& forall|i: int|
                items.len() - 4 <= i < items.len() ==> is_left(
                    #[trigger] items[i],
                    kept[i - items.len() + 9],
                    each,
                )
        },
{
    let v = JsonView::Array(items);
    let keep = MAX_ITEMS as nat;
    let frame = items_frame(items, keep);
    let chosen = sample(items, keep);
    let note = items_note((items.len() - keep) as nat);
    assert(chosen =~= items.take(4) + items.skip(items.len() - 4));
    assert forall|b: nat| b <= each implies json::encoded_len(
        frame.build(#[trigger] projected_all(chosen, b)),
    ) <= max by {
        let all = projected_all(chosen, b);
        lemma_projected_all(chosen, b);
        let whole = all.insert(4, note);
        assert forall|i: int| 0 <= i < whole.len() implies json::encoded_len(#[trigger] whole[i])
            <= each by {
            if i < 4 {
                lemma_projection_within(chosen[i], b, each);
                assert(whole[i] == all[i]);
            } else if i > 4 {
                lemma_projection_within(chosen[i - 1], b, each);
                assert(whole[i] == all[i - 1]);
            }
        }
        assert(are_within(whole, each));
        assert(frame.build(all) == JsonView::Array(whole));
    }
    let b = lemma_fitted_reaches(frame, chosen, max, 0, max as int, None, each);
    let all = projected_all(chosen, b);
    lemma_projected_all(chosen, b);
    let kept = all.insert(4, note);
    assert(projected(v, max) == JsonView::Array(kept));
    assert forall|i: int| 0 <= i < 4 implies is_left(#[trigger] items[i], kept[i], each) by {
        assert(json::valid(items[i]));
        assert(chosen[i] == items[i]);
        assert(kept[i] == all[i]);
        lemma_is_left(items[i], b, each);
    }
    assert forall|i: int| items.len() - 4 <= i < items.len() implies is_left(
        #[trigger] items[i],
        kept[i - items.len() + 9],
        each,
    ) by {
        let k = i - items.len() + 8;
        assert(json::valid(items[i]));
        assert(chosen[k] == items[i]);
        assert(kept[k + 1] == all[k]);
        lemma_is_left(items[i], b, each);
    }
}

// ---------- Which fields are kept ----------

/// How many of the first `n` fields are scalars with a shorter encoding than field `i`, or one of
/// the same length and an earlier name.
pub open spec fn shorter_scalars(fields: Seq<(Seq<char>, JsonView)>, i: int, n: nat) -> nat
    decreases n,
{
    if n == 0 {
        0
    } else {
        shorter_scalars(fields, i, (n - 1) as nat) + if !is_structure(fields[n - 1].1) && shorter(
            fields,
            n - 1,
            i,
        ) {
            1nat
        } else {
            0nat
        }
    }
}

/// Field `i` is worth keeping: one of the first arrays and objects, one of the shortest scalars,
/// or the scalar that no other is longer than.
pub open spec fn worth_keeping(fields: Seq<(Seq<char>, JsonView)>, i: int) -> bool {
    if is_structure(fields[i].1) {
        structures(fields, i as nat) < MAX_STRUCTURES
    } else {
        shorter_scalars(fields, i, fields.len()) < MAX_SCALARS - 1 || forall|j: int|
            0 <= j < fields.len() && !is_structure((#[trigger] fields[j]).1) ==> !shorter(
                fields,
                i,
                j,
            )
    }
}

/// How many positions in `s` are those of fields shorter than field `i`.
spec fn count_shorter(fields: Seq<(Seq<char>, JsonView)>, s: Seq<int>, i: int) -> nat
    decreases s.len(),
{
    if s.len() == 0 {
        0
    } else {
        count_shorter(fields, s.drop_last(), i) + if shorter(fields, s.last(), i) {
            1nat
        } else {
            0nat
        }
    }
}

proof fn lemma_count_inserted(
    fields: Seq<(Seq<char>, JsonView)>,
    s: Seq<int>,
    new: int,
    i: int,
)
    ensures
        count_shorter(fields, insert_by_len(fields, s, new), i) == count_shorter(fields, s, i) + (
        if shorter(fields, new, i) {
            1nat
        } else {
            0nat
        }),
    decreases s.len(),
{
    if s.len() == 0 || !shorter(fields, new, s.last()) {
        assert(s.push(new).drop_last() =~= s);
    } else {
        let w = insert_by_len(fields, s.drop_last(), new);
        lemma_count_inserted(fields, s.drop_last(), new, i);
        assert(w.push(s.last()).drop_last() =~= w);
    }
}

proof fn lemma_count_scalars(fields: Seq<(Seq<char>, JsonView)>, n: nat, i: int)
    ensures
        count_shorter(fields, scalars_by_len(fields, n), i) == shorter_scalars(fields, i, n),
    decreases n,
{
    if n > 0 {
        lemma_count_scalars(fields, (n - 1) as nat, i);
        lemma_count_inserted(fields, scalars_by_len(fields, (n - 1) as nat), n - 1, i);
    }
}

/// In order, as many fields are shorter than one as stand before it.
proof fn lemma_count_is_place(fields: Seq<(Seq<char>, JsonView)>, s: Seq<int>, p: int)
    requires
        in_order(fields, s),
        0 <= p < s.len(),
    ensures
        count_shorter(fields, s, s[p]) == p,
    decreases s.len(),
{
    let d = s.drop_last();
    assert(in_order(fields, d));
    if p < d.len() {
        lemma_count_is_place(fields, d, p);
        assert(shorter(fields, s[p], s[s.len() - 1]));
    } else {
        assert forall|k: int| 0 <= k < d.len() implies shorter(fields, #[trigger] d[k], s[p]) by {
            assert(shorter(fields, s[k], s[p]));
        }
        lemma_count_all(fields, d, s[p]);
    }
}

proof fn lemma_count_all(fields: Seq<(Seq<char>, JsonView)>, s: Seq<int>, i: int)
    requires
        forall|k: int| 0 <= k < s.len() ==> shorter(fields, #[trigger] s[k], i),
    ensures
        count_shorter(fields, s, i) == s.len(),
    decreases s.len(),
{
    if s.len() > 0 {
        assert(shorter(fields, s[s.len() - 1], i));
        assert forall|k: int| 0 <= k < s.len() - 1 implies shorter(
            fields,
            #[trigger] s.drop_last()[k],
            i,
        ) by {
            assert(shorter(fields, s[k], i));
        }
        lemma_count_all(fields, s.drop_last(), i);
    }
}

proof fn lemma_insert_holds(fields: Seq<(Seq<char>, JsonView)>, s: Seq<int>, i: int)
    ensures
        insert_by_len(fields, s, i).contains(i),
        forall|k: int| 0 <= k < s.len() ==> insert_by_len(fields, s, i).contains(#[trigger] s[k]),
    decreases s.len(),
{
    let r = insert_by_len(fields, s, i);
    if s.len() == 0 || !shorter(fields, i, s.last()) {
        assert(r[s.len() as int] == i);
        assert forall|k: int| 0 <= k < s.len() implies r.contains(#[trigger] s[k]) by {
            assert(r[k] == s[k]);
        }
    } else {
        let d = s.drop_last();
        let w = insert_by_len(fields, d, i);
        lemma_insert_holds(fields, d, i);
        let at = choose|at: int| 0 <= at < w.len() && w[at] == i;
        assert(r[at] == i);
        assert forall|k: int| 0 <= k < s.len() implies r.contains(#[trigger] s[k]) by {
            if k < d.len() {
                assert(w.contains(d[k]));
                let at = choose|at: int| 0 <= at < w.len() && w[at] == d[k];
                assert(r[at] == s[k]);
            } else {
                assert(r[w.len() as int] == s[k]);
            }
        }
    }
}

/// The scalars in order are the scalars.
proof fn lemma_scalars_listed(fields: Seq<(Seq<char>, JsonView)>, n: nat)
    requires
        n <= fields.len(),
    ensures
        forall|i: int|
            0 <= i < n && !is_structure((#[trigger] fields[i]).1) ==> scalars_by_len(
                fields,
                n,
            ).contains(i),
        forall|k: int|
            0 <= k < scalars_by_len(fields, n).len() ==> !is_structure(
                fields[#[trigger] scalars_by_len(fields, n)[k]].1,
            ),
    decreases n,
{
    if n > 0 {
        let s = scalars_by_len(fields, (n - 1) as nat);
        let r = scalars_by_len(fields, n);
        lemma_scalars_listed(fields, (n - 1) as nat);
        lemma_scalars(fields, (n - 1) as nat);
        lemma_insert_holds(fields, s, n - 1);
        if !is_structure(fields[n - 1].1) {
            lemma_insert(fields, s, n - 1);
            assert forall|i: int|
                0 <= i < n && !is_structure((#[trigger] fields[i]).1) implies r.contains(i) by {
                if i < n - 1 {
                    assert(s.contains(i));
                    let k = choose|k: int| 0 <= k < s.len() && s[k] == i;
                    assert(r.contains(s[k]));
                }
            }
            assert forall|k: int| 0 <= k < r.len() implies !is_structure(
                fields[#[trigger] r[k]].1,
            ) by {
                if r[k] != n - 1 {
                    let m = choose|m: int| 0 <= m < s.len() && s[m] == r[k];
                    assert(!is_structure(fields[s[m]].1));
                }
            }
        }
    }
}

/// What a projected object may keep is what is worth keeping.
proof fn lemma_worth_keeping(fields: Seq<(Seq<char>, JsonView)>, i: int)
    requires
        0 <= i < fields.len(),
    ensures
        is_kept(fields, i) == worth_keeping(fields, i),
{
    if !is_structure(fields[i].1) {
        let sorted = scalars_by_len(fields, fields.len());
        let most = (MAX_SCALARS - 1) as nat;
        let head = at_most(sorted, most);
        lemma_scalars(fields, fields.len());
        lemma_scalars_listed(fields, fields.len());
        assert(sorted.contains(i));
        let p = choose|p: int| 0 <= p < sorted.len() && sorted[p] == i;
        lemma_count_is_place(fields, sorted, p);
        lemma_count_scalars(fields, fields.len(), i);
        assert(shorter_scalars(fields, i, fields.len()) == p);
        if p < most {
            assert(head[p] == i);
        }
        if head.contains(i) {
            let q = choose|q: int| 0 <= q < head.len() && head[q] == i;
            if q != p {
                let (a, b) = if q < p {
                    (q, p)
                } else {
                    (p, q)
                };
                assert(shorter(fields, sorted[a], sorted[b]));
            }
        }
        if sorted.last() == i {
            assert forall|j: int|
                0 <= j < fields.len() && !is_structure((#[trigger] fields[j]).1) implies !shorter(
                fields,
                i,
                j,
            ) by {
                assert(sorted.contains(j));
                let q = choose|q: int| 0 <= q < sorted.len() && sorted[q] == j;
                if q < sorted.len() - 1 {
                    assert(shorter(fields, sorted[q], sorted[sorted.len() - 1]));
                }
            }
        } else {
            let last = sorted.last();
            assert(shorter(fields, sorted[p], sorted[sorted.len() - 1]));
            assert(!is_structure(fields[sorted[sorted.len() - 1]].1));
            assert(!is_structure(fields[last].1));
        }
    }
}

/// A position is listed exactly where its field may be kept.
proof fn lemma_kept_listed(fields: Seq<(Seq<char>, JsonView)>, n: nat)
    ensures
        forall|i: int|
            0 <= i < n ==> (#[trigger] is_kept(fields, i) ==> kept_fields(fields, n).contains(i)),
        forall|k: int|
            0 <= k < kept_fields(fields, n).len() ==> is_kept(
                fields,
                #[trigger] kept_fields(fields, n)[k],
            ),
    decreases n,
{
    if n > 0 {
        let rest = kept_fields(fields, (n - 1) as nat);
        let all = kept_fields(fields, n);
        lemma_kept_listed(fields, (n - 1) as nat);
        assert forall|i: int| 0 <= i < n && #[trigger] is_kept(fields, i) implies all.contains(
            i,
        ) by {
            if i < n - 1 {
                assert(rest.contains(i));
                let k = choose|k: int| 0 <= k < rest.len() && rest[k] == i;
                assert(all[k] == i);
            } else {
                assert(all[rest.len() as int] == i);
            }
        }
        assert forall|k: int| 0 <= k < all.len() implies is_kept(fields, #[trigger] all[k]) by {
            if k < rest.len() {
                assert(all[k] == rest[k]);
                assert(is_kept(fields, rest[k]));
            }
        }
    }
}

/// How many of the first `n` positions stand in `s`.
spec fn count_in(s: Seq<int>, n: nat) -> nat
    decreases n,
{
    if n == 0 {
        0
    } else {
        count_in(s, (n - 1) as nat) + if s.contains(n - 1) {
            1nat
        } else {
            0nat
        }
    }
}

proof fn lemma_count_in(s: Seq<int>, n: nat)
    ensures
        count_in(s, n) <= s.len(),
    decreases s.len(),
{
    if s.len() == 0 {
        lemma_count_none(s, n);
    } else {
        lemma_count_in(s.drop_last(), n);
        lemma_count_one_more(s, n);
    }
}

proof fn lemma_count_none(s: Seq<int>, n: nat)
    requires
        s.len() == 0,
    ensures
        count_in(s, n) == 0,
    decreases n,
{
    if n > 0 {
        lemma_count_none(s, (n - 1) as nat);
    }
}

proof fn lemma_count_one_more(s: Seq<int>, n: nat)
    requires
        s.len() > 0,
    ensures
        count_in(s, n) <= count_in(s.drop_last(), n) + if 0 <= s.last() < n {
            1nat
        } else {
            0nat
        },
    decreases n,
{
    if n > 0 {
        lemma_count_one_more(s, (n - 1) as nat);
        if s.contains(n - 1) && s.last() != n - 1 {
            let k = choose|k: int| 0 <= k < s.len() && s[k] == n - 1;
            assert(s.drop_last()[k] == n - 1);
        }
    }
}

/// No more is kept of an object than `MAX_SCALARS` scalars and `MAX_STRUCTURES` arrays and
/// objects.
proof fn lemma_kept_are_few(fields: Seq<(Seq<char>, JsonView)>, n: nat)
    requires
        n <= fields.len(),
    ensures
        kept_fields(fields, n).len() <= MAX_SCALARS + MAX_STRUCTURES,
{
    let sorted = scalars_by_len(fields, fields.len());
    let worth = at_most(sorted, (MAX_SCALARS - 1) as nat).push(sorted.last());
    lemma_count_in(worth, n);
    lemma_kept_count(fields, worth, n);
}

proof fn lemma_kept_count(fields: Seq<(Seq<char>, JsonView)>, worth: Seq<int>, n: nat)
    requires
        n <= fields.len(),
        worth == at_most(scalars_by_len(fields, fields.len()), (MAX_SCALARS - 1) as nat).push(
            scalars_by_len(fields, fields.len()).last(),
        ),
    ensures
        kept_fields(fields, n).len() <= count_in(worth, n) + if structures(fields, n)
            <= MAX_STRUCTURES {
            structures(fields, n)
        } else {
            MAX_STRUCTURES as nat
        },
    decreases n,
{
    if n > 0 {
        lemma_kept_count(fields, worth, (n - 1) as nat);
        let i = n - 1;
        if is_kept(fields, i) && !is_structure(fields[i].1) {
            let sorted = scalars_by_len(fields, fields.len());
            let head = at_most(sorted, (MAX_SCALARS - 1) as nat);
            if head.contains(i) {
                let k = choose|k: int| 0 <= k < head.len() && head[k] == i;
                assert(worth[k] == i);
            } else {
                assert(worth[head.len() as int] == i);
            }
        }
    }
}

/// `w` is made of values of `each` bytes at most, under names of `fields` and that of the note on
/// omitted ones, and of no more of them than are ever kept.
pub open spec fn is_made_of(
    w: Seq<(Seq<char>, JsonView)>,
    fields: Seq<(Seq<char>, JsonView)>,
    each: nat,
) -> bool {
    w.len() <= MAX_SCALARS + MAX_STRUCTURES + 1 && w.len() <= fields.len() + 1 && forall|k: int|
        0 <= k < w.len() ==> (json::has_name(fields, (#[trigger] w[k]).0) || w[k].0 == fields_note(
            fields,
            0,
        ).0) && json::encoded_len(w[k].1) <= each
}

/// Objects of values of `each` bytes at most under names of `fields` encode within `max` bytes.
pub open spec fn objects_fit(
    fields: Seq<(Seq<char>, JsonView)>,
    each: nat,
    max: nat,
) -> bool {
    forall|w: Seq<(Seq<char>, JsonView)>| #[trigger]
        is_made_of(w, fields, each) ==> json::encoded_len(JsonView::Object(w)) <= max
}

/// An object that is too long keeps every field that is worth keeping, where values of `each`
/// bytes have room: those of no more bytes as they are, the others abridged. It keeps no others,
/// and counts them in a note.
pub proof fn objects_keep_what_is_worth_keeping(
    fields: Seq<(Seq<char>, JsonView)>,
    each: nat,
    max: nat,
    i: int,
)
    requires
        json::valid(JsonView::Object(fields)),
        json::encoded_len(JsonView::Object(fields)) > max,
        4 <= each <= max,
        forall|n: nat|
            n <= fields.len() ==> json::encoded_len(#[trigger] fields_note(fields, n).1) <= each,
        objects_fit(fields, each, max),
        0 <= i < fields.len(),
    ensures
        projected(JsonView::Object(fields), max) matches JsonView::Object(kept) && {
            &&& worth_keeping(fields, i) ==> exists|k: int|
                0 <= k < kept.len() && (#[trigger] kept[k]).0 == fields[i].0 && is_left(
                    fields[i].1,
                    kept[k].1,
                    each,
                )
            &&& !worth_keeping(fields, i) ==> !json::has_name(kept, fields[i].0) && exists|n: nat|
                n > 0 && kept.contains(#[trigger] fields_note(fields, n))
        },
{
    let positions = kept_fields(fields, fields.len());
    let keep = positions.len();
    let chosen = positions.take(keep as int);
    let values = values_at(fields, chosen);
    let names = names_at(fields, chosen);
    let frame = fields_frame(fields, keep);
    let omitted = (fields.len() - keep) as nat;
    let note = fields_note(fields, omitted);
    assert(chosen =~= positions);
    lemma_kept(fields, fields.len());
    lemma_kept_are_few(fields, fields.len());
    lemma_kept_listed(fields, fields.len());
    lemma_worth_keeping(fields, i);
    free_name_is_free(fields, "__thx_omitted_fields"@);
    assert forall|b: nat| b <= each implies json::encoded_len(
        frame.build(#[trigger] projected_all(values, b)),
    ) <= max by {
        let all = projected_all(values, b);
        lemma_projected_all(values, b);
        lemma_built_fields(fields, all);
        let w = frame.build(all)->Object_0;
        let pairs = paired(names, all);
        assert forall|k: int| 0 <= k < w.len() implies (json::has_name(fields, (#[trigger] w[k]).0)
            || w[k].0 == fields_note(fields, 0).0) && json::encoded_len(w[k].1) <= each by {
            if w[k] == note {
                assert(json::encoded_len(fields_note(fields, omitted).1) <= each);
            } else {
                let p = choose|p: int| 0 <= p < pairs.len() && pairs[p] == w[k];
                assert(fields[positions[p]].0 == w[k].0);
                assert(all[p] == projected(values[p], b));
                lemma_projection_within(values[p], b, each);
            }
        }
        assert(is_made_of(w, fields, each));
    }
    let b = lemma_fitted_reaches(frame, values, max, 0, max as int, None, each);
    let all = projected_all(values, b);
    lemma_projected_all(values, b);
    lemma_built_fields(fields, all);
    let w = frame.build(all)->Object_0;
    let pairs = paired(names, all);
    assert(projected(JsonView::Object(fields), max) == JsonView::Object(w));
    if worth_keeping(fields, i) {
        assert(positions.contains(i));
        let p = choose|p: int| 0 <= p < positions.len() && positions[p] == i;
        assert(w.contains(pairs[p]));
        let k = choose|k: int| 0 <= k < w.len() && w[k] == pairs[p];
        assert(json::valid(fields[i].1));
        assert(all[p] == projected(values[p], b));
        lemma_is_left(fields[i].1, b, each);
        assert(w[k].0 == fields[i].0);
    } else {
        if json::has_name(w, fields[i].0) {
            let k = choose|k: int| 0 <= k < w.len() && (#[trigger] w[k]).0 == fields[i].0;
            if w[k] == note {
                assert(json::has_name(fields, note.0));
            } else {
                let p = choose|p: int| 0 <= p < pairs.len() && pairs[p] == w[k];
                let j = positions[p];
                assert(is_kept(fields, j));
                assert(fields[j].0 == fields[i].0);
                if j < i {
                    assert(json::before(fields[j].0, fields[i].0));
                } else {
                    assert(json::before(fields[i].0, fields[j].0));
                }
                json::before_is_a_strict_order(fields[i].0, fields[i].0, fields[i].0);
            }
        }
        if omitted == 0 {
            lemma_all_kept(fields, positions);
            assert(positions[i] == i);
            assert(is_kept(fields, positions[i]));
        }
        assert(w.contains(fields_note(fields, omitted)));
    }
}

/// The fields of a built object are the kept fields and the note.
proof fn lemma_built_fields(fields: Seq<(Seq<char>, JsonView)>, all: Seq<JsonView>)
    requires
        json::valid(JsonView::Object(fields)),
        all.len() == kept_fields(fields, fields.len()).len(),
    ensures
        ({
            let positions = kept_fields(fields, fields.len());
            let keep = positions.len();
            let omitted = (fields.len() - keep) as nat;
            let note = fields_note(fields, omitted);
            let pairs = paired(names_at(fields, positions.take(keep as int)), all);
            let w = fields_frame(fields, keep).build(all)->Object_0;
            &&& fields_frame(fields, keep).build(all) is Object
            &&& w.len() <= keep + 1
            &&& forall|k: int| 0 <= k < w.len() ==> #[trigger] w[k] == note || pairs.contains(w[k])
            &&& forall|p: int| 0 <= p < pairs.len() ==> w.contains(#[trigger] pairs[p])
            &&& omitted > 0 ==> w.contains(note)
        }),
{
    let positions = kept_fields(fields, fields.len());
    let keep = positions.len();
    let omitted = (fields.len() - keep) as nat;
    let note = fields_note(fields, omitted);
    let names = names_at(fields, positions.take(keep as int));
    let pairs = paired(names, all);
    let w = fields_frame(fields, keep).build(all)->Object_0;
    lemma_kept(fields, fields.len());
    assert(positions.take(keep as int) =~= positions);
    free_name_is_free(fields, "__thx_omitted_fields"@);
    assert(json::ascending(pairs)) by {
        assert forall|i: int, j: int| 0 <= i < j < pairs.len() implies json::before(
            (#[trigger] pairs[i]).0,
            (#[trigger] pairs[j]).0,
        ) by {
            assert(positions[i] < positions[j]);
            assert(json::before(fields[positions[i]].0, fields[positions[j]].0));
        }
    }
    assert forall|p: int| 0 <= p < pairs.len() implies (#[trigger] pairs[p]).0 != note.0 by {
        assert(json::has_name(fields, fields[positions[p]].0));
    }
    if omitted > 0 {
        json::with_field_keeps_order(pairs, note.0, note.1);
        lemma_with_new_field(pairs, note.0, note.1);
    } else {
        assert forall|k: int| 0 <= k < w.len() implies #[trigger] w[k] == note || pairs.contains(
            w[k],
        ) by {
            assert(pairs[k] == w[k]);
        }
        assert forall|p: int| 0 <= p < pairs.len() implies w.contains(#[trigger] pairs[p]) by {
            assert(w[p] == pairs[p]);
        }
    }
}

/// In an object with few fields every field is worth keeping.
pub proof fn few_fields_are_all_worth_keeping(fields: Seq<(Seq<char>, JsonView)>, i: int)
    requires
        0 <= i < fields.len(),
        structures(fields, fields.len()) <= MAX_STRUCTURES,
        fields.len() - structures(fields, fields.len()) <= MAX_SCALARS,
    ensures
        worth_keeping(fields, i),
{
    lemma_structures(fields, i as nat, fields.len());
    if !is_structure(fields[i].1) {
        let sorted = scalars_by_len(fields, fields.len());
        lemma_scalars(fields, fields.len());
        lemma_scalars_listed(fields, fields.len());
        lemma_scalars_len(fields, fields.len());
        assert(sorted.contains(i));
        let p = choose|p: int| 0 <= p < sorted.len() && sorted[p] == i;
        lemma_worth_keeping(fields, i);
        if p < MAX_SCALARS - 1 {
            let head = at_most(sorted, (MAX_SCALARS - 1) as nat);
            assert(head[p] == i);
        } else {
            assert(p == sorted.len() - 1);
        }
    }
}

proof fn lemma_scalars_len(fields: Seq<(Seq<char>, JsonView)>, n: nat)
    ensures
        scalars_by_len(fields, n).len() + structures(fields, n) == n,
    decreases n,
{
    if n > 0 {
        lemma_scalars_len(fields, (n - 1) as nat);
        lemma_scalars(fields, (n - 1) as nat);
        if !is_structure(fields[n - 1].1) {
            lemma_insert(fields, scalars_by_len(fields, (n - 1) as nat), n - 1);
        }
    }
}

proof fn lemma_structures(fields: Seq<(Seq<char>, JsonView)>, i: nat, n: nat)
    requires
        i < n,
    ensures
        structures(fields, i) + (if is_structure(fields[i as int].1) {
            1nat
        } else {
            0nat
        }) <= structures(fields, n),
    decreases n,
{
    if i < n - 1 {
        lemma_structures(fields, i, (n - 1) as nat);
    }
}

/// Where items or fields are left out, a note holds how many.
pub proof fn notes_tell_how_much_is_left_out(fields: Seq<(Seq<char>, JsonView)>, omitted: nat)
    ensures
        items_note(omitted) matches JsonView::Object(note) && note.len() == 1 && note[0]
            == ("__thx_omitted_items"@, JsonView::Number(text::decimal(omitted))),
        fields_note(fields, omitted).1 == JsonView::Number(text::decimal(omitted)),
        !json::has_name(fields, fields_note(fields, omitted).0),
{
    free_name_is_free(fields, "__thx_omitted_fields"@);
}

} // verus!
