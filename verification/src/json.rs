//! JSON values and their encoding.
use vstd::prelude::*;
use vstd::string::*;
use crate::text::{same_text, to_chars};

verus! {

// ---------- Values ----------

/// A JSON value. A number is held as it is written; the fields of an object stand in
/// ascending order of their names, and no name occurs twice.
#[derive(Debug)]
pub enum Json {
    Null,
    Bool(bool),
    Number(String),
    Text(String),
    Array(Vec<Json>),
    Object(Vec<(String, Json)>),
}

/// What a `Json` holds.
pub enum JsonView {
    Null,
    Bool(bool),
    Number(Seq<char>),
    Text(Seq<char>),
    Array(Seq<JsonView>),
    Object(Seq<(Seq<char>, JsonView)>),
}

impl View for Json {
    type V = JsonView;

    open spec fn view(&self) -> JsonView
        decreases self,
    {
        match self {
            Json::Null => JsonView::Null,
            Json::Bool(b) => JsonView::Bool(*b),
            Json::Number(n) => JsonView::Number(n@),
            Json::Text(s) => JsonView::Text(s@),
            Json::Array(items) => JsonView::Array(
                Seq::new(
                    items@.len(),
                    |i: int|
                        if 0 <= i < items@.len() {
                            items@[i]@
                        } else {
                            JsonView::Null
                        },
                ),
            ),
            Json::Object(fields) => {
                let names = Seq::new(fields@.len(), |i: int| fields@[i].0@);
                let values = Seq::new(
                    fields@.len(),
                    |i: int|
                        if 0 <= i < fields@.len() {
                            fields@[i].1@
                        } else {
                            JsonView::Null
                        },
                );
                JsonView::Object(names.zip_with(values))
            },
        }
    }
}

/// What the items of an array hold.
pub open spec fn items_view(items: Seq<Json>) -> Seq<JsonView> {
    Seq::new(items.len(), |i: int| items[i]@)
}

/// What the fields of an object hold.
pub open spec fn fields_view(fields: Seq<(String, Json)>) -> Seq<(Seq<char>, JsonView)> {
    Seq::new(fields.len(), |i: int| (fields[i].0@, fields[i].1@))
}

/// The view of an array is made of the views of its items, that of an object of the views
/// of its fields.
pub proof fn lemma_json_view(json: Json)
    ensures
        json matches Json::Array(items) ==> json@ == JsonView::Array(items_view(items@)),
        json matches Json::Object(fields) ==> json@ == JsonView::Object(fields_view(fields@)),
{
    match json {
        Json::Array(items) => {
            assert(json@->Array_0 =~= items_view(items@));
        },
        Json::Object(fields) => {
            assert(json@->Object_0 =~= fields_view(fields@));
        },
        _ => {},
    }
}

/// What an optional value holds.
pub open spec fn optional_view(json: Option<Json>) -> Option<JsonView> {
    match json {
        Some(json) => Some(json@),
        None => None,
    }
}

impl Json {
    /// A value that holds the same.
    pub fn copy(&self) -> (r: Json)
        ensures
            r@ == self@,
        decreases self,
    {
        match self {
            Json::Null => Json::Null,
            Json::Bool(b) => Json::Bool(*b),
            Json::Number(n) => Json::Number(n.clone()),
            Json::Text(s) => Json::Text(s.clone()),
            Json::Array(items) => {
                let mut out: Vec<Json> = Vec::new();
                let mut i: usize = 0;
                while i < items.len()
                    invariant
                        i <= items@.len(),
                        *self matches Json::Array(v) && v == *items,
                        out@.len() == i,
                        forall|j: int| 0 <= j < i ==> out@[j]@ == #[trigger] items@[j]@,
                    decreases items.len() - i,
                {
                    out.push(items[i].copy());
                    i += 1;
                }
                let r = Json::Array(out);
                proof {
                    lemma_json_view(r);
                    lemma_json_view(*self);
                    assert(items_view(out@) =~= items_view(items@));
                }
                r
            },
            Json::Object(fields) => {
                let mut out: Vec<(String, Json)> = Vec::new();
                let mut i: usize = 0;
                while i < fields.len()
                    invariant
                        i <= fields@.len(),
                        *self matches Json::Object(v) && v == *fields,
                        out@.len() == i,
                        forall|j: int|
                            0 <= j < i ==> out@[j].1@ == (#[trigger] fields@[j]).1@ && out@[j].0@
                                == fields@[j].0@,
                    decreases fields.len() - i,
                {
                    out.push((fields[i].0.clone(), fields[i].1.copy()));
                    i += 1;
                }
                let r = Json::Object(out);
                proof {
                    lemma_json_view(r);
                    lemma_json_view(*self);
                    assert(fields_view(out@) =~= fields_view(fields@));
                }
                r
            },
        }
    }
}

/// An object with the given fields.
pub fn object(fields: Vec<(String, Json)>) -> (r: Json)
    ensures
        r@ == JsonView::Object(fields_view(fields@)),
{
    let r = Json::Object(fields);
    proof {
        lemma_json_view(r);
    }
    r
}

/// An array with the given items.
pub fn array(items: Vec<Json>) -> (r: Json)
    ensures
        r@ == JsonView::Array(items_view(items@)),
{
    let r = Json::Array(items);
    proof {
        lemma_json_view(r);
    }
    r
}

/// Appends the field `name` with `value`.
pub fn push_field(fields: &mut Vec<(String, Json)>, name: &str, value: Json)
    ensures
        fields_view(final(fields)@) == fields_view(old(fields)@).push((name@, value@)),
{
    fields.push((name.to_owned(), value));
    assert(fields_view(fields@) =~= fields_view(old(fields)@).push((name@, value@)));
}

// ---------- The same value ----------

/// `a` and `b` are both the floating-point zero, of whichever sign.
pub open spec fn both_zero(a: Seq<char>, b: Seq<char>) -> bool {
    (a == "0.0"@ || a == "-0.0"@) && (b == "0.0"@ || b == "-0.0"@)
}

/// `a` and `b` are the same value: they differ at most in the sign of a zero.
pub open spec fn same_value(a: JsonView, b: JsonView) -> bool
    decreases a,
{
    match (a, b) {
        (JsonView::Null, JsonView::Null) => true,
        (JsonView::Bool(x), JsonView::Bool(y)) => x == y,
        (JsonView::Number(x), JsonView::Number(y)) => x == y || both_zero(x, y),
        (JsonView::Text(x), JsonView::Text(y)) => x == y,
        (JsonView::Array(x), JsonView::Array(y)) => x.len() == y.len() && forall|i: int|
            0 <= i < x.len() ==> same_value(#[trigger] x[i], y[i]),
        (JsonView::Object(x), JsonView::Object(y)) => x.len() == y.len() && forall|i: int|
            0 <= i < x.len() ==> (#[trigger] x[i]).0 == y[i].0 && same_value(x[i].1, y[i].1),
        _ => false,
    }
}

/// Tells whether `a` is a floating-point zero.
fn float_zero(a: &str) -> (r: bool)
    ensures
        r == (a@ == "0.0"@ || a@ == "-0.0"@),
{
    same_text(a, "0.0") || same_text(a, "-0.0")
}

/// Tells whether `a` and `b` are the same value.
pub fn same_json(a: &Json, b: &Json) -> (r: bool)
    ensures
        r == same_value(a@, b@),
    decreases a,
{
    match (a, b) {
        (Json::Null, Json::Null) => true,
        (Json::Bool(x), Json::Bool(y)) => *x == *y,
        (Json::Number(x), Json::Number(y)) => {
            same_text(x.as_str(), y.as_str()) || (float_zero(x.as_str()) && float_zero(y.as_str()))
        },
        (Json::Text(x), Json::Text(y)) => same_text(x.as_str(), y.as_str()),
        (Json::Array(x), Json::Array(y)) => {
            proof {
                lemma_json_view(*a);
                lemma_json_view(*b);
            }
            if x.len() != y.len() {
                return false;
            }
            let mut i: usize = 0;
            while i < x.len()
                invariant
                    i <= x@.len(),
                    x@.len() == y@.len(),
                    *a matches Json::Array(v) && v == *x,
                    a@ == JsonView::Array(items_view(x@)),
                    b@ == JsonView::Array(items_view(y@)),
                    forall|k: int|
                        0 <= k < i ==> same_value(
                            #[trigger] items_view(x@)[k],
                            items_view(y@)[k],
                        ),
                decreases x.len() - i,
            {
                if !same_json(&x[i], &y[i]) {
                    assert(!same_value(items_view(x@)[i as int], items_view(y@)[i as int]));
                    return false;
                }
                i += 1;
            }
            true
        },
        (Json::Object(x), Json::Object(y)) => {
            proof {
                lemma_json_view(*a);
                lemma_json_view(*b);
            }
            if x.len() != y.len() {
                return false;
            }
            let mut i: usize = 0;
            while i < x.len()
                invariant
                    i <= x@.len(),
                    x@.len() == y@.len(),
                    *a matches Json::Object(v) && v == *x,
                    a@ == JsonView::Object(fields_view(x@)),
                    b@ == JsonView::Object(fields_view(y@)),
                    forall|k: int|
                        0 <= k < i ==> (#[trigger] fields_view(x@)[k]).0 == fields_view(y@)[k].0
                            && same_value(fields_view(x@)[k].1, fields_view(y@)[k].1),
                decreases x.len() - i,
            {
                assert(fields_view(x@)[i as int] == (x@[i as int].0@, x@[i as int].1@));
                assert(fields_view(y@)[i as int] == (y@[i as int].0@, y@[i as int].1@));
                if !same_text(x[i].0.as_str(), y[i].0.as_str()) || !same_json(&x[i].1, &y[i].1) {
                    return false;
                }
                i += 1;
            }
            true
        },
        _ => false,
    }
}

// ---------- Names in order ----------

/// `a` comes before `b` in the order of their characters.
pub open spec fn before(a: Seq<char>, b: Seq<char>) -> bool
    decreases a.len(),
{
    if b.len() == 0 {
        false
    } else if a.len() == 0 {
        true
    } else if a[0] != b[0] {
        a[0] < b[0]
    } else {
        before(a.drop_first(), b.drop_first())
    }
}

/// Tells whether `a` comes before `b` in the order of their characters.
pub fn text_before(a: &str, b: &str) -> (r: bool)
    ensures
        r == before(a@, b@),
{
    let x = to_chars(a);
    let y = to_chars(b);
    let mut i: usize = 0;
    assert(a@.skip(0) =~= a@);
    assert(b@.skip(0) =~= b@);
    while i < x.len() && i < y.len()
        invariant
            x@ == a@,
            y@ == b@,
            i <= x@.len(),
            i <= y@.len(),
            before(a@, b@) == before(a@.skip(i as int), b@.skip(i as int)),
        decreases x.len() - i,
    {
        assert(a@.skip(i as int)[0] == a@[i as int]);
        assert(b@.skip(i as int)[0] == b@[i as int]);
        assert(a@.skip(i as int).drop_first() =~= a@.skip(i + 1));
        assert(b@.skip(i as int).drop_first() =~= b@.skip(i + 1));
        if x[i] != y[i] {
            return x[i] < y[i];
        }
        i += 1;
    }
    i < y.len()
}

/// `before` is irreflexive, transitive and total.
pub proof fn before_is_a_strict_order(a: Seq<char>, b: Seq<char>, c: Seq<char>)
    ensures
        !before(a, a),
        before(a, b) && before(b, c) ==> before(a, c),
        before(a, b) || before(b, a) || a == b,
        before(a, b) ==> !before(b, a),
    decreases a.len(),
{
    if a.len() == 0 {
        if b.len() == 0 {
            assert(a =~= b);
        }
    } else {
        if b.len() > 0 {
            if c.len() > 0 {
                before_is_a_strict_order(a.drop_first(), b.drop_first(), c.drop_first());
            } else {
                before_is_a_strict_order(a.drop_first(), b.drop_first(), c);
            }
            if a[0] == b[0] && a.drop_first() == b.drop_first() {
                assert(seq![a[0]] + a.drop_first() =~= a);
                assert(seq![b[0]] + b.drop_first() =~= b);
            }
        } else {
            before_is_a_strict_order(a.drop_first(), b, c);
        }
    }
}

/// The names of `fields` ascend, so none occurs twice.
pub open spec fn ascending(fields: Seq<(Seq<char>, JsonView)>) -> bool {
    forall|i: int, j: int|
        0 <= i < j < fields.len() ==> before((#[trigger] fields[i]).0, (#[trigger] fields[j]).0)
}

/// Every object in `v` has its fields in ascending order of their names.
pub open spec fn valid(v: JsonView) -> bool
    decreases v,
{
    match v {
        JsonView::Array(items) => forall|i: int| 0 <= i < items.len() ==> valid(#[trigger] items[i]),
        JsonView::Object(fields) => ascending(fields) && forall|i: int|
            0 <= i < fields.len() ==> valid((#[trigger] fields[i]).1),
        _ => true,
    }
}

/// A field of `fields` is called `name`.
pub open spec fn has_name(fields: Seq<(Seq<char>, JsonView)>, name: Seq<char>) -> bool {
    exists|i: int| 0 <= i < fields.len() && (#[trigger] fields[i]).0 == name
}

/// `fields` with the field `name` set to `value`, in ascending order if `fields` is.
pub open spec fn with_field(
    fields: Seq<(Seq<char>, JsonView)>,
    name: Seq<char>,
    value: JsonView,
) -> Seq<(Seq<char>, JsonView)>
    decreases fields.len(),
{
    if fields.len() == 0 || before(fields.last().0, name) {
        fields.push((name, value))
    } else if fields.last().0 == name {
        fields.drop_last().push((name, value))
    } else {
        with_field(fields.drop_last(), name, value).push(fields.last())
    }
}

/// Setting a field keeps the names in ascending order and every other field as it was.
pub proof fn with_field_keeps_order(
    fields: Seq<(Seq<char>, JsonView)>,
    name: Seq<char>,
    value: JsonView,
)
    requires
        ascending(fields),
    ensures
        ascending(with_field(fields, name, value)),
        with_field(fields, name, value).contains((name, value)),
        forall|i: int|
            0 <= i < fields.len() && (#[trigger] fields[i]).0 != name ==> with_field(
                fields,
                name,
                value,
            ).contains(fields[i]),
        forall|k: int|
            0 <= k < with_field(fields, name, value).len() ==> (#[trigger] with_field(
                fields,
                name,
                value,
            )[k]) == (name, value) || fields.contains(with_field(fields, name, value)[k]),
    decreases fields.len(),
{
    let r = with_field(fields, name, value);
    if fields.len() == 0 {
        assert(r[0] == (name, value));
    } else {
        let d = fields.drop_last();
        let last = fields.last();
        assert(ascending(d));
        if before(last.0, name) {
            assert forall|i: int, j: int| 0 <= i < j < r.len() implies before(
                (#[trigger] r[i]).0,
                (#[trigger] r[j]).0,
            ) by {
                if j == fields.len() && i < fields.len() - 1 {
                    before_is_a_strict_order(fields[i].0, last.0, name);
                }
            }
            assert(r[r.len() - 1] == (name, value));
            assert forall|i: int| 0 <= i < fields.len() implies r.contains(
                #[trigger] fields[i],
            ) by {
                assert(r[i] == fields[i]);
            }
        } else if last.0 == name {
            assert(r[r.len() - 1] == (name, value));
            assert forall|i: int|
                0 <= i < fields.len() && (#[trigger] fields[i]).0 != name implies r.contains(
                fields[i],
            ) by {
                assert(r[i] == fields[i]);
            }
            assert forall|i: int, j: int| 0 <= i < j < r.len() implies before(
                (#[trigger] r[i]).0,
                (#[trigger] r[j]).0,
            ) by {
                assert(before(fields[i].0, fields[j].0));
            }
            assert forall|k: int| 0 <= k < r.len() implies (#[trigger] r[k]) == (name, value)
                || fields.contains(r[k]) by {
                if k < r.len() - 1 {
                    assert(r[k] == fields[k]);
                }
            }
        } else {
            let w = with_field(d, name, value);
            with_field_keeps_order(d, name, value);
            before_is_a_strict_order(last.0, name, name);
            assert(before(name, last.0));
            assert(r =~= w.push(last));
            assert forall|k: int| 0 <= k < w.len() implies before((#[trigger] w[k]).0, last.0) by {
                if w[k] != (name, value) {
                    let m = choose|m: int| 0 <= m < d.len() && d[m] == w[k];
                    assert(before(fields[m].0, fields[fields.len() - 1].0));
                }
            }
            assert forall|i: int, j: int| 0 <= i < j < r.len() implies before(
                (#[trigger] r[i]).0,
                (#[trigger] r[j]).0,
            ) by {
                if j < w.len() {
                    assert(before(w[i].0, w[j].0));
                } else {
                    assert(before(w[i].0, last.0));
                }
            }
            let at = choose|at: int| 0 <= at < w.len() && w[at] == (name, value);
            assert(r[at] == (name, value));
            assert forall|i: int|
                0 <= i < fields.len() && (#[trigger] fields[i]).0 != name implies r.contains(
                fields[i],
            ) by {
                if i < d.len() {
                    assert(d[i] == fields[i]);
                    let k = choose|k: int| 0 <= k < w.len() && w[k] == d[i];
                    assert(r[k] == fields[i]);
                } else {
                    assert(r[w.len() as int] == fields[i]);
                }
            }
            assert forall|k: int| 0 <= k < r.len() implies (#[trigger] r[k]) == (name, value)
                || fields.contains(r[k]) by {
                if k < w.len() {
                    assert(r[k] == w[k]);
                    if w[k] != (name, value) {
                        let m = choose|m: int| 0 <= m < d.len() && d[m] == w[k];
                        assert(fields[m] == r[k]);
                    }
                } else {
                    assert(fields[fields.len() - 1] == r[k]);
                }
            }
        }
    }
}

/// Sets the field `name` to `value`.
pub fn set_field(fields: &mut Vec<(String, Json)>, name: String, value: Json)
    ensures
        fields_view(final(fields)@) == with_field(fields_view(old(fields)@), name@, value@),
{
    let ghost start = fields_view(fields@);
    let mut at: usize = fields.len();
    let ghost mut tail: Seq<(Seq<char>, JsonView)> = Seq::empty();
    proof {
        assert(start.take(at as int) =~= start);
        assert(with_field(start, name@, value@) + tail =~= with_field(start, name@, value@));
    }
    while at > 0 && !text_before(fields[at - 1].0.as_str(), name.as_str())
        invariant
            at <= fields@.len(),
            start == fields_view(fields@),
            fields@ == old(fields)@,
            tail == start.skip(at as int),
            with_field(start, name@, value@) == with_field(start.take(at as int), name@, value@)
                + tail,
        decreases at,
    {
        let ghost head = start.take(at as int);
        assert(head.last() == start[at - 1]);
        assert(head.drop_last() =~= start.take(at - 1));
        if same_text(fields[at - 1].0.as_str(), name.as_str()) {
            let ghost whole = head.drop_last().push((name@, value@)) + tail;
            fields.set(at - 1, (name, value));
            assert(fields_view(fields@) =~= whole);
            return ;
        }
        proof {
            let w = with_field(head.drop_last(), name@, value@);
            assert(w.push(head.last()) + tail =~= w + (seq![head.last()] + tail));
            assert(seq![head.last()] + tail =~= start.skip(at - 1));
            tail = start.skip(at - 1);
        }
        at -= 1;
    }
    let ghost head = start.take(at as int);
    assert(at > 0 ==> head.last() == start[at - 1]);
    let ghost whole = head.push((name@, value@)) + tail;
    fields.insert(at, (name, value));
    assert(fields_view(fields@) =~= whole);
}

/// Tells whether one of `fields` is called `name`.
pub fn names_field(fields: &Vec<(String, Json)>, name: &str) -> (r: bool)
    ensures
        r == has_name(fields_view(fields@), name@),
{
    let mut i: usize = 0;
    while i < fields.len()
        invariant
            i <= fields@.len(),
            forall|j: int| 0 <= j < i ==> (#[trigger] fields_view(fields@)[j]).0 != name@,
        decreases fields.len() - i,
    {
        if same_text(fields[i].0.as_str(), name) {
            assert(fields_view(fields@)[i as int].0 == name@);
            return true;
        }
        i += 1;
    }
    false
}

// ---------- Encoding ----------

/// The number of bytes that `serde_json::to_vec` writes for a value.
pub uninterp spec fn json_bytes(v: JsonView) -> usize;

/// The text that `serde_json::to_string_pretty` writes for a value.
pub uninterp spec fn json_pretty(v: JsonView) -> Seq<char>;

/// The text that a value of `serde_json` displays as, on one line.
pub uninterp spec fn json_compact(v: JsonView) -> Seq<char>;

/// The value that `serde_json::from_str` reads from a text, if the text is JSON.
pub uninterp spec fn json_parsed(text: Seq<char>) -> Option<JsonView>;

/// The lengths that need no encoder: `null` takes four bytes, and an empty text, an empty
/// array and an empty object take two each.
pub open spec fn plain_len(v: JsonView) -> Option<usize> {
    match v {
        JsonView::Null => Some(4),
        JsonView::Text(s) if s.len() == 0 => Some(2),
        JsonView::Array(items) if items.len() == 0 => Some(2),
        JsonView::Object(fields) if fields.len() == 0 => Some(2),
        _ => None,
    }
}

/// The length of the encoding of `v` in bytes.
pub open spec fn encoded_len(v: JsonView) -> usize {
    match plain_len(v) {
        Some(len) => len,
        None => json_bytes(v),
    }
}

/// `serde_json`'s own value, in which the wrappers below hand a `Json` over.
#[verifier::external_type_specification]
#[verifier::external_body]
pub struct ExValue(serde_json::Value);

/// The number that a text is, as `serde_json` holds it: a whole number of 64 bits where std
/// reads one, else what std reads as the nearest number of double precision. `serde_json`
/// writes such a number in a text that only that number is nearest to, so a text that it has
/// written is the same number again. `null` where the text is no number, or not a finite one.
#[verifier::external_body]
fn number_value(text: &str) -> serde_json::Value {
    let whole = text.parse::<u64>().map(serde_json::Number::from);
    let whole = whole.or_else(|_| text.parse::<i64>().map(serde_json::Number::from)).ok();
    let number = whole.or_else(|| text.parse().ok().and_then(serde_json::Number::from_f64));
    number.map_or(serde_json::Value::Null, serde_json::Value::Number)
}

/// The same value as `serde_json` holds it.
#[verifier::external_body]
pub(crate) fn to_value(json: &Json) -> serde_json::Value {
    match json {
        Json::Null => serde_json::Value::Null,
        Json::Bool(b) => serde_json::Value::Bool(*b),
        Json::Number(n) => number_value(n.as_str()),
        Json::Text(s) => serde_json::Value::String(s.clone()),
        Json::Array(items) => serde_json::Value::Array(items.iter().map(to_value).collect()),
        Json::Object(fields) => serde_json::Value::Object(
            fields.iter().map(|(name, value)| (name.clone(), to_value(value))).collect(),
        ),
    }
}

/// The same value as the library holds it. A number is written as `serde_json` writes it.
#[verifier::external_body]
pub(crate) fn from_value(value: &serde_json::Value) -> Json {
    match value {
        serde_json::Value::Null => Json::Null,
        serde_json::Value::Bool(b) => Json::Bool(*b),
        serde_json::Value::Number(n) => Json::Number(n.to_string()),
        serde_json::Value::String(s) => Json::Text(s.clone()),
        serde_json::Value::Array(items) => Json::Array(items.iter().map(from_value).collect()),
        serde_json::Value::Object(fields) => Json::Object(
            fields.iter().map(|(name, value)| (name.clone(), from_value(value))).collect(),
        ),
    }
}

/// The length in bytes of what `serde_json::to_vec` writes for `json`. An error, of which
/// `to_vec` has none for a value with text for names, counts as the greatest length. The
/// lengths of `null` and of empty values are stated; of any other value the length is named.
#[verifier::external_body]
pub(crate) fn json_len(json: &Json) -> (r: usize)
    ensures
        r == (match plain_len(json@) {
            Some(len) => len,
            None => json_bytes(json@),
        }),
{
    serde_json::to_vec(&to_value(json)).map_or(usize::MAX, |encoded| encoded.len())
}

/// What `serde_json::to_string_pretty` writes for `json`, named.
#[verifier::external_body]
pub(crate) fn pretty_json(json: &Json) -> (r: String)
    ensures
        r@ == json_pretty(json@),
{
    let value = to_value(json);
    serde_json::to_string_pretty(&value).unwrap_or_else(|_| value.to_string())
}

/// What `serde_json` writes for `json` on one line, as its values display, named.
#[verifier::external_body]
pub(crate) fn compact_json(json: &Json) -> (r: String)
    ensures
        r@ == json_compact(json@),
{
    to_value(json).to_string()
}

/// What `serde_json::from_str` reads from `text`, named; `None` where it reads nothing.
#[verifier::external_body]
pub(crate) fn parse_json(text: &str) -> (r: Option<Json>)
    ensures
        r is Some <==> json_parsed(text@) is Some,
        r matches Some(json) ==> json_parsed(text@) == Some(json@),
{
    serde_json::from_str::<serde_json::Value>(text).ok().map(|value| from_value(&value))
}

/// Tells whether the encoding of `value` takes at most `max_bytes` bytes.
pub fn json_fits(value: &Json, max_bytes: usize) -> (r: bool)
    ensures
        r == (encoded_len(value@) <= max_bytes),
{
    json_len(value) <= max_bytes
}

// ---------- Laws ----------

/// Every value is the same as itself, and as what is the same as it.
pub proof fn sameness_is_mutual(a: JsonView, b: JsonView)
    ensures
        same_value(a, a),
        same_value(a, b) == same_value(b, a),
    decreases a,
{
    match a {
        JsonView::Array(x) => {
            assert forall|i: int| 0 <= i < x.len() implies same_value(#[trigger] x[i], x[i]) by {
                sameness_is_mutual(x[i], x[i]);
            }
            if let JsonView::Array(y) = b {
                assert forall|i: int| 0 <= i < x.len() implies same_value(#[trigger] x[i], y[i])
                    == same_value(y[i], x[i]) by {
                    sameness_is_mutual(x[i], y[i]);
                }
                if same_value(a, b) {
                    assert forall|i: int| 0 <= i < y.len() implies same_value(
                        #[trigger] y[i],
                        x[i],
                    ) by {
                        assert(same_value(x[i], y[i]));
                    }
                }
                if same_value(b, a) {
                    assert forall|i: int| 0 <= i < x.len() implies same_value(
                        #[trigger] x[i],
                        y[i],
                    ) by {
                        assert(same_value(y[i], x[i]));
                    }
                }
            }
        },
        JsonView::Object(x) => {
            assert forall|i: int| 0 <= i < x.len() implies (#[trigger] x[i]).0 == x[i].0
                && same_value(x[i].1, x[i].1) by {
                sameness_is_mutual(x[i].1, x[i].1);
            }
            if let JsonView::Object(y) = b {
                if same_value(a, b) {
                    assert forall|i: int| 0 <= i < y.len() implies (#[trigger] y[i]).0 == x[i].0
                        && same_value(y[i].1, x[i].1) by {
                        assert(x[i].0 == y[i].0 && same_value(x[i].1, y[i].1));
                        sameness_is_mutual(x[i].1, y[i].1);
                    }
                }
                if same_value(b, a) {
                    assert forall|i: int| 0 <= i < x.len() implies (#[trigger] x[i]).0 == y[i].0
                        && same_value(x[i].1, y[i].1) by {
                        assert(y[i].0 == x[i].0 && same_value(y[i].1, x[i].1));
                        sameness_is_mutual(x[i].1, y[i].1);
                    }
                }
            }
        },
        _ => {},
    }
}

/// Texts that differ, truth values that differ and lists of other lengths are not the same, and
/// values of different kinds are not.
pub proof fn different_values_are_not_the_same(
    s: Seq<char>,
    t: Seq<char>,
    x: Seq<JsonView>,
    y: Seq<JsonView>,
    i: int,
)
    ensures
        same_value(JsonView::Text(s), JsonView::Text(t)) <==> s == t,
        same_value(JsonView::Number(s), JsonView::Number(t)) && s != t ==> (s == "0.0"@ && t
            == "-0.0"@) || (s == "-0.0"@ && t == "0.0"@),
        !same_value(JsonView::Text(s), JsonView::Number(t)),
        !same_value(JsonView::Null, JsonView::Text(t)),
        !same_value(JsonView::Bool(true), JsonView::Bool(false)),
        x.len() != y.len() ==> !same_value(JsonView::Array(x), JsonView::Array(y)),
        0 <= i < x.len() && x.len() == y.len() && !same_value(x[i], y[i]) ==> !same_value(
            JsonView::Array(x),
            JsonView::Array(y),
        ),
{
}

/// Where two names first differ, the one with the lesser character there comes first; one that
/// goes on where the other ends comes behind it.
pub proof fn names_are_ordered_by_their_first_difference(
    common: Seq<char>,
    a: Seq<char>,
    b: Seq<char>,
)
    requires
        a.len() > 0 && b.len() > 0 ==> a[0] != b[0],
    ensures
        a.len() > 0 && b.len() > 0 ==> (before(common + a, common + b) <==> a[0] < b[0]),
        b.len() > 0 && a.len() == 0 ==> before(common + a, common + b),
        b.len() == 0 ==> !before(common + a, common + b),
    decreases common.len(),
{
    if common.len() > 0 {
        let c = common.drop_first();
        names_are_ordered_by_their_first_difference(c, a, b);
        assert((common + a).drop_first() =~= c + a);
        assert((common + b).drop_first() =~= c + b);
        assert((common + a)[0] == common[0] && (common + b)[0] == common[0]);
    } else {
        assert(common + a =~= a);
        assert(common + b =~= b);
    }
}

} // verus!
