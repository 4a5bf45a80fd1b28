//! What the model is given of the conversation so far.
use vstd::prelude::*;
use vstd::string::*;
use crate::budget;
use crate::budget::{limit_json, MAX_SCALARS, MAX_STRUCTURES};
use crate::json;
use crate::json::{Json, JsonView};
use crate::text;
use crate::truncate;
use crate::truncate::truncate_head_tail;

verus! {

/// The most bytes of an older tool result that the model is given.
pub const MAX_HISTORY_TOOL_RESULT_BYTES: usize = 1024;

/// One piece of a tool result.
#[derive(Debug)]
pub enum ResultContent {
    Text(String),
    Json(Json),
    Image,
}

/// What a `ResultContent` holds.
pub enum ContentModel {
    Text(Seq<char>),
    Json(JsonView),
    Image,
}

impl View for ResultContent {
    type V = ContentModel;

    open spec fn view(&self) -> ContentModel {
        match self {
            ResultContent::Text(text) => ContentModel::Text(text@),
            ResultContent::Json(json) => ContentModel::Json(json@),
            ResultContent::Image => ContentModel::Image,
        }
    }
}

/// One item of what the user's side says: the result of a tool, or anything else.
#[derive(Debug)]
pub enum UserItem {
    ToolResult(Vec<ResultContent>),
    Other,
}

/// What a `UserItem` holds.
#[verifier::ext_equal]
pub enum ItemModel {
    ToolResult(Seq<ContentModel>),
    Other,
}

/// What the pieces of a result hold.
pub open spec fn content_models(content: Seq<ResultContent>) -> Seq<ContentModel> {
    Seq::new(content.len(), |i: int| content[i]@)
}

impl View for UserItem {
    type V = ItemModel;

    open spec fn view(&self) -> ItemModel {
        match self {
            UserItem::ToolResult(content) => ItemModel::ToolResult(content_models(content@)),
            UserItem::Other => ItemModel::Other,
        }
    }
}

/// One message of the history: what the user's side says, or anything else.
#[derive(Debug)]
pub enum HistoryMessage {
    User(Vec<UserItem>),
    Other,
}

/// What a `HistoryMessage` holds.
#[verifier::ext_equal]
pub enum HistoryModel {
    User(Seq<ItemModel>),
    Other,
}

/// What the items of a message hold.
pub open spec fn item_models(items: Seq<UserItem>) -> Seq<ItemModel> {
    Seq::new(items.len(), |i: int| items[i]@)
}

impl View for HistoryMessage {
    type V = HistoryModel;

    open spec fn view(&self) -> HistoryModel {
        match self {
            HistoryMessage::User(items) => HistoryModel::User(item_models(items@)),
            HistoryMessage::Other => HistoryModel::Other,
        }
    }
}

/// What the messages of a history hold.
pub open spec fn history_models(history: Seq<HistoryMessage>) -> Seq<HistoryModel> {
    Seq::new(history.len(), |i: int| history[i]@)
}

// ---------- Kinds of messages ----------

/// The message holds a result of a tool.
pub open spec fn is_tool_result(message: HistoryModel) -> bool {
    message matches HistoryModel::User(items) && exists|i: int|
        0 <= i < items.len() && (#[trigger] items[i]) is ToolResult
}

/// The message holds something that the user said.
pub open spec fn is_user_prompt(message: HistoryModel) -> bool {
    message matches HistoryModel::User(items) && exists|i: int|
        0 <= i < items.len() && (#[trigger] items[i]) is Other
}

/// The last message that the user said something in.
pub open spec fn last_prompt(history: Seq<HistoryModel>) -> Option<int>
    decreases history.len(),
{
    if history.len() == 0 {
        None
    } else if is_user_prompt(history.last()) {
        Some(history.len() - 1)
    } else {
        last_prompt(history.drop_last())
    }
}

/// The last message with a result of a tool.
pub open spec fn last_result(history: Seq<HistoryModel>) -> Option<int>
    decreases history.len(),
{
    if history.len() == 0 {
        None
    } else if is_tool_result(history.last()) {
        Some(history.len() - 1)
    } else {
        last_result(history.drop_last())
    }
}

/// Tells whether the message holds a result of a tool.
pub fn is_tool_result_message(message: &HistoryMessage) -> (r: bool)
    ensures
        r == is_tool_result(message@),
{
    match message {
        HistoryMessage::User(items) => {
            let ghost models = item_models(items@);
            let mut i: usize = 0;
            while i < items.len()
                invariant
                    i <= items@.len(),
                    models == item_models(items@),
                    message@ == HistoryModel::User(models),
                    forall|j: int| 0 <= j < i ==> !((#[trigger] models[j]) is ToolResult),
                decreases items.len() - i,
            {
                if let UserItem::ToolResult(content) = &items[i] {
                    assert(models[i as int] is ToolResult);
                    return true;
                }
                i += 1;
            }
            false
        },
        HistoryMessage::Other => false,
    }
}

/// Tells whether the message holds something that the user said.
pub fn is_user_prompt_message(message: &HistoryMessage) -> (r: bool)
    ensures
        r == is_user_prompt(message@),
{
    match message {
        HistoryMessage::User(items) => {
            let ghost models = item_models(items@);
            let mut i: usize = 0;
            while i < items.len()
                invariant
                    i <= items@.len(),
                    models == item_models(items@),
                    message@ == HistoryModel::User(models),
                    forall|j: int| 0 <= j < i ==> !((#[trigger] models[j]) is Other),
                decreases items.len() - i,
            {
                if let UserItem::Other = &items[i] {
                    assert(models[i as int] is Other);
                    return true;
                }
                i += 1;
            }
            false
        },
        HistoryMessage::Other => false,
    }
}

// ---------- Compaction ----------

/// One piece of an older result: shortened, and without images.
pub open spec fn compacted_content(content: ContentModel) -> ContentModel {
    match content {
        ContentModel::Text(text) => ContentModel::Text(
            truncate::head_and_tail(text, MAX_HISTORY_TOOL_RESULT_BYTES as nat, "older tool result"@),
        ),
        ContentModel::Json(json) => ContentModel::Json(
            budget::projected(json, MAX_HISTORY_TOOL_RESULT_BYTES as nat),
        ),
        ContentModel::Image => ContentModel::Text("[image omitted from older tool result]"@),
    }
}

/// The pieces of an older result.
pub open spec fn compacted_result(content: Seq<ContentModel>) -> Seq<ContentModel> {
    Seq::new(content.len(), |i: int| compacted_content(content[i]))
}

/// An older item.
pub open spec fn compacted_item(item: ItemModel) -> ItemModel {
    match item {
        ItemModel::ToolResult(content) => ItemModel::ToolResult(compacted_result(content)),
        ItemModel::Other => ItemModel::Other,
    }
}

/// An older message.
pub open spec fn compacted_message(message: HistoryModel) -> HistoryModel {
    match message {
        HistoryModel::User(items) => HistoryModel::User(
            Seq::new(items.len(), |i: int| compacted_item(items[i])),
        ),
        HistoryModel::Other => HistoryModel::Other,
    }
}

/// Message `index` stays as it is: it holds a result of the current turn, which is to be
/// kept. The current turn begins with what the user said last; where the user said nothing,
/// it is the last result.
pub open spec fn is_current(history: Seq<HistoryModel>, preserve: bool, index: int) -> bool {
    preserve && match last_prompt(history) {
        Some(start) => index > start && is_tool_result(history[index]),
        None => last_result(history) == Some(index),
    }
}

/// The history with the results of older turns shortened.
pub open spec fn compacted(history: Seq<HistoryModel>, preserve: bool) -> Seq<HistoryModel> {
    Seq::new(
        history.len(),
        |i: int|
            if is_current(history, preserve, i) {
                history[i]
            } else {
                compacted_message(history[i])
            },
    )
}

/// The pieces of an older result.
pub fn compact_tool_result_content(content: &Vec<ResultContent>) -> (r: Vec<ResultContent>)
    ensures
        content_models(r@) == compacted_result(content_models(content@)),
{
    let mut out: Vec<ResultContent> = Vec::new();
    let mut i: usize = 0;
    while i < content.len()
        invariant
            i <= content@.len(),
            out@.len() == i,
            forall|j: int|
                0 <= j < i ==> (#[trigger] out@[j])@ == compacted_content(content@[j]@),
        decreases content.len() - i,
    {
        let piece = match &content[i] {
            ResultContent::Text(text) => ResultContent::Text(
                truncate_head_tail(
                    text.as_str(),
                    MAX_HISTORY_TOOL_RESULT_BYTES,
                    "older tool result",
                ),
            ),
            ResultContent::Json(json) => ResultContent::Json(
                limit_json(json.copy(), MAX_HISTORY_TOOL_RESULT_BYTES),
            ),
            ResultContent::Image => ResultContent::Text(
                "[image omitted from older tool result]".to_owned(),
            ),
        };
        out.push(piece);
        i += 1;
    }
    assert(content_models(out@) =~= compacted_result(content_models(content@)));
    out
}

/// A copy of the pieces of a result.
fn copy_content(content: &Vec<ResultContent>) -> (r: Vec<ResultContent>)
    ensures
        content_models(r@) == content_models(content@),
{
    let mut out: Vec<ResultContent> = Vec::new();
    let mut i: usize = 0;
    while i < content.len()
        invariant
            i <= content@.len(),
            out@.len() == i,
            forall|j: int| 0 <= j < i ==> (#[trigger] out@[j])@ == content@[j]@,
        decreases content.len() - i,
    {
        let piece = match &content[i] {
            ResultContent::Text(text) => ResultContent::Text(text.clone()),
            ResultContent::Json(json) => ResultContent::Json(json.copy()),
            ResultContent::Image => ResultContent::Image,
        };
        out.push(piece);
        i += 1;
    }
    assert(content_models(out@) =~= content_models(content@));
    out
}

/// The items of a message, as they are or as older ones.
fn copy_items(items: &Vec<UserItem>, older: bool) -> (r: Vec<UserItem>)
    ensures
        HistoryModel::User(item_models(r@)) == if older {
            compacted_message(HistoryModel::User(item_models(items@)))
        } else {
            HistoryModel::User(item_models(items@))
        },
{
    let mut out: Vec<UserItem> = Vec::new();
    let mut i: usize = 0;
    while i < items.len()
        invariant
            i <= items@.len(),
            out@.len() == i,
            forall|j: int|
                0 <= j < i ==> (#[trigger] out@[j])@ == if older {
                    compacted_item(items@[j]@)
                } else {
                    items@[j]@
                },
        decreases items.len() - i,
    {
        let item = match &items[i] {
            UserItem::ToolResult(content) => UserItem::ToolResult(
                if older {
                    compact_tool_result_content(content)
                } else {
                    copy_content(content)
                },
            ),
            UserItem::Other => UserItem::Other,
        };
        out.push(item);
        i += 1;
    }
    proof {
        let items_then = item_models(items@);
        if older {
            assert(item_models(out@) =~= compacted_message(HistoryModel::User(items_then))->User_0);
        } else {
            assert(item_models(out@) =~= items_then);
        }
    }
    out
}

/// The last message that holds something that the user said.
fn find_last_prompt(history: &Vec<HistoryMessage>) -> (r: Option<usize>)
    ensures
        r is Some <==> last_prompt(history_models(history@)) is Some,
        r matches Some(i) ==> last_prompt(history_models(history@)) == Some(i as int),
{
    let ghost models = history_models(history@);
    let mut i: usize = history.len();
    assert(models.take(i as int) =~= models);
    while i > 0
        invariant
            i <= history@.len(),
            models == history_models(history@),
            last_prompt(models) == last_prompt(models.take(i as int)),
        decreases i,
    {
        i -= 1;
        proof {
            assert(models.take(i + 1).last() == history@[i as int]@);
            assert(models.take(i + 1).drop_last() =~= models.take(i as int));
        }
        if is_user_prompt_message(&history[i]) {
            return Some(i);
        }
    }
    None
}

/// The last message with a result of a tool.
fn find_last_result(history: &Vec<HistoryMessage>) -> (r: Option<usize>)
    ensures
        r is Some <==> last_result(history_models(history@)) is Some,
        r matches Some(i) ==> last_result(history_models(history@)) == Some(i as int),
{
    let ghost models = history_models(history@);
    let mut i: usize = history.len();
    assert(models.take(i as int) =~= models);
    while i > 0
        invariant
            i <= history@.len(),
            models == history_models(history@),
            last_result(models) == last_result(models.take(i as int)),
        decreases i,
    {
        i -= 1;
        proof {
            assert(models.take(i + 1).last() == history@[i as int]@);
            assert(models.take(i + 1).drop_last() =~= models.take(i as int));
        }
        if is_tool_result_message(&history[i]) {
            return Some(i);
        }
    }
    None
}

/// The history with the results of older turns shortened; with `preserve_current_turn`,
/// those of the current turn stay as they are.
pub fn compact_tool_history(history: &Vec<HistoryMessage>, preserve_current_turn: bool) -> (r: Vec<
    HistoryMessage,
>)
    ensures
        history_models(r@) == compacted(history_models(history@), preserve_current_turn),
{
    let ghost models = history_models(history@);
    let current = if preserve_current_turn {
        find_last_prompt(history)
    } else {
        None
    };
    let latest = if preserve_current_turn && current.is_none() {
        find_last_result(history)
    } else {
        None
    };
    let mut out: Vec<HistoryMessage> = Vec::new();
    let mut i: usize = 0;
    while i < history.len()
        invariant
            i <= history@.len(),
            models == history_models(history@),
            preserve_current_turn ==> (current is Some <==> last_prompt(models) is Some),
            preserve_current_turn ==> (current matches Some(start) ==> last_prompt(models) == Some(
                start as int,
            )),
            !preserve_current_turn ==> current is None,
            preserve_current_turn && current is None ==> (latest is Some <==> last_result(
                models,
            ) is Some) && (latest matches Some(k) ==> last_result(models) == Some(k as int)),
            !(preserve_current_turn && current is None) ==> latest is None,
            out@.len() == i,
            forall|j: int|
                0 <= j < i ==> (#[trigger] out@[j])@ == compacted(models, preserve_current_turn)[j],
        decreases history.len() - i,
    {
        assert(models[i as int] == history@[i as int]@);
        let kept = match current {
            Some(start) => i > start && is_tool_result_message(&history[i]),
            None => match latest {
                Some(k) => i == k,
                None => false,
            },
        };
        assert(kept == is_current(models, preserve_current_turn, i as int));
        let message = match &history[i] {
            HistoryMessage::User(items) => HistoryMessage::User(copy_items(items, !kept)),
            HistoryMessage::Other => HistoryMessage::Other,
        };
        out.push(message);
        i += 1;
    }
    assert(history_models(out@) =~= compacted(models, preserve_current_turn));
    out
}

// ---------- Laws ----------

/// The piece fits what the model is given of an older result.
pub open spec fn is_small(content: ContentModel) -> bool {
    match content {
        ContentModel::Text(text) => text::utf8_len(text) <= MAX_HISTORY_TOOL_RESULT_BYTES,
        ContentModel::Json(json) => json::encoded_len(json) <= MAX_HISTORY_TOOL_RESULT_BYTES,
        ContentModel::Image => false,
    }
}

/// An older piece fits what the model is given of it, and one that fits stays as it is.
pub proof fn older_pieces_are_small(content: ContentModel)
    ensures
        is_small(compacted_content(content)),
        is_small(content) ==> compacted_content(content) == content,
{
    match content {
        ContentModel::Text(text) => {
            truncate::truncation_keeps_the_budget(
                text,
                MAX_HISTORY_TOOL_RESULT_BYTES as nat,
                "older tool result"@,
            );
            if is_small(content) {
                truncate::truncation_leaves_short_text(
                    text,
                    MAX_HISTORY_TOOL_RESULT_BYTES as nat,
                    "older tool result"@,
                );
            }
        },
        ContentModel::Json(json) => {
            budget::projection_keeps_the_budget(json, MAX_HISTORY_TOOL_RESULT_BYTES as nat);
        },
        ContentModel::Image => {
            reveal_strlit("[image omitted from older tool result]");
            text::lemma_utf8_len_bounds("[image omitted from older tool result]"@);
        },
    }
}

proof fn lemma_message_compacts_once(message: HistoryModel)
    ensures
        compacted_message(compacted_message(message)) == compacted_message(message),
        is_tool_result(compacted_message(message)) == is_tool_result(message),
        is_user_prompt(compacted_message(message)) == is_user_prompt(message),
{
    if let HistoryModel::User(items) = message {
        let once = compacted_message(message)->User_0;
        let twice = compacted_message(compacted_message(message))->User_0;
        assert forall|i: int| 0 <= i < items.len() implies once[i] == twice[i] by {
            if let ItemModel::ToolResult(content) = items[i] {
                let a = compacted_result(content);
                let b = compacted_result(a);
                assert forall|k: int| 0 <= k < content.len() implies a[k] == b[k] by {
                    older_pieces_are_small(content[k]);
                    older_pieces_are_small(a[k]);
                }
                assert(a =~= b);
            }
        }
        assert(once =~= twice);
        if is_tool_result(message) {
            let i = choose|i: int| 0 <= i < items.len() && (#[trigger] items[i]) is ToolResult;
            assert(once[i] is ToolResult);
        }
        if is_tool_result(compacted_message(message)) {
            let i = choose|i: int| 0 <= i < once.len() && (#[trigger] once[i]) is ToolResult;
            assert(items[i] is ToolResult);
        }
        if is_user_prompt(message) {
            let i = choose|i: int| 0 <= i < items.len() && (#[trigger] items[i]) is Other;
            assert(once[i] is Other);
        }
        if is_user_prompt(compacted_message(message)) {
            let i = choose|i: int| 0 <= i < once.len() && (#[trigger] once[i]) is Other;
            assert(items[i] is Other);
        }
    }
}

proof fn lemma_same_kinds(a: Seq<HistoryModel>, b: Seq<HistoryModel>)
    requires
        a.len() == b.len(),
        forall|i: int|
            0 <= i < a.len() ==> is_tool_result(#[trigger] a[i]) == is_tool_result(b[i])
                && is_user_prompt(a[i]) == is_user_prompt(b[i]),
    ensures
        last_prompt(a) == last_prompt(b),
        last_result(a) == last_result(b),
    decreases a.len(),
{
    if a.len() > 0 {
        let x = a.drop_last();
        let y = b.drop_last();
        assert forall|i: int| 0 <= i < x.len() implies is_tool_result(#[trigger] x[i])
            == is_tool_result(y[i]) && is_user_prompt(x[i]) == is_user_prompt(y[i]) by {
            assert(x[i] == a[i]);
        }
        lemma_same_kinds(x, y);
        assert(a.last() == a[a.len() - 1]);
    }
}

/// Compacting a history twice is compacting it once.
pub proof fn compaction_is_idempotent(history: Seq<HistoryModel>, preserve: bool)
    ensures
        compacted(compacted(history, preserve), preserve) == compacted(history, preserve),
{
    let once = compacted(history, preserve);
    assert forall|i: int| 0 <= i < history.len() implies is_tool_result(#[trigger] history[i])
        == is_tool_result(once[i]) && is_user_prompt(history[i]) == is_user_prompt(once[i]) by {
        lemma_message_compacts_once(history[i]);
    }
    lemma_same_kinds(history, once);
    let twice = compacted(once, preserve);
    assert forall|i: int| 0 <= i < history.len() implies once[i] == twice[i] by {
        lemma_message_compacts_once(history[i]);
        assert(is_tool_result(history[i]) == is_tool_result(once[i]));
    }
    assert(twice =~= once);
}

/// The results of the current turn stay as they are; without them to be kept, every result
/// is an older one.
pub proof fn current_results_stay(history: Seq<HistoryModel>, preserve: bool, index: int)
    requires
        0 <= index < history.len(),
    ensures
        is_current(history, preserve, index) ==> compacted(history, preserve)[index]
            == history[index],
        !preserve ==> compacted(history, preserve)[index] == compacted_message(history[index]),
{
}

/// What is left of an older piece is of its kind: a text stays a text, and of JSON an object stays
/// an object, an array an array and a text a text, with nothing in it that was not there. In
/// place of an image stands a note.
pub proof fn older_pieces_keep_their_kind(content: ContentModel)
    ensures
        content is Text ==> compacted_content(content) is Text,
        content matches ContentModel::Json(v) ==> (compacted_content(content) matches ContentModel::Json(
            w,
        ) && (v is Object ==> w is Object) && (v is Array ==> w is Array) && (v is Text
            ==> w is Text) && (json::valid(v) ==> budget::abridges(v, w))),
        content is Image ==> (compacted_content(content) matches ContentModel::Text(note)
            && note.len() > 0),
{
    reveal_strlit("[image omitted from older tool result]");
    if let ContentModel::Json(v) = content {
        budget::projection_keeps_the_kind(v, MAX_HISTORY_TOOL_RESULT_BYTES as nat);
        if json::valid(v) {
            budget::projection_abridges(v, MAX_HISTORY_TOOL_RESULT_BYTES as nat);
        }
    }
}

/// An older object that is too long keeps each of its fields, where it has few of them and values
/// of `each` bytes have room: a field of no more bytes is there as it was, a longer text keeps
/// its head and its tail, and any other longer value is abridged.
pub proof fn older_objects_keep_what_fits(
    fields: Seq<(Seq<char>, JsonView)>,
    each: nat,
    i: int,
)
    requires
        json::valid(JsonView::Object(fields)),
        json::encoded_len(JsonView::Object(fields)) > MAX_HISTORY_TOOL_RESULT_BYTES,
        budget::structures(fields, fields.len()) <= MAX_STRUCTURES,
        fields.len() - budget::structures(fields, fields.len()) <= MAX_SCALARS,
        4 <= each <= MAX_HISTORY_TOOL_RESULT_BYTES,
        forall|n: nat|
            n <= fields.len() ==> json::encoded_len(#[trigger] budget::fields_note(fields, n).1) <= each,
        budget::objects_fit(fields, each, MAX_HISTORY_TOOL_RESULT_BYTES as nat),
        0 <= i < fields.len(),
    ensures
        compacted_content(ContentModel::Json(JsonView::Object(fields))) matches ContentModel::Json(
            JsonView::Object(kept),
        ) && exists|k: int|
            0 <= k < kept.len() && (#[trigger] kept[k]).0 == fields[i].0 && budget::is_left(
                fields[i].1,
                kept[k].1,
                each,
            ),
{
    budget::few_fields_are_all_worth_keeping(fields, i);
    budget::objects_keep_what_is_worth_keeping(
        fields,
        each,
        MAX_HISTORY_TOOL_RESULT_BYTES as nat,
        i,
    );
}

/// An older text that is too long keeps its head and its tail, with a note between them that
/// counts what is left out.
pub proof fn older_texts_keep_head_and_tail(text: Seq<char>)
    requires
        text::utf8_len(text) > MAX_HISTORY_TOOL_RESULT_BYTES,
        text::utf8_len(truncate::omission_note(text::utf8_len(text), "older tool result"@))
            < MAX_HISTORY_TOOL_RESULT_BYTES,
    ensures
        compacted_content(ContentModel::Text(text)) matches ContentModel::Text(cut)
            && truncate::keeps_both_ends(
            cut,
            text,
            MAX_HISTORY_TOOL_RESULT_BYTES as nat,
            "older tool result"@,
        ),
{
    truncate::truncation_keeps_head_and_tail(
        text,
        MAX_HISTORY_TOOL_RESULT_BYTES as nat,
        "older tool result"@,
    );
}

/// Compaction leaves every message, every item and every piece in its place: what is no result
/// stays as it is, and a piece of a result stays, or is what is left of that very piece.
pub proof fn compaction_leaves_everything_in_its_place(
    history: Seq<HistoryModel>,
    preserve: bool,
    m: int,
    i: int,
    k: int,
)
    requires
        0 <= m < history.len(),
    ensures
        compacted(history, preserve).len() == history.len(),
        history[m] is Other ==> compacted(history, preserve)[m] is Other,
        history[m] matches HistoryModel::User(items) ==> (compacted(
            history,
            preserve,
        )[m] matches HistoryModel::User(after) && after.len() == items.len() && (0 <= i
            < items.len() ==> match (items[i], after[i]) {
            (ItemModel::Other, ItemModel::Other) => true,
            (ItemModel::ToolResult(content), ItemModel::ToolResult(left)) => left.len()
                == content.len() && (0 <= k < content.len() ==> left[k] == content[k]
                || !is_small(content[k]) && is_small(left[k]) && left[k] == compacted_content(
                content[k],
            )),
            _ => false,
        })),
{
    if let HistoryModel::User(items) = history[m] {
        if 0 <= i < items.len() {
            if let ItemModel::ToolResult(content) = items[i] {
                if 0 <= k < content.len() {
                    older_pieces_are_small(content[k]);
                }
            }
        }
    }
}

proof fn lemma_last_prompt(history: Seq<HistoryModel>, p: int)
    requires
        0 <= p < history.len(),
        is_user_prompt(history[p]),
        forall|j: int| p < j < history.len() ==> !is_user_prompt(#[trigger] history[j]),
    ensures
        last_prompt(history) == Some(p),
    decreases history.len(),
{
    if p < history.len() - 1 {
        let d = history.drop_last();
        assert(!is_user_prompt(history[history.len() - 1]));
        assert forall|j: int| p < j < d.len() implies !is_user_prompt(#[trigger] d[j]) by {
            assert(d[j] == history[j]);
        }
        lemma_last_prompt(d, p);
    }
}

proof fn lemma_no_prompt(history: Seq<HistoryModel>)
    requires
        forall|j: int| 0 <= j < history.len() ==> !is_user_prompt(#[trigger] history[j]),
    ensures
        last_prompt(history) is None,
    decreases history.len(),
{
    if history.len() > 0 {
        let d = history.drop_last();
        assert(!is_user_prompt(history[history.len() - 1]));
        assert forall|j: int| 0 <= j < d.len() implies !is_user_prompt(#[trigger] d[j]) by {
            assert(d[j] == history[j]);
        }
        lemma_no_prompt(d);
    }
}

proof fn lemma_last_result(history: Seq<HistoryModel>, p: int)
    requires
        0 <= p < history.len(),
        is_tool_result(history[p]),
        forall|j: int| p < j < history.len() ==> !is_tool_result(#[trigger] history[j]),
    ensures
        last_result(history) == Some(p),
    decreases history.len(),
{
    if p < history.len() - 1 {
        let d = history.drop_last();
        assert(!is_tool_result(history[history.len() - 1]));
        assert forall|j: int| p < j < d.len() implies !is_tool_result(#[trigger] d[j]) by {
            assert(d[j] == history[j]);
        }
        lemma_last_result(d, p);
    }
}

/// With the current turn to be kept, the results behind the last prompt stay whole, and those of
/// every message up to it are older ones.
pub proof fn results_behind_the_last_prompt_stay_whole(
    history: Seq<HistoryModel>,
    prompt: int,
    m: int,
)
    requires
        0 <= prompt < history.len(),
        is_user_prompt(history[prompt]),
        forall|j: int| prompt < j < history.len() ==> !is_user_prompt(#[trigger] history[j]),
        0 <= m < history.len(),
    ensures
        m > prompt ==> compacted(history, true)[m] == history[m],
        m <= prompt ==> compacted(history, true)[m] == compacted_message(history[m]),
        compacted(history, false)[m] == compacted_message(history[m]),
{
    lemma_last_prompt(history, prompt);
    if m > prompt && !is_tool_result(history[m]) {
        if let HistoryModel::User(items) = history[m] {
            assert(!is_user_prompt(history[m]));
            assert(compacted_message(history[m])->User_0 =~= items) by {
                assert(items.len() == 0) by {
                    if items.len() > 0 {
                        assert(items[0] is ToolResult || items[0] is Other);
                    }
                }
            }
        }
    }
}

/// Without a prompt, the last result is the current one: it stays whole, and every result before
/// it is an older one.
pub proof fn without_a_prompt_the_last_result_stays_whole(
    history: Seq<HistoryModel>,
    result: int,
    m: int,
)
    requires
        forall|j: int| 0 <= j < history.len() ==> !is_user_prompt(#[trigger] history[j]),
        0 <= result < history.len(),
        is_tool_result(history[result]),
        forall|j: int| result < j < history.len() ==> !is_tool_result(#[trigger] history[j]),
        0 <= m < history.len(),
    ensures
        compacted(history, true)[result] == history[result],
        m != result ==> compacted(history, true)[m] == compacted_message(history[m]),
{
    lemma_no_prompt(history);
    lemma_last_result(history, result);
}

/// A kibibyte is kept of every piece of an older result: no more of any, and all of one that
/// takes no more.
pub proof fn older_pieces_have_a_kibibyte(text: Seq<char>, json: JsonView)
    ensures
        compacted_content(ContentModel::Text(text)) matches ContentModel::Text(kept) && text::utf8_len(
            kept,
        ) <= 1024 && (text::utf8_len(text) <= 1024 ==> kept == text),
        compacted_content(ContentModel::Json(json)) matches ContentModel::Json(kept) && json::encoded_len(
            kept,
        ) <= 1024 && (json::encoded_len(json) <= 1024 ==> kept == json),
{
    older_pieces_are_small(ContentModel::Text(text));
    older_pieces_are_small(ContentModel::Json(json));
    if text::utf8_len(text) <= 1024 {
        truncate::truncation_leaves_short_text(text, 1024, "older tool result"@);
    }
    if json::encoded_len(json) <= 1024 {
        budget::projection_leaves_what_fits(json, 1024);
    }
}

} // verus!
