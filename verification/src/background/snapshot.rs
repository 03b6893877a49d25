//! The input snapshot of a background response: what came before, and the input of
//! the request.

use vstd::prelude::*;

use super::http;
use super::http::{create_error, HttpError, HttpErrorView, CONFLICT, INTERNAL_SERVER_ERROR,
    NOT_FOUND};
use super::json;
use super::json::{copy_json, copy_list, push_member, text_value, JsonValue, JsonView};
use crate::text;
use crate::text::{concat3, concat4, concat5, decimal, same_text};

verus! {

/// Most items that a snapshot may have.
pub const MAX_SNAPSHOT_ITEMS: usize = 100;

/// Number of rows in a page of a conversation.
pub const PAGE_SIZE: usize = 64;

// ---------------------------------------------------------------------------
// Previous responses
// ---------------------------------------------------------------------------
/// A stored response.
#[derive(Debug)]
pub struct StoredResponse {
    pub id: String,
    pub input: JsonValue,
    pub raw_response: JsonValue,
}

/// What a stored response holds.
#[verifier::ext_equal]
pub struct StoredView {
    pub id: Seq<char>,
    pub input: JsonView,
    pub raw_response: JsonView,
}

impl View for StoredResponse {
    type V = StoredView;

    open spec fn view(&self) -> StoredView {
        StoredView { id: self.id@, input: self.input@, raw_response: self.raw_response@ }
    }
}

pub open spec fn stored_views(chain: Seq<StoredResponse>) -> Seq<StoredView> {
    chain.map_values(|s: StoredResponse| s@)
}

/// The status of a stored response; one without a status counts as completed.
pub open spec fn status_of(raw_response: JsonView) -> Seq<char> {
    match json::text_of(json::member(raw_response, "status"@)) {
        Some(status) => status,
        None => "completed"@,
    }
}

/// Why a stored response cannot be chained to, if it cannot.
pub open spec fn chain_fault(stored: StoredView) -> Option<HttpErrorView> {
    let status = status_of(stored.raw_response);
    if status == "queued"@ || status == "in_progress"@ {
        Some(
            http::fault(
                CONFLICT,
                "previous_response_not_ready"@,
                "Previous response '"@ + stored.id + "' is still "@ + status
                    + "; cannot chain until it reaches a terminal state."@,
            ),
        )
    } else if status == "failed"@ || status == "cancelled"@ {
        Some(
            http::fault(
                CONFLICT,
                "previous_response_not_usable"@,
                "Previous response '"@ + stored.id + "' is "@ + status
                    + "; only completed or incomplete responses can be chained."@,
            ),
        )
    } else {
        None
    }
}

/// The answer for a snapshot with too many items.
pub open spec fn too_large(count: nat) -> HttpErrorView {
    http::fault(
        CONFLICT,
        "resolved_snapshot_too_large"@,
        "Resolved snapshot has "@ + text::decimal_text(count) + " items, exceeds the cap of "@
            + text::decimal_text(MAX_SNAPSHOT_ITEMS as nat) + "."@,
    )
}

/// The input and the output of a stored response.
pub open spec fn contribution(stored: StoredView) -> Seq<JsonView> {
    json::items_of(Some(stored.input)) + json::items_of(
        json::member(stored.raw_response, "output"@),
    )
}

/// The snapshot with the input and the output of a stored response.
pub open spec fn with_stored(items: Seq<JsonView>, stored: StoredView) -> Result<
    Seq<JsonView>,
    HttpErrorView,
> {
    let all = items + contribution(stored);
    if all.len() > MAX_SNAPSHOT_ITEMS {
        Err(too_large(all.len()))
    } else {
        Ok(all)
    }
}

/// The snapshot with a chain of stored responses, oldest first. The first response
/// that cannot be used decides the answer.
pub open spec fn with_chain(items: Seq<JsonView>, chain: Seq<StoredView>) -> Result<
    Seq<JsonView>,
    HttpErrorView,
>
    decreases chain.len(),
{
    if chain.len() == 0 {
        Ok(items)
    } else {
        match with_chain(items, chain.drop_last()) {
            Err(e) => Err(e),
            Ok(before) => match chain_fault(chain.last()) {
                Some(e) => Err(e),
                None => with_stored(before, chain.last()),
            },
        }
    }
}

/// The snapshot with the chain that was loaded for `prev_id`.
pub open spec fn with_loaded_chain(
    items: Seq<JsonView>,
    prev_id: Seq<char>,
    loaded: Result<Seq<StoredView>, Seq<char>>,
) -> Result<Seq<JsonView>, HttpErrorView> {
    match loaded {
        Err(e) => Err(
            http::fault(
                INTERNAL_SERVER_ERROR,
                "load_previous_response_chain_failed"@,
                "Failed to load previous response chain for "@ + prev_id + ": "@ + e,
            ),
        ),
        Ok(chain) => if chain.len() == 0 {
            Err(
                http::fault(
                    NOT_FOUND,
                    "previous_response_not_found"@,
                    "Previous response with id '"@ + prev_id + "' not found."@,
                ),
            )
        } else {
            with_chain(items, chain)
        },
    }
}

/// `result` is the outcome `expected`.
pub open spec fn is_outcome(
    result: Result<Vec<JsonValue>, HttpError>,
    expected: Result<Seq<JsonView>, HttpErrorView>,
) -> bool {
    match result {
        Ok(items) => expected == Ok::<Seq<JsonView>, HttpErrorView>(json::list_view(items@)),
        Err(e) => expected == Err::<Seq<JsonView>, HttpErrorView>(e@),
    }
}

/// Whether a stored response can be chained to. The answer names the response
/// itself, so that an unusable ancestor shows with its own id.
pub fn check_prev_response_usable(stored: &StoredResponse) -> (r: Result<(), HttpError>)
    ensures
        match r {
            Ok(_) => chain_fault(stored@) is None,
            Err(e) => chain_fault(stored@) == Some(e@),
        },
{
    let status: &str = match stored.raw_response.get("status") {
        Some(v) => match v.as_str() {
            Some(status) => status,
            None => "completed",
        },
        None => "completed",
    };
    if same_text(status, "queued") || same_text(status, "in_progress") {
        return Err(
            create_error(
                CONFLICT,
                "previous_response_not_ready",
                concat5(
                    "Previous response '",
                    stored.id.as_str(),
                    "' is still ",
                    status,
                    "; cannot chain until it reaches a terminal state.",
                ),
            ),
        );
    }
    if same_text(status, "failed") || same_text(status, "cancelled") {
        return Err(
            create_error(
                CONFLICT,
                "previous_response_not_usable",
                concat5(
                    "Previous response '",
                    stored.id.as_str(),
                    "' is ",
                    status,
                    "; only completed or incomplete responses can be chained.",
                ),
            ),
        );
    }
    Ok(())
}

/// The answer for a snapshot with too many items.
pub fn snapshot_too_large_error(item_count: u128) -> (error: HttpError)
    ensures
        error@ == too_large(item_count as nat),
{
    create_error(
        CONFLICT,
        "resolved_snapshot_too_large",
        concat5(
            "Resolved snapshot has ",
            decimal(item_count).as_str(),
            " items, exceeds the cap of ",
            decimal(MAX_SNAPSHOT_ITEMS as u128).as_str(),
            ".",
        ),
    )
}

/// Appends a copy of the items of a list value.
fn extend_with(items: &mut Vec<JsonValue>, value: &JsonValue)
    ensures
        json::list_view(final(items)@) == json::list_view(old(items)@) + json::items_of(
            Some(value@),
        ),
{
    let ghost before = items@;
    match value {
        JsonValue::List(more) => {
            let mut copy: Vec<JsonValue> = copy_list(more);
            let ghost added = copy@;
            items.append(&mut copy);
            proof {
                json::lemma_list_view_concat(before, added);
            }
        },
        _ => {
            assert(json::list_view(items@) =~= json::list_view(before) + Seq::empty());
        },
    }
}

/// Appends the input and the output of a stored response. A snapshot that would
/// exceed the cap is refused before anything is copied.
pub fn append_stored_response_items(stored: &StoredResponse, items: Vec<JsonValue>) -> (r: Result<
    Vec<JsonValue>,
    HttpError,
>)
    ensures
        is_outcome(r, with_stored(json::list_view(items@), stored@)),
{
    let input_len: usize = stored.input.list_len();
    let output: Option<&JsonValue> = stored.raw_response.get("output");
    let output_len: usize = match output {
        Some(v) => v.list_len(),
        None => 0,
    };
    proof {
        json::lemma_list_view(items@);
    }
    let count: u128 = items.len() as u128 + input_len as u128 + output_len as u128;
    if count > MAX_SNAPSHOT_ITEMS as u128 {
        return Err(snapshot_too_large_error(count));
    }
    let ghost before = json::list_view(items@);
    let mut all: Vec<JsonValue> = items;
    extend_with(&mut all, &stored.input);
    if let Some(v) = output {
        extend_with(&mut all, v);
    }
    assert(json::list_view(all@) =~= before + contribution(stored@));
    Ok(all)
}

/// Appends the chain of responses that was loaded for `prev_id`, oldest first.
pub fn append_prev_chain_items(
    prev_id: &str,
    loaded: Result<Vec<StoredResponse>, String>,
    items: Vec<JsonValue>,
) -> (r: Result<Vec<JsonValue>, HttpError>)
    ensures
        is_outcome(
            r,
            with_loaded_chain(
                json::list_view(items@),
                prev_id@,
                match loaded {
                    Ok(chain) => Ok(stored_views(chain@)),
                    Err(e) => Err(e@),
                },
            ),
        ),
{
    let chain: Vec<StoredResponse> = match loaded {
        Ok(chain) => chain,
        Err(e) => {
            return Err(
                create_error(
                    INTERNAL_SERVER_ERROR,
                    "load_previous_response_chain_failed",
                    concat4(
                        "Failed to load previous response chain for ",
                        prev_id,
                        ": ",
                        e.as_str(),
                    ),
                ),
            );
        },
    };
    if chain.len() == 0 {
        return Err(
            create_error(
                NOT_FOUND,
                "previous_response_not_found",
                concat3("Previous response with id '", prev_id, "' not found."),
            ),
        );
    }
    append_chain(&chain, items)
}

/// Appends a chain of responses, oldest first.
fn append_chain(chain: &Vec<StoredResponse>, items: Vec<JsonValue>) -> (r: Result<
    Vec<JsonValue>,
    HttpError,
>)
    ensures
        is_outcome(r, with_chain(json::list_view(items@), stored_views(chain@))),
{
    let ghost start = json::list_view(items@);
    let ghost all = stored_views(chain@);
    let mut so_far: Vec<JsonValue> = items;
    let mut i: usize = 0;
    while i < chain.len()
        invariant
            i <= chain@.len(),
            all == stored_views(chain@),
            start == json::list_view(items@),
            with_chain(start, all.subrange(0, i as int)) == Ok::<Seq<JsonView>, HttpErrorView>(
                json::list_view(so_far@),
            ),
        decreases chain@.len() - i,
    {
        proof {
            let seen = all.subrange(0, i + 1);
            assert(seen.drop_last() =~= all.subrange(0, i as int));
            assert(seen.last() == chain@[i as int]@);
        }
        if let Err(e) = check_prev_response_usable(&chain[i]) {
            proof {
                lemma_chain_fails(start, all, i + 1);
            }
            return Err(e);
        }
        match append_stored_response_items(&chain[i], so_far) {
            Ok(more) => {
                so_far = more;
            },
            Err(e) => {
                proof {
                    lemma_chain_fails(start, all, i + 1);
                }
                return Err(e);
            },
        }
        i = i + 1;
    }
    assert(all.subrange(0, i as int) =~= all);
    Ok(so_far)
}

proof fn lemma_chain_fails(items: Seq<JsonView>, chain: Seq<StoredView>, n: int)
    requires
        0 <= n <= chain.len(),
        with_chain(items, chain.subrange(0, n)) is Err,
    ensures
        with_chain(items, chain) == with_chain(items, chain.subrange(0, n)),
    decreases chain.len() - n,
{
    if n < chain.len() {
        assert(chain.subrange(0, n + 1).drop_last() =~= chain.subrange(0, n));
        lemma_chain_fails(items, chain, n + 1);
    } else {
        assert(chain.subrange(0, n) =~= chain);
    }
}

// ---------------------------------------------------------------------------
// Conversations
// ---------------------------------------------------------------------------
/// A row of a conversation.
#[derive(Debug)]
pub struct ConversationItem {
    pub id: String,
    pub item_type: String,
    pub role: Option<String>,
    pub status: Option<String>,
    pub content: JsonValue,
}

/// What a row of a conversation holds.
#[verifier::ext_equal]
pub struct ItemView {
    pub id: Seq<char>,
    pub item_type: Seq<char>,
    pub role: Option<Seq<char>>,
    pub status: Option<Seq<char>>,
    pub content: JsonView,
}

impl View for ConversationItem {
    type V = ItemView;

    open spec fn view(&self) -> ItemView {
        ItemView {
            id: self.id@,
            item_type: self.item_type@,
            role: opt_text(self.role),
            status: opt_text(self.status),
            content: self.content@,
        }
    }
}

/// Why the content of a row could not be brought into the shape that is replayed.
#[derive(Debug)]
pub enum ItemCodecError {
    /// The protocol has no item of this type.
    UnknownType(String),
    /// The stored content does not have the expected shape.
    Deserialize(String),
    /// The item cannot be written.
    Serialize(String),
}

/// What a failure says.
#[verifier::ext_equal]
pub enum CodecErrorView {
    UnknownType(Seq<char>),
    Deserialize(Seq<char>),
    Serialize(Seq<char>),
}

impl View for ItemCodecError {
    type V = CodecErrorView;

    open spec fn view(&self) -> CodecErrorView {
        match self {
            ItemCodecError::UnknownType(e) => CodecErrorView::UnknownType(e@),
            ItemCodecError::Deserialize(e) => CodecErrorView::Deserialize(e@),
            ItemCodecError::Serialize(e) => CodecErrorView::Serialize(e@),
        }
    }
}

/// A row of a conversation together with its replayed form.
#[derive(Debug)]
pub struct ConversationRow {
    pub item: ConversationItem,
    pub decoded: Result<JsonValue, ItemCodecError>,
}

/// What a row and its replayed form hold.
#[verifier::ext_equal]
pub struct RowView {
    pub item: ItemView,
    pub decoded: Result<JsonView, CodecErrorView>,
}

impl View for ConversationRow {
    type V = RowView;

    open spec fn view(&self) -> RowView {
        RowView {
            item: self.item@,
            decoded: match self.decoded {
                Ok(v) => Ok(v@),
                Err(e) => Err(e@),
            },
        }
    }
}

pub open spec fn row_views(rows: Seq<ConversationRow>) -> Seq<RowView> {
    rows.map_values(|r: ConversationRow| r@)
}

/// How a row gets its replayed form.
#[derive(Debug, Clone, Copy, PartialEq, Eq, Structural)]
pub enum SnapshotPlan {
    /// The content is a list of message parts, to be put into a message.
    Message,
    /// The row is left out.
    Skip,
    /// The content is the item itself.
    Replay,
}

/// How a row of the given type gets its replayed form. Reasoning is not replayed;
/// every other type but a message is stored as the item itself.
pub open spec fn plan_of(item_type: Seq<char>) -> SnapshotPlan {
    if item_type == "message"@ {
        SnapshotPlan::Message
    } else if item_type == "reasoning"@ {
        SnapshotPlan::Skip
    } else {
        SnapshotPlan::Replay
    }
}

/// How a row gets its replayed form.
pub fn snapshot_plan(item_type: &str) -> (plan: SnapshotPlan)
    ensures
        plan == plan_of(item_type@),
{
    if same_text(item_type, "message") {
        SnapshotPlan::Message
    } else if same_text(item_type, "reasoning") {
        SnapshotPlan::Skip
    } else {
        SnapshotPlan::Replay
    }
}

/// The role of a message; one without a role comes from the user.
pub open spec fn role_of(role: Option<Seq<char>>) -> Seq<char> {
    match role {
        Some(r) => r,
        None => "user"@,
    }
}

/// The role of a message; one without a role comes from the user.
pub fn message_role(role: Option<String>) -> (text: String)
    ensures
        text@ == role_of(opt_text(role)),
{
    match role {
        Some(r) => r,
        None => "user".to_owned(),
    }
}

/// What is to be brought into the shape of the wire protocol to replay a row.
#[derive(Debug)]
pub enum CodecRequest {
    /// A message whose parts are in the content.
    Message { id: String, role: String, status: Option<String>, content: JsonValue },
    /// The item that the content is.
    Item(JsonValue),
    /// Nothing: the row is left out.
    Skip,
}

/// What a request holds.
#[verifier::ext_equal]
pub enum CodecRequestView {
    Message { id: Seq<char>, role: Seq<char>, status: Option<Seq<char>>, content: JsonView },
    Item(JsonView),
    Skip,
}

impl View for CodecRequest {
    type V = CodecRequestView;

    open spec fn view(&self) -> CodecRequestView {
        match self {
            CodecRequest::Message { id, role, status, content } => CodecRequestView::Message {
                id: id@,
                role: role@,
                status: opt_text(*status),
                content: content@,
            },
            CodecRequest::Item(content) => CodecRequestView::Item(content@),
            CodecRequest::Skip => CodecRequestView::Skip,
        }
    }
}

/// What a row is replayed from.
pub open spec fn request_of(item: ItemView) -> CodecRequestView {
    match plan_of(item.item_type) {
        SnapshotPlan::Message => CodecRequestView::Message {
            id: item.id,
            role: role_of(item.role),
            status: item.status,
            content: item.content,
        },
        SnapshotPlan::Replay => CodecRequestView::Item(item.content),
        SnapshotPlan::Skip => CodecRequestView::Skip,
    }
}

/// A copy of an optional text.
fn copy_text(text: &Option<String>) -> (copy: Option<String>)
    ensures
        opt_text(copy) == opt_text(*text),
{
    match text {
        Some(t) => Some(t.clone()),
        None => None,
    }
}

/// What a row is replayed from: the parts of a message, the item that is stored, or
/// nothing.
pub fn codec_request(item: &ConversationItem) -> (r: CodecRequest)
    ensures
        r@ == request_of(item@),
{
    match snapshot_plan(item.item_type.as_str()) {
        SnapshotPlan::Message => CodecRequest::Message {
            id: item.id.clone(),
            role: message_role(copy_text(&item.role)),
            status: copy_text(&item.status),
            content: copy_json(&item.content),
        },
        SnapshotPlan::Replay => CodecRequest::Item(copy_json(&item.content)),
        SnapshotPlan::Skip => CodecRequest::Skip,
    }
}

/// The row is left out of the snapshot: it holds reasoning, or an item of a type that
/// the protocol does not know.
pub open spec fn left_out(row: RowView) -> bool {
    match plan_of(row.item.item_type) {
        SnapshotPlan::Message => false,
        SnapshotPlan::Skip => true,
        SnapshotPlan::Replay => row.decoded matches Err(CodecErrorView::UnknownType(_)),
    }
}

/// The answer for a row whose content cannot be read.
pub open spec fn unreadable(row: RowView, conv_id: Seq<char>, e: Seq<char>) -> HttpErrorView {
    http::fault(
        INTERNAL_SERVER_ERROR,
        "deserialize_conversation_item_failed"@,
        "Failed to deserialize "@ + row.item.item_type + " content for conversation '"@ + conv_id
            + "' item '"@ + (row.item.id + "': "@ + e),
    )
}

/// What a row contributes to the snapshot, if anything: whatever its content decoded
/// to, unless it is left out. A message is of a known type, so that content of an
/// unknown type inside it makes it unreadable.
pub open spec fn row_value(row: RowView, conv_id: Seq<char>) -> Result<
    Option<JsonView>,
    HttpErrorView,
> {
    if left_out(row) {
        Ok(None)
    } else {
        match row.decoded {
            Ok(v) => Ok(Some(v)),
            Err(CodecErrorView::UnknownType(e)) => Err(unreadable(row, conv_id, e)),
            Err(CodecErrorView::Deserialize(e)) => Err(unreadable(row, conv_id, e)),
            Err(CodecErrorView::Serialize(e)) => Err(
                http::fault(
                    INTERNAL_SERVER_ERROR,
                    "serialize_conversation_item_failed"@,
                    "Failed to serialize conversation item for '"@ + conv_id + "': "@ + e,
                ),
            ),
        }
    }
}

/// The answer for a conversation with too many items.
pub open spec fn conversation_too_large(conv_id: Seq<char>) -> HttpErrorView {
    http::fault(
        CONFLICT,
        "conversation_too_large"@,
        "Conversation '"@ + conv_id + "' resolves to more than "@ + text::decimal_text(
            MAX_SNAPSHOT_ITEMS as nat,
        ) + " replayable items; background snapshots cannot exceed this cap."@,
    )
}

/// The replayed items with those of more rows. The first row at fault decides the
/// answer, and so does the first one that exceeds the cap.
pub open spec fn with_rows(
    converted: Seq<JsonView>,
    rows: Seq<RowView>,
    conv_id: Seq<char>,
) -> Result<Seq<JsonView>, HttpErrorView>
    decreases rows.len(),
{
    if rows.len() == 0 {
        Ok(converted)
    } else {
        match with_rows(converted, rows.drop_last(), conv_id) {
            Err(e) => Err(e),
            Ok(before) => match row_value(rows.last(), conv_id) {
                Err(e) => Err(e),
                Ok(None) => Ok(before),
                Ok(Some(v)) => if before.len() >= MAX_SNAPSHOT_ITEMS {
                    Err(conversation_too_large(conv_id))
                } else {
                    Ok(before.push(v))
                },
            },
        }
    }
}

/// The answer for a row whose content cannot be read.
fn unreadable_row(item: &ConversationItem, conv_id: &str, e: &str) -> (answer: HttpError)
    ensures
        forall|row: RowView|
            row.item == item@ ==> answer@ == #[trigger] unreadable(row, conv_id@, e@),
{
    let tail: String = concat3(item.id.as_str(), "': ", e);
    let mut message: String = concat5(
        "Failed to deserialize ",
        item.item_type.as_str(),
        " content for conversation '",
        conv_id,
        "' item '",
    );
    message.append(tail.as_str());
    create_error(INTERNAL_SERVER_ERROR, "deserialize_conversation_item_failed", message)
}

/// Converts a row into the shape that is replayed. `Ok(None)` marks a row that is
/// left out on purpose: reasoning, and items of an unknown type.
pub fn conversation_item_to_snapshot_value(row: ConversationRow, conv_id: &str) -> (r: Result<
    Option<JsonValue>,
    HttpError,
>)
    ensures
        match r {
            Ok(Some(v)) => row_value(row@, conv_id@) == Ok::<Option<JsonView>, HttpErrorView>(
                Some(v@),
            ),
            Ok(None) => row_value(row@, conv_id@) == Ok::<Option<JsonView>, HttpErrorView>(None),
            Err(e) => row_value(row@, conv_id@) == Err::<Option<JsonView>, HttpErrorView>(e@),
        },
        r == Ok::<Option<JsonValue>, HttpError>(None) <==> left_out(row@),
{
    match (snapshot_plan(row.item.item_type.as_str()), row.decoded) {
        (SnapshotPlan::Skip, _) => Ok(None),
        (_, Ok(v)) => Ok(Some(v)),
        (SnapshotPlan::Replay, Err(ItemCodecError::UnknownType(_))) => Ok(None),
        (_, Err(ItemCodecError::UnknownType(e))) => Err(
            unreadable_row(&row.item, conv_id, e.as_str()),
        ),
        (_, Err(ItemCodecError::Deserialize(e))) => Err(
            unreadable_row(&row.item, conv_id, e.as_str()),
        ),
        (_, Err(ItemCodecError::Serialize(e))) => Err(
            create_error(
                INTERNAL_SERVER_ERROR,
                "serialize_conversation_item_failed",
                concat4(
                    "Failed to serialize conversation item for '",
                    conv_id,
                    "': ",
                    e.as_str(),
                ),
            ),
        ),
    }
}

/// The answer to the lookup of a conversation: whether it exists.
pub open spec fn conversation_fault(conv_id: Seq<char>, found: Result<bool, Seq<char>>) -> Option<
    HttpErrorView,
> {
    match found {
        Ok(true) => None,
        Ok(false) => Some(
            http::fault(
                NOT_FOUND,
                "conversation_not_found"@,
                "Conversation '"@ + conv_id + "' not found."@,
            ),
        ),
        Err(e) => Some(
            http::fault(
                INTERNAL_SERVER_ERROR,
                "load_conversation_failed"@,
                "Failed to load conversation '"@ + conv_id + "': "@ + e,
            ),
        ),
    }
}

/// The error of an outcome, as text.
pub open spec fn found_view(found: Result<bool, String>) -> Result<bool, Seq<char>> {
    match found {
        Ok(b) => Ok(b),
        Err(e) => Err(e@),
    }
}

/// Whether a conversation can be used.
pub fn check_conversation(conv_id: &str, found: Result<bool, String>) -> (r: Result<(), HttpError>)
    ensures
        match r {
            Ok(_) => conversation_fault(conv_id@, found_view(found)) is None,
            Err(e) => conversation_fault(conv_id@, found_view(found)) == Some(e@),
        },
{
    match found {
        Ok(true) => Ok(()),
        Ok(false) => Err(
            create_error(
                NOT_FOUND,
                "conversation_not_found",
                concat3("Conversation '", conv_id, "' not found."),
            ),
        ),
        Err(e) => Err(
            create_error(
                INTERNAL_SERVER_ERROR,
                "load_conversation_failed",
                concat4("Failed to load conversation '", conv_id, "': ", e.as_str()),
            ),
        ),
    }
}

/// Where reading a conversation stands: what was converted so far, and the row after
/// which the next page starts.
#[derive(Debug)]
pub struct ConversationPager {
    pub conv_id: String,
    pub converted: Vec<JsonValue>,
    pub after: Option<String>,
}

/// What a pager holds.
#[verifier::ext_equal]
pub struct PagerView {
    pub conv_id: Seq<char>,
    pub converted: Seq<JsonView>,
    pub after: Option<Seq<char>>,
}

/// The text of an optional string.
pub open spec fn opt_text(t: Option<String>) -> Option<Seq<char>> {
    match t {
        Some(s) => Some(s@),
        None => None,
    }
}

impl View for ConversationPager {
    type V = PagerView;

    open spec fn view(&self) -> PagerView {
        PagerView {
            conv_id: self.conv_id@,
            converted: json::list_view(self.converted@),
            after: opt_text(self.after),
        }
    }
}

/// How reading a conversation goes on.
#[derive(Debug)]
pub enum PagerStep {
    /// Another page is needed.
    More(ConversationPager),
    /// The conversation is read; these are its items.
    Done(Vec<JsonValue>),
}

/// What a step says.
#[verifier::ext_equal]
pub enum PagerStepView {
    More(PagerView),
    Done(Seq<JsonView>),
}

impl View for PagerStep {
    type V = PagerStepView;

    open spec fn view(&self) -> PagerStepView {
        match self {
            PagerStep::More(pager) => PagerStepView::More(pager@),
            PagerStep::Done(items) => PagerStepView::Done(json::list_view(items@)),
        }
    }
}

/// What a page leads to. An empty page ends the conversation, and so does a short
/// one; after a full page the next one starts behind its last row.
pub open spec fn after_page(pager: PagerView, loaded: Result<Seq<RowView>, Seq<char>>) -> Result<
    PagerStepView,
    HttpErrorView,
> {
    match loaded {
        Err(e) => Err(
            http::fault(
                INTERNAL_SERVER_ERROR,
                "load_conversation_items_failed"@,
                "Failed to load conversation items for '"@ + pager.conv_id + "': "@ + e,
            ),
        ),
        Ok(rows) => match with_rows(pager.converted, rows, pager.conv_id) {
            Err(e) => Err(e),
            Ok(converted) => if rows.len() < PAGE_SIZE {
                Ok(PagerStepView::Done(converted))
            } else {
                Ok(
                    PagerStepView::More(
                        PagerView {
                            conv_id: pager.conv_id,
                            converted,
                            after: Some(rows.last().item.id),
                        },
                    ),
                )
            },
        },
    }
}

/// The rows of a page.
pub open spec fn page_view(loaded: Result<Vec<ConversationRow>, String>) -> Result<
    Seq<RowView>,
    Seq<char>,
> {
    match loaded {
        Ok(rows) => Ok(row_views(rows@)),
        Err(e) => Err(e@),
    }
}

proof fn lemma_rows_fail(
    converted: Seq<JsonView>,
    rows: Seq<RowView>,
    conv_id: Seq<char>,
    n: int,
)
    requires
        0 <= n <= rows.len(),
        with_rows(converted, rows.subrange(0, n), conv_id) is Err,
    ensures
        with_rows(converted, rows, conv_id) == with_rows(
            converted,
            rows.subrange(0, n),
            conv_id,
        ),
    decreases rows.len() - n,
{
    if n < rows.len() {
        assert(rows.subrange(0, n + 1).drop_last() =~= rows.subrange(0, n));
        lemma_rows_fail(converted, rows, conv_id, n + 1);
    } else {
        assert(rows.subrange(0, n) =~= rows);
    }
}

/// Converts the rows of a page and adds them to what was converted before.
fn convert_rows(converted: Vec<JsonValue>, rows: Vec<ConversationRow>, conv_id: &str) -> (r: Result<
    Vec<JsonValue>,
    HttpError,
>)
    ensures
        is_outcome(r, with_rows(json::list_view(converted@), row_views(rows@), conv_id@)),
{
    let ghost start = json::list_view(converted@);
    let ghost all = row_views(rows@);
    let mut out: Vec<JsonValue> = converted;
    let mut rest: Vec<ConversationRow> = reversed(rows);
    let ghost total = all.len();
    let ghost mut n: int = 0;
    proof {
        assert(row_views(rest@).reverse() =~= all);
        assert(all.subrange(0, 0) =~= Seq::empty());
    }
    while rest.len() > 0
        invariant
            0 <= n <= all.len(),
            n + rest@.len() == all.len(),
            row_views(rest@) == all.subrange(n, all.len() as int).reverse(),
            with_rows(start, all.subrange(0, n), conv_id@) == Ok::<Seq<JsonView>, HttpErrorView>(
                json::list_view(out@),
            ),
            start == json::list_view(converted@),
            all == row_views(rows@),
        decreases rest@.len(),
    {
        let ghost before = row_views(rest@);
        if let Some(row) = rest.pop() {
            proof {
                assert(before.last() == row@);
                assert(row@ == all[n]);
                assert(row_views(rest@) =~= before.drop_last());
                assert(row_views(rest@) =~= all.subrange(n + 1, all.len() as int).reverse());
                let seen = all.subrange(0, n + 1);
                assert(seen.drop_last() =~= all.subrange(0, n));
                assert(seen.last() == row@);
                json::lemma_list_view(out@);
            }
            match conversation_item_to_snapshot_value(row, conv_id) {
                Ok(Some(value)) => {
                    if out.len() >= MAX_SNAPSHOT_ITEMS {
                        proof {
                            lemma_rows_fail(start, all, conv_id@, n + 1);
                        }
                        return Err(
                            create_error(
                                CONFLICT,
                                "conversation_too_large",
                                concat5(
                                    "Conversation '",
                                    conv_id,
                                    "' resolves to more than ",
                                    decimal(MAX_SNAPSHOT_ITEMS as u128).as_str(),
                                    " replayable items; background snapshots cannot exceed this cap.",
                                ),
                            ),
                        );
                    }
                    let ghost so_far = out@;
                    out.push(value);
                    assert(out@.drop_last() =~= so_far);
                },
                Ok(None) => {},
                Err(e) => {
                    proof {
                        lemma_rows_fail(start, all, conv_id@, n + 1);
                    }
                    return Err(e);
                },
            }
            proof {
                n = n + 1;
            }
        }
    }
    assert(all.subrange(0, n) =~= all);
    Ok(out)
}

/// The rows in the opposite order.
fn reversed(rows: Vec<ConversationRow>) -> (back: Vec<ConversationRow>)
    ensures
        back@ == rows@.reverse(),
{
    let ghost all = rows@;
    let mut rest: Vec<ConversationRow> = rows;
    let mut back: Vec<ConversationRow> = Vec::new();
    while rest.len() > 0
        invariant
            rest@.len() <= all.len(),
            rest@ == all.subrange(0, rest@.len() as int),
            back@ == all.subrange(rest@.len() as int, all.len() as int).reverse(),
        decreases rest@.len(),
    {
        let ghost n = rest@.len() as int;
        if let Some(row) = rest.pop() {
            back.push(row);
            assert(rest@ =~= all.subrange(0, n - 1));
            assert(back@ =~= all.subrange(n - 1, all.len() as int).reverse());
        }
    }
    assert(all.subrange(0, all.len() as int) =~= all);
    back
}

impl ConversationPager {
    /// A pager at the start of a conversation.
    pub fn new(conv_id: &str) -> (pager: ConversationPager)
        ensures
            pager@ == (PagerView { conv_id: conv_id@, converted: Seq::empty(), after: None }),
    {
        ConversationPager { conv_id: conv_id.to_owned(), converted: Vec::new(), after: None }
    }

    /// Takes a page and says how to go on.
    pub fn page_loaded(self, loaded: Result<Vec<ConversationRow>, String>) -> (r: Result<
        PagerStep,
        HttpError,
    >)
        ensures
            match r {
                Ok(step) => after_page(self@, page_view(loaded)) == Ok::<
                    PagerStepView,
                    HttpErrorView,
                >(step@),
                Err(e) => after_page(self@, page_view(loaded)) == Err::<
                    PagerStepView,
                    HttpErrorView,
                >(e@),
            },
            r matches Ok(PagerStep::More(next)) ==> (loaded matches Ok(rows) && rows@.len() >= 64
                && opt_text(next.after) == Some(rows@[rows@.len() - 1].item.id@) && next.conv_id@
                == self.conv_id@),
    {
        let rows: Vec<ConversationRow> = match loaded {
            Ok(rows) => rows,
            Err(e) => {
                return Err(
                    create_error(
                        INTERNAL_SERVER_ERROR,
                        "load_conversation_items_failed",
                        concat4(
                            "Failed to load conversation items for '",
                            self.conv_id.as_str(),
                            "': ",
                            e.as_str(),
                        ),
                    ),
                );
            },
        };
        let is_last_page: bool = rows.len() < PAGE_SIZE;
        let next_after: Option<String> = if rows.len() == 0 {
            None
        } else {
            Some(rows[rows.len() - 1].item.id.clone())
        };
        let ghost all = row_views(rows@);
        proof {
            if rows@.len() > 0 {
                assert(all.last() == rows@[rows@.len() - 1]@);
            }
        }
        match convert_rows(self.converted, rows, self.conv_id.as_str()) {
            Ok(converted) => {
                if is_last_page {
                    Ok(PagerStep::Done(converted))
                } else {
                    Ok(
                        PagerStep::More(
                            ConversationPager {
                                conv_id: self.conv_id,
                                converted,
                                after: next_after,
                            },
                        ),
                    )
                }
            },
            Err(e) => Err(e),
        }
    }
}

// ---------------------------------------------------------------------------
// The input of the request
// ---------------------------------------------------------------------------
/// The conventional id prefix of an item type.
pub open spec fn prefix_of(item_type: Seq<char>) -> Option<Seq<char>> {
    if item_type == "message"@ {
        Some("msg"@)
    } else if item_type == "function_call"@ {
        Some("fc"@)
    } else if item_type == "function_call_output"@ {
        Some("fco"@)
    } else if item_type == "reasoning"@ {
        Some("r"@)
    } else {
        None
    }
}

/// The conventional id prefix of an item type.
pub fn item_id_prefix(item_type: &str) -> (prefix: Option<&'static str>)
    ensures
        match prefix {
            Some(p) => prefix_of(item_type@) == Some(p@),
            None => prefix_of(item_type@) is None,
        },
{
    if same_text(item_type, "message") {
        Some("msg")
    } else if same_text(item_type, "function_call") {
        Some("fc")
    } else if same_text(item_type, "function_call_output") {
        Some("fco")
    } else if same_text(item_type, "reasoning") {
        Some("r")
    } else {
        None
    }
}

/// An id: a prefix and a part that makes it unique.
pub open spec fn id_text(prefix: Seq<char>, unique: Seq<char>) -> Seq<char> {
    prefix + "_"@ + unique
}

/// The id prefix of an input item: that of its type, or else that of a message.
pub open spec fn item_prefix(members: Seq<(Seq<char>, JsonView)>) -> Seq<char> {
    match json::text_of(json::find_member(members, "type"@)) {
        Some(item_type) => match prefix_of(item_type) {
            Some(prefix) => prefix,
            None => "msg"@,
        },
        None => "msg"@,
    }
}

/// An input item with an id. One that has an id, or is no object, stays as it is.
pub open spec fn with_item_id(item: JsonView, unique: Seq<char>) -> JsonView {
    match item {
        JsonView::Object(members) => if json::find_member(members, "id"@) is None {
            JsonView::Object(
                members.push(("id"@, JsonView::Text(id_text(item_prefix(members), unique)))),
            )
        } else {
            item
        },
        _ => item,
    }
}

/// Gives an input item an id if it lacks one, so that the queued snapshot has stable
/// identifiers.
pub fn ensure_item_id(item: JsonValue, unique: &str) -> (with_id: JsonValue)
    ensures
        with_id@ == with_item_id(item@, unique@),
{
    let has_id: bool = item.get("id").is_some();
    let prefix: &'static str = match item.get("type") {
        Some(v) => match v.as_str() {
            Some(item_type) => match item_id_prefix(item_type) {
                Some(prefix) => prefix,
                None => "msg",
            },
            None => "msg",
        },
        None => "msg",
    };
    match item {
        JsonValue::Object(members) => {
            let mut all: Vec<(String, JsonValue)> = members;
            if !has_id {
                let id: JsonValue = JsonValue::Text(concat3(prefix, "_", unique));
                push_member(&mut all, "id", id);
            }
            JsonValue::Object(all)
        },
        other => other,
    }
}

/// A user message with the given text.
pub open spec fn user_message(input: Seq<char>, unique: Seq<char>) -> JsonView {
    JsonView::Object(
        seq![
            ("id"@, JsonView::Text(id_text("msg"@, unique))),
            ("type"@, JsonView::Text("message"@)),
            ("role"@, JsonView::Text("user"@)),
            (
                "content"@,
                JsonView::List(
                    seq![
                        JsonView::Object(
                            seq![
                                ("type"@, JsonView::Text("input_text"@)),
                                ("text"@, JsonView::Text(input)),
                            ],
                        ),
                    ],
                ),
            ),
            ("status"@, JsonView::Text("completed"@)),
        ],
    )
}

/// Wraps a text as a user message, in the shape in which messages are stored.
pub fn wrap_user_message(input: &str, unique: &str) -> (message: JsonValue)
    ensures
        message@ == user_message(input@, unique@),
{
    let mut part: Vec<(String, JsonValue)> = Vec::new();
    push_member(&mut part, "type", text_value("input_text"));
    push_member(&mut part, "text", text_value(input));
    let ghost part_view = json::members_view(part@);
    let mut content: Vec<JsonValue> = Vec::new();
    content.push(JsonValue::Object(part));
    proof {
        assert(part_view =~= seq![
            ("type"@, JsonView::Text("input_text"@)),
            ("text"@, JsonView::Text(input@)),
        ]);
        json::lemma_list_view(content@);
        assert(json::list_view(content@) =~= seq![JsonView::Object(part_view)]);
    }
    let mut members: Vec<(String, JsonValue)> = Vec::new();
    push_member(&mut members, "id", JsonValue::Text(concat3("msg", "_", unique)));
    push_member(&mut members, "type", text_value("message"));
    push_member(&mut members, "role", text_value("user"));
    push_member(&mut members, "content", JsonValue::List(content));
    push_member(&mut members, "status", text_value("completed"));
    proof {
        assert(json::members_view(members@) =~= user_message(input@, unique@)->Object_0);
    }
    JsonValue::Object(members)
}

/// How many ids the input of a request may need.
pub open spec fn ids_needed(input: JsonView) -> nat {
    match input {
        JsonView::List(items) => items.len(),
        JsonView::Text(_) => 1,
        _ => 0,
    }
}

/// How many ids the input of a request may need.
pub fn input_ids_needed(input: &JsonValue) -> (n: usize)
    ensures
        n == ids_needed(input@),
{
    match input {
        JsonValue::List(items) => {
            proof {
                json::lemma_list_view(items@);
            }
            items.len()
        },
        JsonValue::Text(_) => 1,
        _ => 0,
    }
}

/// The texts of a list.
pub open spec fn texts(list: Seq<String>) -> Seq<Seq<char>> {
    list.map_values(|t: String| t@)
}

/// The items of the input of a request, each with an id. A text becomes one user
/// message; what is neither a list nor a text adds nothing.
pub open spec fn input_items(input: JsonView, unique: Seq<Seq<char>>) -> Seq<JsonView> {
    match input {
        JsonView::List(items) => Seq::new(
            items.len(),
            |i: int| with_item_id(items[i], unique[i]),
        ),
        JsonView::Text(t) => seq![user_message(t, unique[0])],
        _ => Seq::empty(),
    }
}

/// The snapshot: what came before, and the input of the request.
pub open spec fn resolved(
    base: Seq<JsonView>,
    input: JsonView,
    unique: Seq<Seq<char>>,
) -> Result<Seq<JsonView>, HttpErrorView> {
    let all = base + input_items(input, unique);
    if all.len() > MAX_SNAPSHOT_ITEMS {
        Err(too_large(all.len()))
    } else {
        Ok(all)
    }
}

/// Builds the snapshot. `unique` holds a unique part for each id that the input may
/// need.
pub fn resolve_snapshot(base: Vec<JsonValue>, input: &JsonValue, unique: &Vec<String>) -> (r: Result<
    Vec<JsonValue>,
    HttpError,
>)
    requires
        unique@.len() >= ids_needed(input@),
    ensures
        is_outcome(r, resolved(json::list_view(base@), input@, texts(unique@))),
{
    let ghost start = json::list_view(base@);
    let ghost ids = texts(unique@);
    let mut all: Vec<JsonValue> = base;
    match input {
        JsonValue::List(items) => {
            let ghost given = json::list_view(items@);
            let mut i: usize = 0;
            proof {
                json::lemma_list_view(items@);
                assert(start =~= start + Seq::new(
                    0,
                    |k: int| with_item_id(given[k], ids[k]),
                ));
            }
            while i < items.len()
                invariant
                    i <= items@.len(),
                    given == json::list_view(items@),
                    ids == texts(unique@),
                    unique@.len() >= items@.len(),
                    json::list_view(all@) == start + Seq::new(
                        i as nat,
                        |k: int| with_item_id(given[k], ids[k]),
                    ),
                decreases items@.len() - i,
            {
                let ghost before = all@;
                let ghost so_far = json::list_view(all@);
                proof {
                    json::lemma_list_view(items@);
                    assert(given[i as int] == items@[i as int]@);
                    assert(ids[i as int] == unique@[i as int]@);
                }
                all.push(ensure_item_id(copy_json(&items[i]), unique[i].as_str()));
                i = i + 1;
                proof {
                    assert(all@.drop_last() =~= before);
                    assert(json::list_view(all@) =~= start + Seq::new(
                        i as nat,
                        |k: int| with_item_id(given[k], ids[k]),
                    ));
                }
            }
            proof {
                json::lemma_list_view(items@);
                assert(json::list_view(all@) =~= start + input_items(input@, ids));
            }
        },
        JsonValue::Text(t) => {
            let ghost before = all@;
            assert(ids[0] == unique@[0]@);
            all.push(wrap_user_message(t.as_str(), unique[0].as_str()));
            proof {
                assert(all@.drop_last() =~= before);
                assert(json::list_view(all@) =~= start + input_items(input@, ids));
            }
        },
        _ => {
            assert(json::list_view(all@) =~= start + input_items(input@, ids));
        },
    }
    proof {
        json::lemma_list_view(all@);
    }
    if all.len() > MAX_SNAPSHOT_ITEMS {
        return Err(snapshot_too_large_error(all.len() as u128));
    }
    Ok(all)
}

// ---------------------------------------------------------------------------
// Laws
// ---------------------------------------------------------------------------
/// No snapshot exceeds the cap, wherever its items come from.
pub proof fn law_snapshot_respects_cap(
    base: Seq<JsonView>,
    input: JsonView,
    unique: Seq<Seq<char>>,
)
    ensures
        resolved(base, input, unique) matches Ok(items) ==> items.len() <= MAX_SNAPSHOT_ITEMS,
{
}

/// What a chain contributes stays within the cap.
pub proof fn law_chain_respects_cap(items: Seq<JsonView>, chain: Seq<StoredView>)
    requires
        items.len() <= MAX_SNAPSHOT_ITEMS,
    ensures
        with_chain(items, chain) matches Ok(all) ==> all.len() <= MAX_SNAPSHOT_ITEMS,
    decreases chain.len(),
{
    if chain.len() > 0 {
        law_chain_respects_cap(items, chain.drop_last());
    }
}

/// A chain in which every response is usable is refused for its size alone: if it
/// fits, the snapshot is the contributions in chronological order.
pub proof fn law_fitting_chain_is_accepted(items: Seq<JsonView>, chain: Seq<StoredView>)
    requires
        forall|i: int| 0 <= i < chain.len() ==> chain_fault(#[trigger] chain[i]) is None,
        items.len() + total_contribution(chain).len() <= MAX_SNAPSHOT_ITEMS,
    ensures
        with_chain(items, chain) == Ok::<Seq<JsonView>, HttpErrorView>(
            items + total_contribution(chain),
        ),
    decreases chain.len(),
{
    if chain.len() == 0 {
        assert(items =~= items + total_contribution(chain));
    } else {
        let rest = chain.drop_last();
        assert forall|i: int| 0 <= i < rest.len() implies chain_fault(#[trigger] rest[i]) is None by {
            assert(rest[i] == chain[i]);
        }
        law_fitting_chain_is_accepted(items, rest);
        assert(chain_fault(chain[chain.len() - 1]) is None);
        assert(items + total_contribution(rest) + contribution(chain.last()) =~= items
            + total_contribution(chain));
    }
}

/// What the responses of a chain contribute, in order.
pub open spec fn total_contribution(chain: Seq<StoredView>) -> Seq<JsonView>
    decreases chain.len(),
{
    if chain.len() == 0 {
        Seq::empty()
    } else {
        total_contribution(chain.drop_last()) + contribution(chain.last())
    }
}

/// What a conversation contributes stays within the cap.
pub proof fn law_conversation_respects_cap(
    converted: Seq<JsonView>,
    rows: Seq<RowView>,
    conv_id: Seq<char>,
)
    requires
        converted.len() <= MAX_SNAPSHOT_ITEMS,
    ensures
        with_rows(converted, rows, conv_id) matches Ok(all) ==> all.len() <= MAX_SNAPSHOT_ITEMS,
    decreases rows.len(),
{
    if rows.len() > 0 {
        law_conversation_respects_cap(converted, rows.drop_last(), conv_id);
    }
}

/// The replayed items of rows that are free of faults.
pub open spec fn replayed(rows: Seq<RowView>) -> Seq<JsonView>
    decreases rows.len(),
{
    if rows.len() == 0 {
        Seq::empty()
    } else {
        match (plan_of(rows.last().item.item_type), rows.last().decoded) {
            (SnapshotPlan::Skip, _) => replayed(rows.drop_last()),
            (_, Ok(v)) => replayed(rows.drop_last()).push(v),
            (_, Err(_)) => replayed(rows.drop_last()),
        }
    }
}

/// The cap counts replayed items, not rows: rows that are free of faults and replay
/// to at most as many items as fit are accepted, however many rows there are.
pub proof fn law_cap_counts_replayed_items(
    converted: Seq<JsonView>,
    rows: Seq<RowView>,
    conv_id: Seq<char>,
)
    requires
        forall|i: int| 0 <= i < rows.len() ==> row_value(#[trigger] rows[i], conv_id) is Ok,
        converted.len() + replayed(rows).len() <= MAX_SNAPSHOT_ITEMS,
    ensures
        with_rows(converted, rows, conv_id) == Ok::<Seq<JsonView>, HttpErrorView>(
            converted + replayed(rows),
        ),
    decreases rows.len(),
{
    if rows.len() == 0 {
        assert(converted =~= converted + replayed(rows));
    } else {
        let rest = rows.drop_last();
        assert forall|i: int| 0 <= i < rest.len() implies row_value(
            #[trigger] rest[i],
            conv_id,
        ) is Ok by {
            assert(rest[i] == rows[i]);
        }
        assert(row_value(rows[rows.len() - 1], conv_id) is Ok);
        law_cap_counts_replayed_items(converted, rest, conv_id);
        if let Ok(Some(v)) = row_value(rows.last(), conv_id) {
            assert((converted + replayed(rest)).push(v) =~= converted + replayed(rows));
        }
    }
}

/// Reading a conversation page by page gives what reading it at once gives.
pub proof fn law_pages_add_up(
    converted: Seq<JsonView>,
    first: Seq<RowView>,
    second: Seq<RowView>,
    conv_id: Seq<char>,
)
    ensures
        with_rows(converted, first + second, conv_id) == match with_rows(
            converted,
            first,
            conv_id,
        ) {
            Ok(before) => with_rows(before, second, conv_id),
            Err(e) => Err(e),
        },
    decreases second.len(),
{
    if second.len() == 0 {
        assert(first + second =~= first);
    } else {
        law_pages_add_up(converted, first, second.drop_last(), conv_id);
        assert((first + second).drop_last() =~= first + second.drop_last());
        assert((first + second).last() == second.last());
    }
}

/// The page that starts with row `n` of a stored conversation is the one to be read after
/// the cursor: the first page without a cursor, else the one behind the row with that id.
pub open spec fn starts_at(stored: Seq<RowView>, after: Option<Seq<char>>, n: int) -> bool {
    &&& 0 <= n <= stored.len()
    &&& match after {
        None => n == 0,
        Some(id) => n > 0 && stored[n - 1].item.id == id,
    }
}

/// The page of up to 64 rows that starts with row `n`.
pub open spec fn page_at(stored: Seq<RowView>, n: int) -> Seq<RowView> {
    stored.subrange(
        n,
        if n + 64 <= stored.len() {
            n + 64
        } else {
            stored.len() as int
        },
    )
}

/// `page` is what the store gives for the cursor.
pub open spec fn is_page(
    stored: Seq<RowView>,
    after: Option<Seq<char>>,
    page: Seq<RowView>,
) -> bool {
    exists|n: int| #[trigger] starts_at(stored, after, n) && page == page_at(stored, n)
}

/// No two rows have the same id.
pub open spec fn distinct_ids(stored: Seq<RowView>) -> bool {
    forall|i: int, j: int|
        0 <= i < j < stored.len() ==> (#[trigger] stored[i]).item.id != (
        #[trigger] stored[j]).item.id
}

/// After a full page the cursor is the id of the last row of that page, and the
/// conversation stays the same. A page that is not full is the last one.
pub proof fn law_cursor_is_last_row(pager: PagerView, rows: Seq<RowView>)
    ensures
        match after_page(pager, Ok(rows)) {
            Ok(PagerStepView::More(next)) => rows.len() >= 64 && next.after == Some(
                rows[rows.len() - 1].item.id,
            ) && next.conv_id == pager.conv_id,
            Ok(PagerStepView::Done(_)) => rows.len() < 64,
            Err(_) => true,
        },
{
}

proof fn lemma_page_reached(
    stored: Seq<RowView>,
    conv_id: Seq<char>,
    pagers: Seq<PagerView>,
    pages: Seq<Seq<RowView>>,
    i: int,
)
    requires
        distinct_ids(stored),
        pages.len() == pagers.len(),
        0 <= i < pagers.len(),
        pagers[0] == (PagerView { conv_id, converted: Seq::empty(), after: None }),
        forall|k: int|
            0 <= k < pagers.len() ==> is_page(
                stored,
                (#[trigger] pagers[k]).after,
                pages[k],
            ),
        forall|k: int|
            0 <= k < pagers.len() - 1 ==> after_page(#[trigger] pagers[k], Ok(pages[k])) == Ok::<
                PagerStepView,
                HttpErrorView,
            >(PagerStepView::More(pagers[k + 1])),
    ensures
        64 * i <= stored.len(),
        pages[i] == page_at(stored, 64 * i),
        pagers[i].conv_id == conv_id,
        with_rows(Seq::empty(), stored.subrange(0, 64 * i), conv_id) == Ok::<
            Seq<JsonView>,
            HttpErrorView,
        >(pagers[i].converted),
    decreases i,
{
    assert(is_page(stored, pagers[i].after, pages[i]));
    let n = choose|n: int| #[trigger]
        starts_at(stored, pagers[i].after, n) && pages[i] == page_at(stored, n);
    if i == 0 {
        assert(stored.subrange(0, 0) =~= Seq::empty());
    } else {
        lemma_page_reached(stored, conv_id, pagers, pages, i - 1);
        let start = 64 * (i - 1);
        let page = page_at(stored, start);
        assert(after_page(pagers[i - 1], Ok(pages[i - 1])) == Ok::<PagerStepView, HttpErrorView>(
            PagerStepView::More(pagers[i - 1 + 1]),
        ));
        assert(page.len() == 64);
        assert(page[63] == stored[start + 63]);
        assert(pagers[i].after == Some(stored[start + 63].item.id));
        assert(stored[n - 1].item.id == stored[start + 63].item.id);
        assert(n == start + 64) by {
            if n - 1 < start + 63 {
                assert(stored[n - 1].item.id != stored[start + 63].item.id);
            } else if n - 1 > start + 63 {
                assert(stored[start + 63].item.id != stored[n - 1].item.id);
            }
        }
        law_pages_add_up(Seq::empty(), stored.subrange(0, start), page, conv_id);
        assert(stored.subrange(0, start) + page =~= stored.subrange(0, 64 * i));
    }
}

/// Reading a stored conversation with distinct ids page by page, where each page is the
/// rows that follow the cursor, reads every row exactly once and in order: the pages add
/// up to the conversation, and what is replayed is what reading it at once replays.
pub proof fn law_paging_reads_each_row_once(
    stored: Seq<RowView>,
    conv_id: Seq<char>,
    pagers: Seq<PagerView>,
    pages: Seq<Seq<RowView>>,
    items: Seq<JsonView>,
)
    requires
        distinct_ids(stored),
        pagers.len() > 0,
        pages.len() == pagers.len(),
        pagers[0] == (PagerView { conv_id, converted: Seq::empty(), after: None }),
        forall|k: int|
            0 <= k < pagers.len() ==> is_page(
                stored,
                (#[trigger] pagers[k]).after,
                pages[k],
            ),
        forall|k: int|
            0 <= k < pagers.len() - 1 ==> after_page(#[trigger] pagers[k], Ok(pages[k])) == Ok::<
                PagerStepView,
                HttpErrorView,
            >(PagerStepView::More(pagers[k + 1])),
        after_page(pagers.last(), Ok(pages.last())) == Ok::<PagerStepView, HttpErrorView>(
            PagerStepView::Done(items),
        ),
    ensures
        pages.flatten() == stored,
        with_rows(Seq::empty(), stored, conv_id) == Ok::<Seq<JsonView>, HttpErrorView>(items),
{
    let last = pagers.len() - 1;
    lemma_page_reached(stored, conv_id, pagers, pages, last);
    let page = page_at(stored, 64 * last);
    law_pages_add_up(Seq::empty(), stored.subrange(0, 64 * last), page, conv_id);
    assert(page.len() < 64);
    assert(stored.subrange(0, 64 * last) + page =~= stored);
    assert forall|k: int| 0 <= k <= last implies 64 * k <= stored.len() && (#[trigger] pages[k])
        == page_at(stored, 64 * k) by {
        lemma_page_reached(stored, conv_id, pagers, pages, k);
    }
    lemma_pages_flatten(stored, pages, last);
    assert(pages.subrange(0, last) =~= pages.drop_last());
    assert(pages =~= pages.drop_last().push(page));
    pages.drop_last().lemma_flatten_push(page);
}

proof fn lemma_pages_flatten(stored: Seq<RowView>, pages: Seq<Seq<RowView>>, n: int)
    requires
        0 <= n <= pages.len(),
        64 * n <= stored.len(),
        forall|k: int| 0 <= k < n ==> (#[trigger] pages[k]) == page_at(stored, 64 * k),
    ensures
        pages.subrange(0, n).flatten() == stored.subrange(0, 64 * n),
    decreases n,
{
    if n == 0 {
        assert(pages.subrange(0, 0) =~= Seq::empty());
        assert(pages.subrange(0, 0).flatten() =~= stored.subrange(0, 0));
    } else {
        lemma_pages_flatten(stored, pages, n - 1);
        assert(pages.subrange(0, n) =~= pages.subrange(0, n - 1).push(pages[n - 1]));
        pages.subrange(0, n - 1).lemma_flatten_push(pages[n - 1]);
        assert(stored.subrange(0, 64 * (n - 1)) + page_at(stored, 64 * (n - 1))
            =~= stored.subrange(0, 64 * n));
    }
}

/// A conversation without reasoning, all of whose rows decoded, is replayed as what its
/// rows decoded to, row by row, if it has at most 100 rows, and is refused if it has more.
pub proof fn law_decoded_rows_are_replayed_in_order(
    rows: Seq<RowView>,
    values: Seq<JsonView>,
    conv_id: Seq<char>,
)
    requires
        rows.len() == values.len(),
        forall|i: int|
            0 <= i < rows.len() ==> (#[trigger] rows[i]).item.item_type != "reasoning"@
                && rows[i].decoded == Ok::<JsonView, CodecErrorView>(values[i]),
    ensures
        rows.len() <= 100 ==> with_rows(Seq::empty(), rows, conv_id) == Ok::<
            Seq<JsonView>,
            HttpErrorView,
        >(values),
        rows.len() > 100 ==> (with_rows(Seq::empty(), rows, conv_id) matches Err(e) && e.status
            == 409 && e.code == "conversation_too_large"@ && e.message == "Conversation '"@
            + conv_id + "' resolves to more than "@ + text::decimal_text(100)
            + " replayable items; background snapshots cannot exceed this cap."@),
    decreases rows.len(),
{
    if rows.len() == 0 {
        assert(values =~= Seq::empty());
    } else {
        let (r, v) = (rows.drop_last(), values.drop_last());
        assert forall|i: int| 0 <= i < r.len() implies (#[trigger] r[i]).item.item_type
            != "reasoning"@ && r[i].decoded == Ok::<JsonView, CodecErrorView>(v[i]) by {
            assert(r[i] == rows[i]);
        }
        law_decoded_rows_are_replayed_in_order(r, v, conv_id);
        assert(rows[rows.len() - 1].decoded == Ok::<JsonView, CodecErrorView>(
            values[rows.len() - 1],
        ));
        assert(values =~= v.push(values.last()));
    }
}

/// A row that is left out, because it holds reasoning or an item of an unknown type,
/// adds nothing to the snapshot and does not fail its page, wherever it stands.
pub proof fn law_left_out_row_changes_nothing(
    converted: Seq<JsonView>,
    before: Seq<RowView>,
    row: RowView,
    after: Seq<RowView>,
    conv_id: Seq<char>,
)
    requires
        left_out(row),
    ensures
        with_rows(converted, before.push(row) + after, conv_id) == with_rows(
            converted,
            before + after,
            conv_id,
        ),
{
    assert(before.push(row).drop_last() =~= before);
    law_pages_add_up(converted, before.push(row), after, conv_id);
    law_pages_add_up(converted, before, after, conv_id);
}

/// No history is lost: a row that is not reasoning, and whose content decoded, is
/// replayed as what it decoded to, whatever its type.
pub proof fn law_decoded_row_is_replayed(row: RowView, conv_id: Seq<char>, value: JsonView)
    requires
        row.item.item_type != "reasoning"@,
        row.decoded == Ok::<JsonView, CodecErrorView>(value),
    ensures
        row_value(row, conv_id) == Ok::<Option<JsonView>, HttpErrorView>(Some(value)),
{
}

/// An item that has an id keeps it: giving ids a second time changes nothing.
pub proof fn law_ids_are_stable(item: JsonView, unique: Seq<char>, other: Seq<char>)
    ensures
        with_item_id(with_item_id(item, unique), other) == with_item_id(item, unique),
{
    if let JsonView::Object(members) = item {
        if json::find_member(members, "id"@) is None {
            let id = ("id"@, JsonView::Text(id_text(item_prefix(members), unique)));
            let longer = members.push(id);
            lemma_no_member(members, "id"@);
            json::lemma_find_member(longer, "id"@, members.len() as int);
        }
    }
}

/// Where a member is not found, no member has the name.
proof fn lemma_no_member(members: Seq<(Seq<char>, JsonView)>, name: Seq<char>)
    requires
        json::find_member(members, name) is None,
    ensures
        forall|k: int| 0 <= k < members.len() ==> (#[trigger] members[k]).0 != name,
        forall|v: (Seq<char>, JsonView), k: int|
            0 <= k < members.len() ==> (#[trigger] members.push(v)[k]).0 != name,
    decreases members.len(),
{
    if members.len() > 0 {
        let rest = members.drop_first();
        lemma_no_member(rest, name);
        assert forall|k: int| 0 <= k < members.len() implies (#[trigger] members[k]).0 != name by {
            if k > 0 {
                assert(rest[k - 1] == members[k]);
            }
        }
    }
}

} // verus!
